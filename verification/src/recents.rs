//! The "recent" list of the home screen: the download, video and conversion
//! histories merged, newest first, and cut to the first few entries.

use vstd::prelude::*;

use crate::chars::{chars_of, string_views};

verus! {

/// How many recent entries the home screen shows.
pub open spec fn recents_shown() -> nat {
    8
}

/// `a` sorts before `b` as text: the order of `String`, character by
/// character, a proper prefix first.
pub open spec fn text_less(a: Seq<char>, b: Seq<char>) -> bool
    decreases a.len(),
{
    if a.len() == 0 {
        b.len() > 0
    } else if b.len() == 0 {
        false
    } else if a[0] != b[0] {
        a[0] < b[0]
    } else {
        text_less(a.drop_first(), b.drop_first())
    }
}

/// Entry `i` comes before entry `j` in the recent list, given the creation
/// times of all entries: it is newer, or as new and earlier in the merged
/// histories (the sort keeps the order of equal entries).
pub open spec fn shown_before(times: Seq<Seq<char>>, i: int, j: int) -> bool {
    text_less(times[j], times[i]) || (!text_less(times[i], times[j]) && i < j)
}

/// `order` lists the positions of the recent list: the `keep` first entries
/// (all, when there are fewer) of the entries sorted newest first, in that
/// order.
pub open spec fn is_recent_order(times: Seq<Seq<char>>, order: Seq<usize>, keep: nat) -> bool {
    &&& order.len() == if times.len() < keep { times.len() } else { keep }
    &&& forall|k: int| 0 <= k < order.len() ==> order[k] < times.len()
    &&& forall|k1: int, k2: int|
        0 <= k1 < k2 < order.len() ==> shown_before(times, order[k1] as int, order[k2] as int)
    &&& forall|j: usize, k: int|
        #![trigger order.contains(j), order[k]]
        j < times.len() && !order.contains(j) && 0 <= k < order.len() ==> shown_before(
            times,
            order[k] as int,
            j as int,
        )
}

/// No text sorts before itself.
pub proof fn lemma_text_less_irreflexive(a: Seq<char>)
    ensures
        !text_less(a, a),
    decreases a.len(),
{
    if a.len() > 0 {
        lemma_text_less_irreflexive(a.drop_first());
    }
}

/// Two texts neither of which sorts before the other are equal.
pub proof fn lemma_text_less_total(a: Seq<char>, b: Seq<char>)
    ensures
        !text_less(a, b) && !text_less(b, a) ==> a == b,
    decreases a.len(),
{
    if a.len() == 0 && b.len() == 0 {
        assert(a =~= b);
    } else if a.len() > 0 && b.len() > 0 && a[0] != b[0] {
    } else if a.len() > 0 && b.len() > 0 && a[0] == b[0] {
        lemma_text_less_total(a.drop_first(), b.drop_first());
        if !text_less(a, b) && !text_less(b, a) {
            assert(a =~= b) by {
                assert forall|i: int| 0 <= i < a.len() implies a[i] == b[i] by {
                    if i > 0 {
                        assert(a[i] == a.drop_first()[i - 1]);
                        assert(b[i] == b.drop_first()[i - 1]);
                    }
                }
            }
        }
    }
}

/// Sorting before is transitive.
pub proof fn lemma_text_less_transitive(a: Seq<char>, b: Seq<char>, c: Seq<char>)
    requires
        text_less(a, b),
        text_less(b, c),
    ensures
        text_less(a, c),
    decreases a.len(),
{
    if a.len() > 0 && a[0] == b[0] && b[0] == c[0] {
        lemma_text_less_transitive(a.drop_first(), b.drop_first(), c.drop_first());
    }
}

/// Coming before in the recent list is transitive.
pub proof fn lemma_shown_before_transitive(times: Seq<Seq<char>>, x: int, y: int, z: int)
    requires
        shown_before(times, x, y),
        shown_before(times, y, z),
    ensures
        shown_before(times, x, z),
{
    let (cx, cy, cz) = (times[x], times[y], times[z]);
    lemma_text_less_total(cx, cy);
    lemma_text_less_total(cy, cz);
    lemma_text_less_total(cx, cz);
    lemma_text_less_irreflexive(cx);
    if text_less(cy, cx) && text_less(cz, cy) {
        lemma_text_less_transitive(cz, cy, cx);
    }
}

/// `text_less` on character vectors.
pub fn text_lt(a: &Vec<char>, b: &Vec<char>) -> (r: bool)
    ensures
        r == text_less(a@, b@),
{
    let mut i: usize = 0;
    proof {
        assert(a@.skip(0) =~= a@);
        assert(b@.skip(0) =~= b@);
    }
    while i < a.len() && i < b.len()
        invariant
            i <= a.len(),
            i <= b.len(),
            text_less(a@, b@) == text_less(a@.skip(i as int), b@.skip(i as int)),
        decreases a.len() - i,
    {
        if a[i] != b[i] {
            proof {
                assert(a@.skip(i as int)[0] == a@[i as int]);
                assert(b@.skip(i as int)[0] == b@[i as int]);
            }
            return a[i] < b[i];
        }
        proof {
            assert(a@.skip(i as int).drop_first() =~= a@.skip(i + 1));
            assert(b@.skip(i as int).drop_first() =~= b@.skip(i + 1));
        }
        i = i + 1;
    }
    proof {
        assert(a@.skip(i as int).len() == a.len() - i);
        assert(b@.skip(i as int).len() == b.len() - i);
    }
    i < b.len()
}

/// The positions, in the merged histories, of the entries the home screen
/// shows: sorted by creation time (`created_at`, compared as text), newest
/// first, equal times in the merged order, the first 8 kept.
pub fn recent_order(created_at: &Vec<String>) -> (r: Vec<usize>)
    ensures
        is_recent_order(string_views(created_at@), r@, recents_shown()),
{
    let n = created_at.len();
    let ghost times = string_views(created_at@);
    let mut keys: Vec<Vec<char>> = Vec::new();
    let mut remaining: Vec<usize> = Vec::new();
    let mut i: usize = 0;
    while i < n
        invariant
            i <= n,
            n == created_at.len(),
            times == string_views(created_at@),
            keys.len() == i,
            remaining.len() == i,
            forall|k: int| 0 <= k < i ==> keys[k]@ == times[k],
            forall|k: int| 0 <= k < i ==> remaining[k] == k,
        decreases n - i,
    {
        keys.push(chars_of(created_at[i].as_str()));
        remaining.push(i);
        i = i + 1;
    }
    let mut r: Vec<usize> = Vec::new();
    proof {
        assert forall|j: usize| j < n implies #[trigger] r@.contains(j)
            || remaining@.contains(j) by {
            assert(remaining@[j as int] == j);
        }
    }
    while r.len() < 8 && remaining.len() > 0
        invariant
            n == created_at.len(),
            times == string_views(created_at@),
            times.len() == n,
            keys.len() == n,
            forall|k: int| 0 <= k < n ==> keys[k]@ == times[k],
            r.len() + remaining.len() == n,
            r.len() <= 8,
            forall|k: int| 0 <= k < r.len() ==> r[k] < n,
            forall|m: int| 0 <= m < remaining.len() ==> remaining[m] < n,
            forall|a: int, b: int| 0 <= a < b < remaining.len() ==> remaining[a] < remaining[b],
            forall|j: usize| j < n ==> #[trigger] r@.contains(j) || remaining@.contains(j),
            forall|k1: int, k2: int|
                0 <= k1 < k2 < r.len() ==> shown_before(times, r[k1] as int, r[k2] as int),
            forall|k: int, m: int|
                0 <= k < r.len() && 0 <= m < remaining.len() ==> shown_before(
                    times,
                    r[k] as int,
                    remaining[m] as int,
                ),
        decreases remaining.len(),
    {
        let mut best: usize = 0;
        let mut m: usize = 1;
        while m < remaining.len()
            invariant
                1 <= m <= remaining.len(),
                best < m,
                keys.len() == n,
                times.len() == n,
                forall|k: int| 0 <= k < n ==> keys[k]@ == times[k],
                forall|q: int| 0 <= q < remaining.len() ==> remaining[q] < n,
                forall|a: int, b: int| 0 <= a < b < remaining.len() ==> remaining[a] < remaining[b],
                forall|q: int|
                    0 <= q < m && q != best ==> shown_before(
                        times,
                        remaining[best as int] as int,
                        remaining[q] as int,
                    ),
            decreases remaining.len() - m,
        {
            let x = remaining[m];
            let y = remaining[best];
            let newer = text_lt(&keys[y], &keys[x]) || (!text_lt(&keys[x], &keys[y]) && x < y);
            if newer {
                proof {
                    assert forall|q: int| 0 <= q < m + 1 && q != m implies shown_before(
                        times,
                        x as int,
                        remaining[q] as int,
                    ) by {
                        if q != best {
                            lemma_shown_before_transitive(
                                times,
                                x as int,
                                y as int,
                                remaining[q] as int,
                            );
                        }
                    }
                }
                best = m;
            }
            m = m + 1;
        }
        let ghost before = remaining@;
        let ghost old_r = r@;
        let picked = remaining.remove(best);
        r.push(picked);
        proof {
            assert forall|j: usize| j < n implies #[trigger] r@.contains(j)
                || remaining@.contains(j) by {
                assert(r@.drop_last() =~= old_r);
                if !old_r.contains(j) {
                    assert(before.contains(j));
                    let q = choose|q: int| 0 <= q < before.len() && before[q] == j;
                    if q == best {
                        assert(r@[r.len() - 1] == j);
                    } else if q < best {
                        assert(remaining@[q] == j);
                    } else {
                        assert(remaining@[q - 1] == j);
                    }
                } else {
                    let k = choose|k: int| 0 <= k < old_r.len() && old_r[k] == j;
                    assert(r@[k] == j);
                }
            }
            assert forall|k: int, q: int|
                0 <= k < r.len() && 0 <= q < remaining.len() implies shown_before(
                times,
                r[k] as int,
                remaining[q] as int,
            ) by {
                let q0 = if q < best { q } else { q + 1 };
                assert(remaining@[q] == before[q0]);
            }
        }
    }
    r
}

} // verus!
