//! Character classes and conversions between `str`, `String` and `Vec<char>`.

use vstd::prelude::*;

verus! {

/// Unicode `White_Space`, the class that `char::is_whitespace` and
/// `str::trim` use.
pub open spec fn is_ws(c: char) -> bool {
    let v = c as u32;
    ||| 0x09 <= v <= 0x0d
    ||| v == 0x20
    ||| v == 0x85
    ||| v == 0xa0
    ||| v == 0x1680
    ||| 0x2000 <= v <= 0x200a
    ||| v == 0x2028
    ||| v == 0x2029
    ||| v == 0x202f
    ||| v == 0x205f
    ||| v == 0x3000
}

/// Unicode general category `Cc`, the class that `char::is_control` tests.
pub open spec fn is_cc(c: char) -> bool {
    let v = c as u32;
    v <= 0x1f || (0x7f <= v <= 0x9f)
}

pub fn is_whitespace(c: char) -> (r: bool)
    ensures
        r == is_ws(c),
{
    let v = c as u32;
    (0x09 <= v && v <= 0x0d) || v == 0x20 || v == 0x85 || v == 0xa0 || v == 0x1680 || (0x2000 <= v
        && v <= 0x200a) || v == 0x2028 || v == 0x2029 || v == 0x202f || v == 0x205f || v == 0x3000
}

pub fn is_control(c: char) -> (r: bool)
    ensures
        r == is_cc(c),
{
    let v = c as u32;
    v <= 0x1f || (0x7f <= v && v <= 0x9f)
}

/// The characters of `s`, in order.
pub fn chars_of(s: &str) -> (r: Vec<char>)
    ensures
        r@ == s@,
{
    let mut v: Vec<char> = Vec::new();
    for c in it: s.chars()
        invariant
            v@ == it.seq().take(it.index() as int),
    {
        v.push(c);
    }
    v
}

/// `String::push`: appends one character.
#[verifier::external_body]
pub(crate) fn push_char(s: &mut String, c: char)
    ensures
        final(s)@ == old(s)@.push(c),
{
    s.push(c);
}

/// A `String` holding exactly the characters of `v`.
pub fn string_from(v: &Vec<char>) -> (r: String)
    ensures
        r@ == v@,
{
    let mut s = String::new();
    let mut i: usize = 0;
    while i < v.len()
        invariant
            i <= v.len(),
            s@ == v@.take(i as int),
        decreases v.len() - i,
    {
        push_char(&mut s, v[i]);
        i = i + 1;
        assert(s@ == v@.take(i as int));
    }
    assert(v@.take(v.len() as int) == v@);
    s
}

} // verus!

verus! {

/// Every character of `s` is white space (the empty sequence included).
pub open spec fn all_ws(s: Seq<char>) -> bool {
    forall|i: int| 0 <= i < s.len() ==> #[trigger] is_ws(s[i])
}

/// `s` with the leading characters that satisfy `p` removed.
pub open spec fn trim_start_by(s: Seq<char>, p: spec_fn(char) -> bool) -> Seq<char>
    decreases s.len(),
{
    if s.len() > 0 && p(s[0]) {
        trim_start_by(s.drop_first(), p)
    } else {
        s
    }
}

/// `s` with the trailing characters that satisfy `p` removed.
pub open spec fn trim_end_by(s: Seq<char>, p: spec_fn(char) -> bool) -> Seq<char>
    decreases s.len(),
{
    if s.len() > 0 && p(s.last()) {
        trim_end_by(s.drop_last(), p)
    } else {
        s
    }
}

/// `str::trim_matches` with a character predicate.
pub open spec fn trim_by(s: Seq<char>, p: spec_fn(char) -> bool) -> Seq<char> {
    trim_end_by(trim_start_by(s, p), p)
}

pub open spec fn ws_pred() -> spec_fn(char) -> bool {
    |c: char| is_ws(c)
}

/// `str::trim`: leading and trailing white space removed.
pub open spec fn trim(s: Seq<char>) -> Seq<char> {
    trim_by(s, ws_pred())
}

pub proof fn lemma_trim_start_skip(s: Seq<char>, p: spec_fn(char) -> bool, a: int)
    requires
        0 <= a <= s.len(),
        forall|i: int| 0 <= i < a ==> #[trigger] p(s[i]),
        a == s.len() || !p(s[a]),
    ensures
        trim_start_by(s, p) == s.skip(a),
    decreases a,
{
    if a == 0 {
        assert(s.skip(0) =~= s);
    } else {
        assert(p(s[0]));
        let t = s.drop_first();
        assert forall|i: int| 0 <= i < a - 1 implies #[trigger] p(t[i]) by {
            assert(t[i] == s[i + 1]);
        }
        lemma_trim_start_skip(t, p, a - 1);
        assert(t.skip(a - 1) =~= s.skip(a));
    }
}

pub proof fn lemma_trim_end_take(s: Seq<char>, p: spec_fn(char) -> bool, b: int)
    requires
        0 <= b <= s.len(),
        forall|i: int| b <= i < s.len() ==> #[trigger] p(s[i]),
        b == 0 || !p(s[b - 1]),
    ensures
        trim_end_by(s, p) == s.take(b),
    decreases s.len() - b,
{
    if b == s.len() {
        assert(s.take(b) =~= s);
    } else {
        assert(p(s.last()));
        let t = s.drop_last();
        assert forall|i: int| b <= i < t.len() implies #[trigger] p(t[i]) by {
            assert(t[i] == s[i]);
        }
        lemma_trim_end_take(t, p, b);
        assert(t.take(b) =~= s.take(b));
    }
}

/// The characters of `s` from `from` up to `to`, excluded.
pub fn subrange_chars(s: &Vec<char>, from: usize, to: usize) -> (r: Vec<char>)
    requires
        from <= to <= s.len(),
    ensures
        r@ == s@.subrange(from as int, to as int),
{
    let mut r: Vec<char> = Vec::new();
    let mut i = from;
    while i < to
        invariant
            from <= i <= to <= s.len(),
            r@ == s@.subrange(from as int, i as int),
        decreases to - i,
    {
        r.push(s[i]);
        i = i + 1;
        assert(r@ =~= s@.subrange(from as int, i as int));
    }
    r
}

/// `str::trim` on a sequence of characters.
pub fn trim_chars(s: &Vec<char>) -> (r: Vec<char>)
    ensures
        r@ == trim(s@),
        all_ws(s@) <==> r@.len() == 0,
{
    let n = s.len();
    let mut a: usize = 0;
    while a < n && is_whitespace(s[a])
        invariant
            a <= n == s.len(),
            forall|i: int| 0 <= i < a ==> is_ws(#[trigger] s@[i]),
        decreases n - a,
    {
        a = a + 1;
    }
    let mut b: usize = n;
    while b > a && is_whitespace(s[b - 1])
        invariant
            a <= b <= n == s.len(),
            forall|i: int| b <= i < n ==> is_ws(#[trigger] s@[i]),
        decreases b,
    {
        b = b - 1;
    }
    proof {
        let p = ws_pred();
        assert forall|i: int| 0 <= i < a implies #[trigger] p(s@[i]) by {}
        lemma_trim_start_skip(s@, p, a as int);
        let t = s@.skip(a as int);
        assert forall|i: int| b - a <= i < t.len() implies #[trigger] p(t[i]) by {
            assert(t[i] == s@[a + i]);
        }
        if b > a {
            assert(t[b - a - 1] == s@[b - 1]);
        }
        lemma_trim_end_take(t, p, b - a);
        assert(t.take(b - a) =~= s@.subrange(a as int, b as int));
        if !all_ws(s@) {
            let k = choose|k: int| 0 <= k < s@.len() && !is_ws(s@[k]);
            assert(a <= k);
            assert(k < b);
        }
    }
    subrange_chars(s, a, b)
}

} // verus!

verus! {

/// `pat` occurs in `s` starting at index `i`.
pub open spec fn occurs_at(s: Seq<char>, pat: Seq<char>, i: int) -> bool {
    0 <= i && i + pat.len() <= s.len() && s.subrange(i, i + pat.len()) == pat
}

/// `str::contains` for a string pattern.
pub open spec fn contains_seq(s: Seq<char>, pat: Seq<char>) -> bool {
    exists|i: int| #[trigger] occurs_at(s, pat, i)
}

/// `str::replace`: every occurrence of `pat`, searched from the left and not
/// overlapping, replaced by `rep`.
pub open spec fn replace_all(s: Seq<char>, pat: Seq<char>, rep: Seq<char>) -> Seq<char>
    recommends
        pat.len() > 0,
    decreases s.len(),
{
    if s.len() == 0 {
        seq![]
    } else if pat.len() > 0 && occurs_at(s, pat, 0) {
        rep + replace_all(s.skip(pat.len() as int), pat, rep)
    } else {
        seq![s[0]] + replace_all(s.drop_first(), pat, rep)
    }
}

pub fn occurs_at_exec(s: &Vec<char>, pat: &Vec<char>, i: usize) -> (r: bool)
    ensures
        r == occurs_at(s@, pat@, i as int),
{
    if pat.len() > s.len() || i > s.len() - pat.len() {
        return false;
    }
    let mut k: usize = 0;
    while k < pat.len()
        invariant
            i + pat.len() <= s.len(),
            k <= pat.len(),
            forall|j: int| 0 <= j < k ==> s@[i + j] == pat@[j],
        decreases pat.len() - k,
    {
        if s[i + k] != pat[k] {
            assert(s@.subrange(i as int, i + pat.len())[k as int] != pat@[k as int]);
            return false;
        }
        k = k + 1;
    }
    assert(s@.subrange(i as int, i + pat.len()) =~= pat@);
    true
}

pub fn contains_exec(s: &Vec<char>, pat: &Vec<char>) -> (r: bool)
    ensures
        r == contains_seq(s@, pat@),
{
    if pat.len() > s.len() {
        assert(forall|i: int| !#[trigger] occurs_at(s@, pat@, i));
        return false;
    }
    if pat.len() == 0 {
        assert(s@.subrange(0, 0) =~= pat@);
        assert(occurs_at(s@, pat@, 0));
        return true;
    }
    let last = s.len() - pat.len();
    let mut i: usize = 0;
    while i <= last
        invariant
            last + pat.len() == s.len(),
            pat.len() > 0,
            i <= last + 1,
            forall|j: int| 0 <= j < i ==> !#[trigger] occurs_at(s@, pat@, j),
        decreases last + 1 - i,
    {
        if occurs_at_exec(s, pat, i) {
            return true;
        }
        i = i + 1;
    }
    assert forall|j: int| !#[trigger] occurs_at(s@, pat@, j) by {
        if 0 <= j < i {
        }
    }
    false
}

/// Appends the characters of `t` to `out`.
pub fn extend_chars(out: &mut Vec<char>, t: &Vec<char>)
    ensures
        final(out)@ == old(out)@ + t@,
{
    let mut i: usize = 0;
    while i < t.len()
        invariant
            i <= t.len(),
            out@ == old(out)@ + t@.take(i as int),
        decreases t.len() - i,
    {
        out.push(t[i]);
        i = i + 1;
        assert(out@ =~= old(out)@ + t@.take(i as int));
    }
    assert(t@.take(t.len() as int) =~= t@);
}

pub proof fn lemma_replace_step_match(s: Seq<char>, pat: Seq<char>, rep: Seq<char>, i: int)
    requires
        pat.len() > 0,
        occurs_at(s, pat, i),
    ensures
        replace_all(s.skip(i), pat, rep) == rep + replace_all(s.skip(i + pat.len()), pat, rep),
{
    let t = s.skip(i);
    assert(t.subrange(0, pat.len() as int) =~= s.subrange(i, i + pat.len()));
    assert(occurs_at(t, pat, 0));
    assert(t.skip(pat.len() as int) =~= s.skip(i + pat.len()));
}

pub proof fn lemma_replace_step_other(s: Seq<char>, pat: Seq<char>, rep: Seq<char>, i: int)
    requires
        pat.len() > 0,
        0 <= i < s.len(),
        !occurs_at(s, pat, i),
    ensures
        replace_all(s.skip(i), pat, rep) == seq![s[i]] + replace_all(s.skip(i + 1), pat, rep),
{
    let t = s.skip(i);
    if occurs_at(t, pat, 0) {
        assert(t.subrange(0, pat.len() as int) =~= s.subrange(i, i + pat.len()));
    }
    assert(t.drop_first() =~= s.skip(i + 1));
}

/// `str::replace` on sequences of characters, for a pattern that is not empty.
pub fn replace_chars(s: &Vec<char>, pat: &Vec<char>, rep: &Vec<char>) -> (r: Vec<char>)
    requires
        pat.len() > 0,
    ensures
        r@ == replace_all(s@, pat@, rep@),
{
    let mut out: Vec<char> = Vec::new();
    let mut i: usize = 0;
    assert(s@.skip(0) =~= s@);
    assert(out@ + replace_all(s@, pat@, rep@) =~= replace_all(s@, pat@, rep@));
    while i < s.len()
        invariant
            pat.len() > 0,
            i <= s.len(),
            replace_all(s@, pat@, rep@) == out@ + replace_all(s@.skip(i as int), pat@, rep@),
        decreases s.len() - i,
    {
        if occurs_at_exec(s, pat, i) {
            proof {
                lemma_replace_step_match(s@, pat@, rep@, i as int);
            }
            extend_chars(&mut out, rep);
            i = i + pat.len();
        } else {
            proof {
                lemma_replace_step_other(s@, pat@, rep@, i as int);
            }
            out.push(s[i]);
            i = i + 1;
        }
    }
    assert(s@.skip(s.len() as int) =~= Seq::<char>::empty());
    assert(out@ + Seq::<char>::empty() =~= out@);
    out
}

} // verus!

verus! {

/// The maximal runs of non-white-space characters of `s`, in order: what
/// `str::split_whitespace` yields.
pub open spec fn ws_words(s: Seq<char>) -> Seq<Seq<char>>
    decreases s.len(),
{
    if s.len() == 0 {
        seq![]
    } else {
        let w = ws_words(s.drop_last());
        let c = s.last();
        if is_ws(c) {
            w
        } else if s.len() >= 2 && !is_ws(s[s.len() - 2]) {
            w.update(w.len() - 1, w.last().push(c))
        } else {
            w.push(seq![c])
        }
    }
}

/// `words` joined with `sep` between each two neighbours (`slice::join`).
pub open spec fn join_with(words: Seq<Seq<char>>, sep: Seq<char>) -> Seq<char>
    decreases words.len(),
{
    if words.len() == 0 {
        seq![]
    } else if words.len() == 1 {
        words[0]
    } else {
        join_with(words.drop_last(), sep) + sep + words.last()
    }
}

/// `split_whitespace().collect::<Vec<_>>().join(" ")`.
pub open spec fn collapse_ws(s: Seq<char>) -> Seq<char> {
    join_with(ws_words(s), seq![' '])
}

pub proof fn lemma_ws_words_shape(s: Seq<char>)
    ensures
        forall|k: int| 0 <= k < ws_words(s).len() ==> (#[trigger] ws_words(s)[k]).len() > 0,
        s.len() > 0 && !is_ws(s.last()) ==> ws_words(s).len() > 0,
        all_ws(s) ==> ws_words(s).len() == 0,
    decreases s.len(),
{
    if s.len() > 0 {
        lemma_ws_words_shape(s.drop_last());
        if all_ws(s) {
            assert(is_ws(s.last()));
            assert(all_ws(s.drop_last())) by {
                assert forall|i: int| 0 <= i < s.drop_last().len() implies #[trigger] is_ws(
                    s.drop_last()[i],
                ) by {
                    assert(s.drop_last()[i] == s[i]);
                }
            }
        }
        if s.len() >= 2 && !is_ws(s[s.len() - 2]) {
            assert(s.drop_last().last() == s[s.len() - 2]);
        }
    }
}

/// `split_whitespace` followed by `join(" ")`.
pub fn collapse_ws_chars(s: &Vec<char>) -> (r: Vec<char>)
    ensures
        r@ == collapse_ws(s@),
{
    let mut out: Vec<char> = Vec::new();
    let mut i: usize = 0;
    let ghost sp = seq![' '];
    assert(s@.take(0) =~= Seq::<char>::empty());
    while i < s.len()
        invariant
            i <= s.len(),
            sp == seq![' '],
            out@ == join_with(ws_words(s@.take(i as int)), sp),
            out@.len() > 0 <==> ws_words(s@.take(i as int)).len() > 0,
            forall|k: int|
                0 <= k < ws_words(s@.take(i as int)).len() ==> (#[trigger] ws_words(
                    s@.take(i as int),
                )[k]).len() > 0,
        decreases s.len() - i,
    {
        let c = s[i];
        let ghost before = s@.take(i as int);
        let ghost t = s@.take(i + 1);
        let ghost w = ws_words(before);
        assert(t.drop_last() =~= before);
        assert(t.last() == c);
        if is_whitespace(c) {
            assert(ws_words(t) == w);
        } else if i > 0 && !is_whitespace(s[i - 1]) {
            proof {
                assert(t[t.len() - 2] == s@[i - 1]);
                assert(before.last() == s@[i - 1]);
                lemma_ws_words_shape(before);
                let nw = w.update(w.len() - 1, w.last().push(c));
                assert(ws_words(t) == nw);
                if w.len() == 1 {
                    assert(join_with(nw, sp) == nw[0]);
                } else {
                    assert(nw.drop_last() =~= w.drop_last());
                    assert(nw.last() == w.last().push(c));
                    assert(join_with(nw, sp) =~= join_with(w, sp).push(c));
                }
                assert(join_with(nw, sp) =~= out@.push(c));
            }
            out.push(c);
            proof {
                lemma_ws_words_shape(t);
            }
        } else {
            proof {
                if i > 0 {
                    assert(t[t.len() - 2] == s@[i - 1]);
                }
                let nw = w.push(seq![c]);
                assert(ws_words(t) == nw);
                assert(nw.drop_last() =~= w);
                assert(nw.last() == seq![c]);
            }
            if out.len() > 0 {
                out.push(' ');
            }
            out.push(c);
            proof {
                let nw = w.push(seq![c]);
                if w.len() == 0 {
                    assert(out@ =~= seq![c]);
                } else {
                    assert(join_with(nw, sp) =~= join_with(w, sp) + sp + seq![c]);
                    assert(out@ =~= join_with(w, sp) + sp + seq![c]);
                }
                lemma_ws_words_shape(t);
            }
        }
        i = i + 1;
    }
    assert(s@.take(s.len() as int) =~= s@);
    out
}

/// The decimal digit `d`, for `d < 10`.
pub open spec fn digit_char(d: nat) -> char {
    if d == 0 {
        '0'
    } else if d == 1 {
        '1'
    } else if d == 2 {
        '2'
    } else if d == 3 {
        '3'
    } else if d == 4 {
        '4'
    } else if d == 5 {
        '5'
    } else if d == 6 {
        '6'
    } else if d == 7 {
        '7'
    } else if d == 8 {
        '8'
    } else {
        '9'
    }
}

/// The decimal notation of `n`, as `Display` for integers writes it.
pub open spec fn decimal(n: nat) -> Seq<char>
    decreases n,
{
    if n < 10 {
        seq![digit_char(n)]
    } else {
        decimal(n / 10).push(digit_char(n % 10))
    }
}

fn digit(d: u64) -> (c: char)
    requires
        d < 10,
    ensures
        c == digit_char(d as nat),
{
    if d == 0 {
        '0'
    } else if d == 1 {
        '1'
    } else if d == 2 {
        '2'
    } else if d == 3 {
        '3'
    } else if d == 4 {
        '4'
    } else if d == 5 {
        '5'
    } else if d == 6 {
        '6'
    } else if d == 7 {
        '7'
    } else if d == 8 {
        '8'
    } else {
        '9'
    }
}

/// Appends the decimal notation of `n` to `out`.
pub fn push_decimal(out: &mut Vec<char>, n: u64)
    ensures
        final(out)@ == old(out)@ + decimal(n as nat),
    decreases n,
{
    if n >= 10 {
        push_decimal(out, n / 10);
    }
    out.push(digit(n % 10));
    assert(final(out)@ =~= old(out)@ + decimal(n as nat));
}

/// What `str::to_lowercase` returns for a string, by Unicode's case mapping.
pub uninterp spec fn lowercase(s: Seq<char>) -> Seq<char>;

/// `str::to_lowercase`: the lowercase mapping of every character of `s`,
/// as the standard library computes it from the Unicode tables. The
/// contract names the result and claims only that it depends on the
/// characters of `s` alone.
#[verifier::external_body]
pub(crate) fn to_lowercase(s: &str) -> (r: String)
    ensures
        r@ == lowercase(s@),
{
    s.to_lowercase()
}

} // verus!

verus! {

/// `str::trim` leaves no white space at either end.
pub proof fn lemma_trim_ends(s: Seq<char>)
    ensures
        trim(s).len() == 0 || (!is_ws(trim(s)[0]) && !is_ws(trim(s).last())),
        trim(trim(s)) == trim(s),
        all_ws(s) <==> trim(s).len() == 0,
{
    lemma_trim_by_ends(s, ws_pred());
    let t = trim(s);
    if t.len() > 0 {
        let p = ws_pred();
        assert(!p(t[0]));
        assert(trim_start_by(t, p) == t);
        assert(!p(t.last()));
        assert(trim_end_by(t, p) == t);
    }
    if !all_ws(s) {
        let k = choose|k: int| 0 <= k < s.len() && !is_ws(s[k]);
        lemma_trim_by_keeps(s, ws_pred(), k);
    } else {
        lemma_trim_by_all(s, ws_pred());
    }
}

pub proof fn lemma_trim_start_ends(s: Seq<char>, p: spec_fn(char) -> bool)
    ensures
        trim_start_by(s, p).len() == 0 || !p(trim_start_by(s, p)[0]),
        trim_start_by(s, p).len() <= s.len(),
        s.len() > 0 && !p(s[0]) ==> trim_start_by(s, p) == s,
    decreases s.len(),
{
    if s.len() > 0 && p(s[0]) {
        lemma_trim_start_ends(s.drop_first(), p);
    }
}

pub proof fn lemma_trim_end_ends(s: Seq<char>, p: spec_fn(char) -> bool)
    ensures
        trim_end_by(s, p).len() == 0 || !p(trim_end_by(s, p).last()),
        trim_end_by(s, p).len() <= s.len(),
        trim_end_by(s, p) == s.take(trim_end_by(s, p).len() as int),
    decreases s.len(),
{
    if s.len() > 0 && p(s.last()) {
        lemma_trim_end_ends(s.drop_last(), p);
        let r = trim_end_by(s.drop_last(), p);
        assert(s.drop_last().take(r.len() as int) =~= s.take(r.len() as int));
    } else {
        assert(s.take(s.len() as int) =~= s);
    }
}

pub proof fn lemma_trim_by_ends(s: Seq<char>, p: spec_fn(char) -> bool)
    ensures
        trim_by(s, p).len() == 0 || (!p(trim_by(s, p)[0]) && !p(trim_by(s, p).last())),
{
    let a = trim_start_by(s, p);
    lemma_trim_start_ends(s, p);
    lemma_trim_end_ends(a, p);
    let b = trim_end_by(a, p);
    if b.len() > 0 {
        assert(b[0] == a.take(b.len() as int)[0]);
    }
}

/// A character that fails `p` keeps the trimmed result non-empty.
pub proof fn lemma_trim_by_keeps(s: Seq<char>, p: spec_fn(char) -> bool, k: int)
    requires
        0 <= k < s.len(),
        !p(s[k]),
    ensures
        trim_by(s, p).len() > 0,
    decreases s.len(),
{
    lemma_trim_start_keeps(s, p, k);
}

proof fn lemma_trim_start_keeps(s: Seq<char>, p: spec_fn(char) -> bool, k: int)
    requires
        0 <= k < s.len(),
        !p(s[k]),
    ensures
        trim_by(s, p).len() > 0,
    decreases s.len(),
{
    if p(s[0]) {
        assert(s.drop_first()[k - 1] == s[k]);
        lemma_trim_start_keeps(s.drop_first(), p, k - 1);
        assert(trim_start_by(s, p) == trim_start_by(s.drop_first(), p));
    } else {
        assert(trim_start_by(s, p) == s);
        lemma_trim_end_keeps(s, p, k);
    }
}

proof fn lemma_trim_end_keeps(s: Seq<char>, p: spec_fn(char) -> bool, k: int)
    requires
        0 <= k < s.len(),
        !p(s[k]),
    ensures
        trim_end_by(s, p).len() > 0,
    decreases s.len(),
{
    if p(s.last()) {
        assert(k < s.len() - 1);
        assert(s.drop_last()[k] == s[k]);
        lemma_trim_end_keeps(s.drop_last(), p, k);
    }
}

/// When every character satisfies `p`, trimming leaves nothing.
pub proof fn lemma_trim_by_all(s: Seq<char>, p: spec_fn(char) -> bool)
    requires
        forall|i: int| 0 <= i < s.len() ==> #[trigger] p(s[i]),
    ensures
        trim_by(s, p).len() == 0,
    decreases s.len(),
{
    if s.len() > 0 {
        let t = s.drop_first();
        assert forall|i: int| 0 <= i < t.len() implies #[trigger] p(t[i]) by {
            assert(t[i] == s[i + 1]);
        }
        lemma_trim_by_all(t, p);
        assert(trim_start_by(s, p) == trim_start_by(t, p));
    }
}

/// Replacing a pattern that cannot occur leaves the text unchanged.
pub proof fn lemma_replace_absent(s: Seq<char>, pat: Seq<char>, rep: Seq<char>, j: int)
    requires
        0 <= j < pat.len(),
        forall|i: int| 0 <= i < s.len() ==> s[i] != pat[j],
    ensures
        replace_all(s, pat, rep) == s,
    decreases s.len(),
{
    if s.len() > 0 {
        if occurs_at(s, pat, 0) {
            assert(s.subrange(0, pat.len() as int)[j] == s[j]);
        }
        let t = s.drop_first();
        assert forall|i: int| 0 <= i < t.len() implies t[i] != pat[j] by {
            assert(t[i] == s[i + 1]);
        }
        lemma_replace_absent(t, pat, rep, j);
        assert(seq![s[0]] + t =~= s);
    }
}

} // verus!

verus! {

/// The pieces of `s` between occurrences of `sep`: what `str::split` with a
/// character pattern yields (one more piece than there are separators).
pub open spec fn split_char(s: Seq<char>, sep: char) -> Seq<Seq<char>>
    decreases s.len(),
{
    if s.len() == 0 {
        seq![seq![]]
    } else {
        let w = split_char(s.drop_last(), sep);
        if s.last() == sep {
            w.push(seq![])
        } else {
            w.update(w.len() - 1, w.last().push(s.last()))
        }
    }
}

pub proof fn lemma_split_char_len(s: Seq<char>, sep: char)
    ensures
        split_char(s, sep).len() >= 1,
    decreases s.len(),
{
    if s.len() > 0 {
        lemma_split_char_len(s.drop_last(), sep);
    }
}

/// The `Vec<char>` values of `v`, seen as sequences.
pub open spec fn views(v: Seq<Vec<char>>) -> Seq<Seq<char>> {
    v.map_values(|x: Vec<char>| x@)
}

/// `str::split` on one separator character.
pub fn split_char_exec(s: &Vec<char>, sep: char) -> (r: Vec<Vec<char>>)
    ensures
        views(r@) == split_char(s@, sep),
{
    let mut done: Vec<Vec<char>> = Vec::new();
    let mut cur: Vec<char> = Vec::new();
    assert(s@.take(0) =~= Seq::<char>::empty());
    assert(views(done@).push(cur@) =~= split_char(s@.take(0), sep));
    let mut i: usize = 0;
    while i < s.len()
        invariant
            i <= s.len(),
            views(done@).push(cur@) == split_char(s@.take(i as int), sep),
        decreases s.len() - i,
    {
        let ghost t = s@.take(i + 1);
        assert(t.drop_last() =~= s@.take(i as int));
        assert(t.last() == s@[i as int]);
        let ghost w = split_char(s@.take(i as int), sep);
        proof {
            lemma_split_char_len(s@.take(i as int), sep);
        }
        if s[i] == sep {
            let finished = cur;
            done.push(finished);
            cur = Vec::new();
            assert(views(done@) =~= w);
        } else {
            cur.push(s[i]);
            assert(views(done@).push(cur@) =~= w.update(w.len() - 1, w.last().push(s@[i as int])));
        }
        i = i + 1;
    }
    assert(s@.take(s.len() as int) =~= s@);
    done.push(cur);
    assert(views(done@) =~= split_char(s@, sep));
    done
}

/// `str::trim_end`: trailing white space removed.
pub open spec fn trim_end(s: Seq<char>) -> Seq<char> {
    trim_end_by(s, ws_pred())
}

pub fn trim_end_chars(s: &Vec<char>) -> (r: Vec<char>)
    ensures
        r@ == trim_end(s@),
{
    let n = s.len();
    let mut b: usize = n;
    while b > 0 && is_whitespace(s[b - 1])
        invariant
            b <= n == s.len(),
            forall|i: int| b <= i < n ==> is_ws(#[trigger] s@[i]),
        decreases b,
    {
        b = b - 1;
    }
    proof {
        let p = ws_pred();
        assert forall|i: int| b <= i < s@.len() implies #[trigger] p(s@[i]) by {}
        lemma_trim_end_take(s@, p, b as int);
    }
    subrange_chars(s, 0, b)
}

/// The `String` values of `v`, seen as sequences.
pub open spec fn string_views(v: Seq<String>) -> Seq<Seq<char>> {
    v.map_values(|x: String| x@)
}

/// A `String` for each sequence of characters in `v`.
pub fn strings_from(v: &Vec<Vec<char>>) -> (r: Vec<String>)
    ensures
        string_views(r@) == views(v@),
{
    let mut r: Vec<String> = Vec::new();
    let mut i: usize = 0;
    while i < v.len()
        invariant
            i <= v.len(),
            r@.len() == i,
            string_views(r@) == views(v@).take(i as int),
        decreases v.len() - i,
    {
        let s = string_from(&v[i]);
        let ghost before = r@;
        r.push(s);
        proof {
            assert(r@ == before.push(s));
            assert forall|j: int| 0 <= j < i + 1 implies #[trigger] string_views(r@)[j] == views(
                v@,
            ).take(i + 1)[j] by {
                if j == i {
                    assert(r@[j] == s);
                } else {
                    assert(r@[j] == before[j]);
                    assert(string_views(before)[j] == views(v@).take(i as int)[j]);
                }
            }
        }
        i = i + 1;
        assert(string_views(r@) =~= views(v@).take(i as int));
    }
    assert(views(v@).take(v.len() as int) =~= views(v@));
    r
}

} // verus!

verus! {

/// `s` holds exactly the characters of `lit`.
pub fn equals_literal(s: &Vec<char>, lit: &str) -> (r: bool)
    ensures
        r == (s@ == lit@),
{
    let t = chars_of(lit);
    if s.len() != t.len() {
        return false;
    }
    let mut i: usize = 0;
    while i < s.len()
        invariant
            s.len() == t.len(),
            t@ == lit@,
            i <= s.len(),
            forall|j: int| 0 <= j < i ==> s@[j] == t@[j],
        decreases s.len() - i,
    {
        if s[i] != t[i] {
            return false;
        }
        i = i + 1;
    }
    assert(s@ =~= t@);
    true
}

/// `a` and `b` hold the same characters.
pub fn str_equals(a: &str, b: &str) -> (r: bool)
    ensures
        r == (a@ == b@),
{
    let chars = chars_of(a);
    equals_literal(&chars, b)
}

/// Appends the decimal notation of `n` to `s`.
pub fn append_decimal(s: &mut String, n: u64)
    ensures
        final(s)@ == old(s)@ + decimal(n as nat),
{
    let mut digits: Vec<char> = Vec::new();
    push_decimal(&mut digits, n);
    assert(digits@ =~= decimal(n as nat));
    let text = string_from(&digits);
    s.append(text.as_str());
}

} // verus!
