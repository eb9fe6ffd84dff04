//! Clean-up of titles and file names: file-name sanitising, removal of
//! "junk" tags from video titles, and output-name templates.

use vstd::prelude::*;
use crate::chars::{
    all_ws, chars_of, collapse_ws, collapse_ws_chars, contains_exec, contains_seq, is_cc, is_control,
    lemma_trim_end_take, lemma_trim_start_skip, lowercase, replace_all, replace_chars, string_from,
    subrange_chars, to_lowercase, trim, trim_by, trim_chars, lemma_trim_ends, lemma_replace_absent,
    lemma_ws_words_shape, lemma_trim_by_all, ws_pred, is_ws,
};

verus! {

// ---------------------------------------------------------------- sanitize

/// Characters that a file name may not hold: the reserved ones of Windows
/// file names, NUL and every control character.
pub open spec fn is_forbidden(c: char) -> bool {
    ||| c == '<'
    ||| c == '>'
    ||| c == ':'
    ||| c == '"'
    ||| c == '/'
    ||| c == '\\'
    ||| c == '|'
    ||| c == '?'
    ||| c == '*'
    ||| c == '\0'
    ||| is_cc(c)
}

/// `s` without its forbidden characters.
pub open spec fn strip_forbidden(s: Seq<char>) -> Seq<char>
    decreases s.len(),
{
    if s.len() == 0 {
        seq![]
    } else if is_forbidden(s.last()) {
        strip_forbidden(s.drop_last())
    } else {
        strip_forbidden(s.drop_last()).push(s.last())
    }
}

/// Bytes that UTF-8 takes to encode `c`.
pub open spec fn utf8_width(c: char) -> nat {
    let v = c as u32;
    if v < 0x80 {
        1
    } else if v < 0x800 {
        2
    } else if v < 0x10000 {
        3
    } else {
        4
    }
}

/// Bytes that UTF-8 takes to encode `s` (what `String::len` returns).
pub open spec fn utf8_len(s: Seq<char>) -> nat
    decreases s.len(),
{
    if s.len() == 0 {
        0
    } else {
        utf8_len(s.drop_last()) + utf8_width(s.last())
    }
}

/// The longest prefix of `s` that fits in `n` bytes of UTF-8.
pub open spec fn byte_prefix(s: Seq<char>, n: nat) -> Seq<char>
    decreases s.len(),
{
    if utf8_len(s) <= n || s.len() == 0 {
        s
    } else {
        byte_prefix(s.drop_last(), n)
    }
}

/// `String::truncate(n)` succeeds on `s`: either `s` fits in `n` bytes or
/// byte `n` falls on a character boundary (else it panics).
pub open spec fn cut_is_clean(s: Seq<char>, n: nat) -> bool {
    utf8_len(s) <= n || utf8_len(byte_prefix(s, n)) == n
}

/// Longest file name kept, in bytes.
pub open spec fn max_name_bytes() -> nat {
    200
}

/// What `sanitize_filename` returns: the name without forbidden characters,
/// cut to 200 bytes, or "download" where nothing but white space is left.
pub open spec fn sanitized(name: Seq<char>) -> Seq<char> {
    let t = byte_prefix(strip_forbidden(name), max_name_bytes());
    if all_ws(t) {
        "download"@
    } else {
        t
    }
}

/// The inputs on which `sanitize_filename` returns: those where the cut at
/// 200 bytes falls between two characters.
pub open spec fn can_sanitize_spec(name: Seq<char>) -> bool {
    cut_is_clean(strip_forbidden(name), max_name_bytes())
}

fn is_forbidden_exec(c: char) -> (r: bool)
    ensures
        r == is_forbidden(c),
{
    c == '<' || c == '>' || c == ':' || c == '"' || c == '/' || c == '\\' || c == '|' || c == '?'
        || c == '*' || c == '\0' || is_control(c)
}

fn utf8_width_exec(c: char) -> (r: usize)
    ensures
        r == utf8_width(c),
        1 <= r <= 4,
{
    let v = c as u32;
    if v < 0x80 {
        1
    } else if v < 0x800 {
        2
    } else if v < 0x10000 {
        3
    } else {
        4
    }
}

pub proof fn lemma_utf8_len_take(s: Seq<char>, a: int, b: int)
    requires
        0 <= a <= b <= s.len(),
    ensures
        utf8_len(s.take(a)) <= utf8_len(s.take(b)),
        b == a + 1 ==> utf8_len(s.take(b)) == utf8_len(s.take(a)) + utf8_width(s[a]),
    decreases b - a,
{
    if a < b {
        let t = s.take(b);
        assert(t.drop_last() =~= s.take(b - 1));
        assert(t.last() == s[b - 1]);
        lemma_utf8_len_take(s, a, b - 1);
    }
}

pub proof fn lemma_byte_prefix_take(s: Seq<char>, n: nat, k: int)
    requires
        0 <= k <= s.len(),
        utf8_len(s.take(k)) <= n,
        k == s.len() || utf8_len(s.take(k + 1)) > n,
    ensures
        byte_prefix(s, n) == s.take(k),
    decreases s.len() - k,
{
    if k == s.len() {
        assert(s.take(k) =~= s);
    } else {
        lemma_utf8_len_take(s, k + 1, s.len() as int);
        assert(s.take(s.len() as int) =~= s);
        let t = s.drop_last();
        assert(t.take(k) =~= s.take(k));
        if k < t.len() {
            assert(t.take(k + 1) =~= s.take(k + 1));
        }
        lemma_byte_prefix_take(t, n, k);
    }
}

/// The longest prefix of `s` that fits in `max_name_bytes()` bytes.
fn byte_prefix_exec(s: &Vec<char>) -> (r: Vec<char>)
    ensures
        r@ == byte_prefix(s@, max_name_bytes()),
{
    let mut k: usize = 0;
    let mut bytes: usize = 0;
    assert(s@.take(0) =~= Seq::<char>::empty());
    while k < s.len() && bytes + utf8_width_exec(s[k]) <= 200
        invariant
            k <= s.len(),
            bytes <= 200,
            bytes == utf8_len(s@.take(k as int)),
        decreases s.len() - k,
    {
        proof {
            lemma_utf8_len_take(s@, k as int, k + 1);
        }
        bytes = bytes + utf8_width_exec(s[k]);
        k = k + 1;
    }
    proof {
        if k < s.len() {
            lemma_utf8_len_take(s@, k as int, k + 1);
        }
        lemma_byte_prefix_take(s@, max_name_bytes(), k as int);
    }
    subrange_chars(s, 0, k)
}

fn strip_forbidden_exec(s: &Vec<char>) -> (r: Vec<char>)
    ensures
        r@ == strip_forbidden(s@),
{
    let mut kept: Vec<char> = Vec::new();
    assert(s@.take(0) =~= Seq::<char>::empty());
    for i in 0..s.len()
        invariant
            kept@ == strip_forbidden(s@.take(i as int)),
    {
        let ghost t = s@.take(i + 1);
        assert(t.drop_last() =~= s@.take(i as int));
        assert(t.last() == s@[i as int]);
        if !is_forbidden_exec(s[i]) {
            kept.push(s[i]);
        }
    }
    assert(s@.take(s.len() as int) =~= s@);
    kept
}

/// Whether `sanitize_filename` can take `name`: false exactly where cutting
/// the cleaned name at 200 bytes would split a character.
pub fn can_sanitize(name: &str) -> (r: bool)
    ensures
        r == can_sanitize_spec(name@),
{
    let s = chars_of(name);
    let kept = strip_forbidden_exec(&s);
    let cut = byte_prefix_exec(&kept);
    let mut bytes: usize = 0;
    let mut i: usize = 0;
    assert(cut@.take(0) =~= Seq::<char>::empty());
    while i < cut.len()
        invariant
            i <= cut.len(),
            cut@ == byte_prefix(kept@, max_name_bytes()),
            bytes == utf8_len(cut@.take(i as int)),
            bytes <= 200,
        decreases cut.len() - i,
    {
        proof {
            lemma_utf8_len_take(cut@, i as int, i + 1);
            lemma_utf8_len_take(cut@, i + 1, cut.len() as int);
            assert(cut@.take(cut.len() as int) =~= cut@);
            lemma_byte_prefix_fits(kept@, max_name_bytes());
        }
        bytes = bytes + utf8_width_exec(cut[i]);
        i = i + 1;
    }
    assert(cut@.take(cut.len() as int) =~= cut@);
    if bytes == 200 {
        return true;
    }
    // the cut is shorter than 200 bytes: clean only when nothing was cut
    proof {
        lemma_byte_prefix_fits(kept@, max_name_bytes());
    }
    cut.len() == kept.len()
}

pub proof fn lemma_byte_prefix_fits(s: Seq<char>, n: nat)
    ensures
        utf8_len(byte_prefix(s, n)) <= n || byte_prefix(s, n).len() == 0,
        byte_prefix(s, n).len() <= s.len(),
        byte_prefix(s, n) == s.take(byte_prefix(s, n).len() as int),
        byte_prefix(s, n).len() == s.len() <==> (utf8_len(s) <= n || s.len() == 0),
    decreases s.len(),
{
    if utf8_len(s) <= n || s.len() == 0 {
        assert(s.take(s.len() as int) =~= s);
    } else {
        lemma_byte_prefix_fits(s.drop_last(), n);
        let r = byte_prefix(s.drop_last(), n);
        assert(s.drop_last().take(r.len() as int) =~= s.take(r.len() as int));
    }
}

/// Turns a title into a file name: drops the characters Windows forbids
/// and all control characters, keeps at most 200 bytes, and falls back to
/// "download" when only white space is left.
pub fn sanitize_filename(name: &str) -> (r: String)
    requires
        can_sanitize_spec(name@),
    ensures
        r@ == sanitized(name@),
{
    let s = chars_of(name);
    let kept = strip_forbidden_exec(&s);
    let t = byte_prefix_exec(&kept);
    let trimmed = trim_chars(&t);
    if trimmed.len() == 0 {
        String::from_str("download")
    } else {
        string_from(&t)
    }
}

} // verus!

verus! {

// ------------------------------------------------------------ clean names

/// The closing bracket that matches an opening one.
pub open spec fn closer(c: char) -> Option<char> {
    if c == '[' {
        Some(']')
    } else if c == '(' {
        Some(')')
    } else if c == '{' {
        Some('}')
    } else {
        None
    }
}

/// The first index at or after `from` that holds `c`.
pub open spec fn find_from(s: Seq<char>, from: int, c: char) -> Option<int>
    decreases s.len() - from,
{
    if from < 0 || from >= s.len() {
        None
    } else if s[from] == c {
        Some(from)
    } else {
        find_from(s, from + 1, c)
    }
}

/// Words that mark a bracketed part of a title as noise.
pub open spec fn junk_word(k: int) -> Seq<char> {
    if k == 0 {
        "official"@
    } else if k == 1 {
        "oficial"@
    } else if k == 2 {
        "video"@
    } else if k == 3 {
        "vídeo"@
    } else if k == 4 {
        "audio"@
    } else if k == 5 {
        "áudio"@
    } else if k == 6 {
        "lyric"@
    } else if k == 7 {
        "letra"@
    } else if k == 8 {
        "lyrics"@
    } else if k == 9 {
        "hd"@
    } else if k == 10 {
        "4k"@
    } else if k == 11 {
        "8k"@
    } else if k == 12 {
        "mv"@
    } else if k == 13 {
        "m/v"@
    } else if k == 14 {
        "clipe"@
    } else if k == 15 {
        "visualizer"@
    } else if k == 16 {
        "remaster"@
    } else if k == 17 {
        "remastered"@
    } else if k == 18 {
        "explicit"@
    } else if k == 19 {
        "full album"@
    } else {
        "hq"@
    }
}

pub open spec fn junk_count() -> int {
    21
}

/// The text between two brackets is noise: its lowercase form contains one
/// of the junk words.
pub open spec fn is_junk(inner: Seq<char>) -> bool {
    exists|k: int| 0 <= k < junk_count() && #[trigger] contains_seq(lowercase(inner), junk_word(k))
}

/// `s` from index `i` on, with every bracketed group `[..]`, `(..)` or `{..}`
/// whose text is noise removed, brackets included. A bracket opens at the
/// first closing bracket of its kind after it.
pub open spec fn strip_tags(s: Seq<char>, i: int) -> Seq<char>
    decreases s.len() - i,
{
    if i < 0 || i >= s.len() {
        seq![]
    } else {
        match closer(s[i]) {
            Some(cl) => match find_from(s, i + 1, cl) {
                Some(j) => if i < j < s.len() && is_junk(s.subrange(i + 1, j)) {
                    strip_tags(s, j + 1)
                } else {
                    seq![s[i]] + strip_tags(s, i + 1)
                },
                None => seq![s[i]] + strip_tags(s, i + 1),
            },
            None => seq![s[i]] + strip_tags(s, i + 1),
        }
    }
}

/// Separators trimmed from the ends of a cleaned title.
pub open spec fn is_sep(c: char) -> bool {
    c == '-' || c == '|' || c == '·' || c == '_'
}

pub open spec fn sep_pred() -> spec_fn(char) -> bool {
    |c: char| is_sep(c)
}

/// What `smart_clean_name` returns for `title`.
pub open spec fn clean_name(title: Seq<char>) -> Seq<char> {
    let a = strip_tags(title, 0);
    let b = replace_all(replace_all(a, " - Topic"@, seq![]), "- Topic"@, seq![]);
    let c = trim(trim_by(trim(collapse_ws(b)), sep_pred()));
    if c.len() == 0 {
        trim(title)
    } else {
        c
    }
}

fn closer_exec(c: char) -> (r: Option<char>)
    ensures
        r == closer(c),
{
    if c == '[' {
        Some(']')
    } else if c == '(' {
        Some(')')
    } else if c == '{' {
        Some('}')
    } else {
        None
    }
}

fn find_from_exec(s: &Vec<char>, from: usize, c: char) -> (r: Option<usize>)
    ensures
        r matches Some(j) ==> find_from(s@, from as int, c) == Some(j as int),
        r is None ==> find_from(s@, from as int, c) is None,
        r matches Some(j) ==> from <= j < s.len() && s@[j as int] == c && forall|k: int|
            from <= k < j ==> s@[k] != c,
        r is None ==> forall|k: int| from <= k < s.len() ==> s@[k] != c,
{
    let mut k = from;
    while k < s.len()
        invariant
            from <= k,
            find_from(s@, from as int, c) == find_from(s@, k as int, c),
            forall|q: int| from <= q < k ==> s@[q] != c,
        decreases s.len() - k,
    {
        if s[k] == c {
            return Some(k);
        }
        k = k + 1;
    }
    None
}

/// `find_from` finds the first occurrence: a found index holds `c` and no
/// index between `from` and it does; when nothing is found, no index from
/// `from` on holds `c`.
pub proof fn find_from_is_first(s: Seq<char>, from: int, c: char)
    requires
        0 <= from,
    ensures
        find_from(s, from, c) matches Some(j) ==> from <= j < s.len() && s[j] == c && forall|k: int|
            from <= k < j ==> s[k] != c,
        find_from(s, from, c) is None ==> forall|k: int| from <= k < s.len() ==> s[k] != c,
    decreases s.len() - from,
{
    if from < s.len() && s[from] != c {
        find_from_is_first(s, from + 1, c);
    }
}

pub proof fn lemma_find_from_bounds(s: Seq<char>, from: int, c: char)
    ensures
        find_from(s, from, c) matches Some(j) ==> from <= j < s.len() && s[j] == c,
    decreases s.len() - from,
{
    if 0 <= from < s.len() && s[from] != c {
        lemma_find_from_bounds(s, from + 1, c);
    }
}

fn junk_word_exec(k: usize) -> (r: &'static str)
    requires
        k < 21,
    ensures
        r@ == junk_word(k as int),
{
    if k == 0 {
        "official"
    } else if k == 1 {
        "oficial"
    } else if k == 2 {
        "video"
    } else if k == 3 {
        "vídeo"
    } else if k == 4 {
        "audio"
    } else if k == 5 {
        "áudio"
    } else if k == 6 {
        "lyric"
    } else if k == 7 {
        "letra"
    } else if k == 8 {
        "lyrics"
    } else if k == 9 {
        "hd"
    } else if k == 10 {
        "4k"
    } else if k == 11 {
        "8k"
    } else if k == 12 {
        "mv"
    } else if k == 13 {
        "m/v"
    } else if k == 14 {
        "clipe"
    } else if k == 15 {
        "visualizer"
    } else if k == 16 {
        "remaster"
    } else if k == 17 {
        "remastered"
    } else if k == 18 {
        "explicit"
    } else if k == 19 {
        "full album"
    } else {
        "hq"
    }
}

fn is_junk_exec(s: &Vec<char>, from: usize, to: usize) -> (r: bool)
    requires
        from <= to <= s.len(),
    ensures
        r == is_junk(s@.subrange(from as int, to as int)),
{
    let inner = subrange_chars(s, from, to);
    let inner_text = string_from(&inner);
    let lower_text = to_lowercase(inner_text.as_str());
    let lower = chars_of(lower_text.as_str());
    let mut k: usize = 0;
    while k < 21
        invariant
            k <= 21,
            lower@ == lowercase(s@.subrange(from as int, to as int)),
            forall|kk: int| 0 <= kk < k ==> !#[trigger] contains_seq(lower@, junk_word(kk)),
        decreases 21 - k,
    {
        let word = chars_of(junk_word_exec(k));
        if contains_exec(&lower, &word) {
            return true;
        }
        k = k + 1;
    }
    false
}

/// `strip_tags` from the start of `s`.
fn strip_tags_exec(s: &Vec<char>) -> (r: Vec<char>)
    ensures
        r@ == strip_tags(s@, 0),
{
    let mut out: Vec<char> = Vec::new();
    let mut i: usize = 0;
    assert(out@ + strip_tags(s@, 0) =~= strip_tags(s@, 0));
    while i < s.len()
        invariant
            i <= s.len(),
            strip_tags(s@, 0) == out@ + strip_tags(s@, i as int),
        decreases s.len() - i,
    {
        if let Some(cl) = closer_exec(s[i]) {
            if i + 1 <= s.len() {
                if let Some(j) = find_from_exec(s, i + 1, cl) {
                    proof {
                        lemma_find_from_bounds(s@, i + 1, cl);
                    }
                    if is_junk_exec(s, i + 1, j) {
                        i = j + 1;
                        continue;
                    }
                }
            }
        }
        proof {
            lemma_find_from_bounds(s@, i + 1, s@[i as int]);
            assert(out@.push(s@[i as int]) + strip_tags(s@, i + 1) =~= out@ + (seq![s@[i as int]]
                + strip_tags(s@, i + 1)));
        }
        out.push(s[i]);
        i = i + 1;
    }
    assert(out@ + Seq::<char>::empty() =~= out@);
    out
}

fn is_sep_exec(c: char) -> (r: bool)
    ensures
        r == is_sep(c),
{
    c == '-' || c == '|' || c == '·' || c == '_'
}

/// `trim_matches` of the separator characters.
fn trim_seps(s: &Vec<char>) -> (r: Vec<char>)
    ensures
        r@ == trim_by(s@, sep_pred()),
{
    let n = s.len();
    let mut a: usize = 0;
    while a < n && is_sep_exec(s[a])
        invariant
            a <= n == s.len(),
            forall|i: int| 0 <= i < a ==> is_sep(#[trigger] s@[i]),
        decreases n - a,
    {
        a = a + 1;
    }
    let mut b: usize = n;
    while b > a && is_sep_exec(s[b - 1])
        invariant
            a <= b <= n == s.len(),
            forall|i: int| b <= i < n ==> is_sep(#[trigger] s@[i]),
        decreases b,
    {
        b = b - 1;
    }
    proof {
        let p = sep_pred();
        assert forall|i: int| 0 <= i < a implies #[trigger] p(s@[i]) by {}
        lemma_trim_start_skip(s@, p, a as int);
        let t = s@.skip(a as int);
        assert forall|i: int| b - a <= i < t.len() implies #[trigger] p(t[i]) by {
            assert(t[i] == s@[a + i]);
        }
        if b > a {
            assert(t[b - a - 1] == s@[b - 1]);
        }
        lemma_trim_end_take(t, p, b - a);
        assert(t.take(b - a) =~= s@.subrange(a as int, b as int));
    }
    subrange_chars(s, a, b)
}

/// Cleans a video title into a name: removes bracketed groups that hold
/// noise words ("official video", "lyrics", "4K", ...), the " - Topic"
/// suffix of channel names, runs of white space, and separators at the
/// ends; gives back the trimmed title when nothing is left.
pub fn smart_clean_name(title: &str) -> (r: String)
    ensures
        r@ == clean_name(title@),
{
    let chars = chars_of(title);
    let stripped = strip_tags_exec(&chars);
    proof {
        reveal_strlit(" - Topic");
        reveal_strlit("- Topic");
    }
    let topic_spaced = chars_of(" - Topic");
    let topic = chars_of("- Topic");
    let nothing: Vec<char> = Vec::new();
    let a = replace_chars(&stripped, &topic_spaced, &nothing);
    let b = replace_chars(&a, &topic, &nothing);
    let c = collapse_ws_chars(&b);
    let d = trim_chars(&c);
    let e = trim_seps(&d);
    let f = trim_chars(&e);
    if f.len() == 0 {
        let t = trim_chars(&chars);
        string_from(&t)
    } else {
        string_from(&f)
    }
}

// ---------------------------------------------------------------- template

/// What `apply_template` returns: the placeholders `%(title)s`,
/// `%(uploader)s` and `%(channel)s` filled in, or the bare title when the
/// result is blank.
pub open spec fn filled_template(template: Seq<char>, title: Seq<char>, channel: Seq<char>) -> Seq<
    char,
> {
    let s = replace_all(
        replace_all(replace_all(template, "%(title)s"@, title), "%(uploader)s"@, channel),
        "%(channel)s"@,
        channel,
    );
    if all_ws(s) {
        title
    } else {
        s
    }
}

/// Fills an output-name template in the placeholder syntax of yt-dlp.
pub fn apply_template(template: &str, title: &str, channel: &str) -> (r: String)
    ensures
        r@ == filled_template(template@, title@, channel@),
{
    proof {
        reveal_strlit("%(title)s");
        reveal_strlit("%(uploader)s");
        reveal_strlit("%(channel)s");
    }
    let t = chars_of(template);
    let title_chars = chars_of(title);
    let channel_chars = chars_of(channel);
    let p_title = chars_of("%(title)s");
    let p_uploader = chars_of("%(uploader)s");
    let p_channel = chars_of("%(channel)s");
    let s1 = replace_chars(&t, &p_title, &title_chars);
    let s2 = replace_chars(&s1, &p_uploader, &channel_chars);
    let s3 = replace_chars(&s2, &p_channel, &channel_chars);
    let trimmed = trim_chars(&s3);
    if trimmed.len() == 0 {
        string_from(&title_chars)
    } else {
        string_from(&s3)
    }
}

} // verus!

verus! {

// -------------------------------------------------------------------- laws

proof fn lemma_strip_forbidden_clean(s: Seq<char>)
    ensures
        forall|i: int|
            0 <= i < strip_forbidden(s).len() ==> !is_forbidden(#[trigger] strip_forbidden(s)[i]),
        (forall|i: int| 0 <= i < s.len() ==> !is_forbidden(#[trigger] s[i])) ==> strip_forbidden(s)
            == s,
    decreases s.len(),
{
    if s.len() > 0 {
        lemma_strip_forbidden_clean(s.drop_last());
        let r = strip_forbidden(s.drop_last());
        if !is_forbidden(s.last()) {
            assert forall|i: int| 0 <= i < r.push(s.last()).len() implies !is_forbidden(
                #[trigger] r.push(s.last())[i],
            ) by {
                if i < r.len() {
                    assert(r.push(s.last())[i] == r[i]);
                }
            }
        }
        if forall|i: int| 0 <= i < s.len() ==> !is_forbidden(#[trigger] s[i]) {
            assert forall|i: int| 0 <= i < s.drop_last().len() implies !is_forbidden(
                #[trigger] s.drop_last()[i],
            ) by {
                assert(s.drop_last()[i] == s[i]);
            }
            assert(!is_forbidden(s[s.len() - 1]));
            assert(s.drop_last().push(s.last()) =~= s);
        }
    }
}

proof fn lemma_utf8_len_bound(s: Seq<char>)
    ensures
        utf8_len(s) <= 4 * s.len(),
    decreases s.len(),
{
    if s.len() > 0 {
        lemma_utf8_len_bound(s.drop_last());
    }
}

/// `sanitize_filename` returns a name with no forbidden character, at most
/// 200 bytes long, and not blank.
pub proof fn sanitize_output_is_safe(name: Seq<char>)
    ensures
        forall|i: int| 0 <= i < sanitized(name).len() ==> !is_forbidden(#[trigger] sanitized(name)[i]),
        utf8_len(sanitized(name)) <= max_name_bytes(),
        !all_ws(sanitized(name)),
{
    let k = strip_forbidden(name);
    let t = byte_prefix(k, max_name_bytes());
    lemma_strip_forbidden_clean(name);
    lemma_byte_prefix_fits(k, max_name_bytes());
    if all_ws(t) {
        reveal_strlit("download");
        let d = "download"@;
        assert(d.len() == 8);
        lemma_utf8_len_bound(d);
        assert(!is_ws(d[0]));
        assert forall|i: int| 0 <= i < d.len() implies !is_forbidden(#[trigger] d[i]) by {
            assert(d[i] == 'd' || d[i] == 'o' || d[i] == 'w' || d[i] == 'n' || d[i] == 'l' || d[i]
                == 'a');
        }
    } else {
        assert forall|i: int| 0 <= i < t.len() implies !is_forbidden(#[trigger] t[i]) by {
            assert(t[i] == k.take(t.len() as int)[i]);
        }
        if t.len() == 0 {
            assert(all_ws(t));
        }
    }
}

/// Sanitising a sanitised name changes nothing.
pub proof fn sanitize_is_idempotent(name: Seq<char>)
    ensures
        can_sanitize_spec(sanitized(name)),
        sanitized(sanitized(name)) == sanitized(name),
{
    let t = sanitized(name);
    sanitize_output_is_safe(name);
    lemma_strip_forbidden_clean(t);
    assert(strip_forbidden(t) == t);
    assert(byte_prefix(t, max_name_bytes()) == t);
}

proof fn lemma_strip_tags_blank(s: Seq<char>, i: int)
    requires
        all_ws(s),
        0 <= i <= s.len(),
    ensures
        strip_tags(s, i) == s.skip(i),
    decreases s.len() - i,
{
    if i < s.len() {
        assert(is_ws(s[i]));
        assert(closer(s[i]) is None);
        lemma_strip_tags_blank(s, i + 1);
        assert(seq![s[i]] + s.skip(i + 1) =~= s.skip(i));
    } else {
        assert(s.skip(i) =~= Seq::<char>::empty());
    }
}

/// `smart_clean_name` gives an empty name exactly when the title is blank.
pub proof fn clean_name_blank_iff(title: Seq<char>)
    ensures
        clean_name(title).len() == 0 <==> all_ws(title),
{
    let a = strip_tags(title, 0);
    let b = replace_all(replace_all(a, " - Topic"@, seq![]), "- Topic"@, seq![]);
    let c = trim(trim_by(trim(collapse_ws(b)), sep_pred()));
    lemma_trim_ends(title);
    if all_ws(title) {
        lemma_strip_tags_blank(title, 0);
        assert(title.skip(0) =~= title);
        reveal_strlit(" - Topic");
        reveal_strlit("- Topic");
        let p1 = " - Topic"@;
        let p2 = "- Topic"@;
        assert(!is_ws(p1[3]));
        assert(!is_ws(p2[2]));
        assert forall|i: int| 0 <= i < a.len() implies a[i] != p1[3] by {
            assert(is_ws(a[i]));
        }
        lemma_replace_absent(a, p1, seq![], 3);
        assert forall|i: int| 0 <= i < a.len() implies a[i] != p2[2] by {
            assert(is_ws(a[i]));
        }
        lemma_replace_absent(a, p2, seq![], 2);
        assert(b == a);
        lemma_ws_words_shape(b);
        assert(collapse_ws(b).len() == 0);
        let e = Seq::<char>::empty();
        assert(collapse_ws(b) =~= e);
        lemma_trim_by_all(e, ws_pred());
        lemma_trim_by_all(e, sep_pred());
        assert(trim(e) == e);
        assert(trim_by(e, sep_pred()) == e);
        assert(c.len() == 0);
    }
}

/// `smart_clean_name` leaves no white space at either end of its result.
pub proof fn clean_name_is_trimmed(title: Seq<char>)
    ensures
        trim(clean_name(title)) == clean_name(title),
{
    let a = strip_tags(title, 0);
    let b = replace_all(replace_all(a, " - Topic"@, seq![]), "- Topic"@, seq![]);
    lemma_trim_ends(trim_by(trim(collapse_ws(b)), sep_pred()));
    lemma_trim_ends(title);
}

/// A template with no `%` that is not blank is used as the name unchanged.
pub proof fn template_without_placeholder_is_kept(
    template: Seq<char>,
    title: Seq<char>,
    channel: Seq<char>,
)
    requires
        forall|i: int| 0 <= i < template.len() ==> template[i] != '%',
        !all_ws(template),
    ensures
        filled_template(template, title, channel) == template,
{
    reveal_strlit("%(title)s");
    reveal_strlit("%(uploader)s");
    reveal_strlit("%(channel)s");
    lemma_replace_absent(template, "%(title)s"@, title, 0);
    lemma_replace_absent(template, "%(uploader)s"@, channel, 0);
    lemma_replace_absent(template, "%(channel)s"@, channel, 0);
}

} // verus!
