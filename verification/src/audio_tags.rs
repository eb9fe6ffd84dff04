//! Audio tags as the tag editor shows them, and the edits that saving them
//! makes to a file's tag. Reading and writing the files is left to the
//! caller (with `lofty`); this module decides what is shown and what is
//! written.

use vstd::prelude::*;
use crate::chars::{
    all_ws, chars_of, decimal, digit_char, is_ws, push_decimal, string_from, trim, trim_chars,
    trim_end_by, trim_start_by, ws_pred,
};

verus! {

/// The tag fields the editor shows, as text.
#[derive(Clone, Debug)]
pub struct AudioTags {
    pub title: String,
    pub artist: String,
    pub album: String,
    pub year: String,
    pub genre: String,
    pub track: String,
    pub bpm: String,
    pub key: String,
}

impl AudioTags {
    /// All fields empty.
    pub open spec fn is_empty_tags(&self) -> bool {
        &&& self.title@.len() == 0
        &&& self.artist@.len() == 0
        &&& self.album@.len() == 0
        &&& self.year@.len() == 0
        &&& self.genre@.len() == 0
        &&& self.track@.len() == 0
        &&& self.bpm@.len() == 0
        &&& self.key@.len() == 0
    }
}

impl Default for AudioTags {
    fn default() -> (r: AudioTags)
        ensures
            r.is_empty_tags(),
    {
        AudioTags {
            title: String::new(),
            artist: String::new(),
            album: String::new(),
            year: String::new(),
            genre: String::new(),
            track: String::new(),
            bpm: String::new(),
            key: String::new(),
        }
    }
}

/// What a file's main tag holds, item by item, as the tag library reports
/// it (`None` where the item is missing).
#[derive(Clone, Debug)]
pub struct TagFields {
    pub title: Option<String>,
    pub artist: Option<String>,
    pub album: Option<String>,
    pub genre: Option<String>,
    pub year: Option<String>,
    pub recording_date: Option<String>,
    pub track: Option<u32>,
    pub integer_bpm: Option<String>,
    pub bpm: Option<String>,
    pub initial_key: Option<String>,
}

/// The text of an optional item, empty when missing.
pub open spec fn text_or_empty(o: Option<String>) -> Seq<char> {
    match o {
        Some(s) => s@,
        None => seq![],
    }
}

/// The first item present of two, as text.
pub open spec fn first_text(a: Option<String>, b: Option<String>) -> Seq<char> {
    match a {
        Some(s) => s@,
        None => text_or_empty(b),
    }
}

/// What the editor shows for a file: the items of its main tag (or of its
/// first tag), the year falling back on the recording date and the BPM on
/// the non-integer BPM item; all empty when the file has no readable tag.
pub open spec fn shown_tags(fields: Option<TagFields>, t: AudioTags) -> bool {
    match fields {
        None => t.is_empty_tags(),
        Some(f) => {
            &&& t.title@ == text_or_empty(f.title)
            &&& t.artist@ == text_or_empty(f.artist)
            &&& t.album@ == text_or_empty(f.album)
            &&& t.year@ == first_text(f.year, f.recording_date)
            &&& t.genre@ == text_or_empty(f.genre)
            &&& t.track@ == match f.track {
                Some(n) => decimal(n as nat),
                None => seq![],
            }
            &&& t.bpm@ == first_text(f.integer_bpm, f.bpm)
            &&& t.key@ == text_or_empty(f.initial_key)
        },
    }
}

fn text_of(o: &Option<String>) -> (r: String)
    ensures
        r@ == text_or_empty(*o),
{
    match o {
        Some(s) => s.clone(),
        None => String::new(),
    }
}

fn first_of(a: &Option<String>, b: &Option<String>) -> (r: String)
    ensures
        r@ == first_text(*a, *b),
{
    match a {
        Some(s) => s.clone(),
        None => text_of(b),
    }
}

/// The tags the editor shows for a file whose main tag holds `fields`
/// (`None` when the file could not be read or has no tag).
pub fn audio_tags_from_fields(fields: &Option<TagFields>) -> (r: AudioTags)
    ensures
        shown_tags(*fields, r),
{
    match fields {
        None => AudioTags::default(),
        Some(f) => {
            let track = match f.track {
                Some(n) => {
                    let mut digits: Vec<char> = Vec::new();
                    push_decimal(&mut digits, n as u64);
                    assert(digits@ =~= decimal(n as nat));
                    string_from(&digits)
                },
                None => String::new(),
            };
            AudioTags {
                title: text_of(&f.title),
                artist: text_of(&f.artist),
                album: text_of(&f.album),
                year: first_of(&f.year, &f.recording_date),
                genre: text_of(&f.genre),
                track,
                bpm: first_of(&f.integer_bpm, &f.bpm),
                key: text_of(&f.initial_key),
            }
        },
    }
}

} // verus!

verus! {

/// The value of a run of ASCII decimal digits.
pub open spec fn digits_value(s: Seq<char>) -> nat
    decreases s.len(),
{
    if s.len() == 0 {
        0
    } else {
        digits_value(s.drop_last()) * 10 + ((s.last() as u32) - ('0' as u32)) as nat
    }
}

pub open spec fn is_digit(c: char) -> bool {
    '0' <= c <= '9'
}

/// Every character is an ASCII decimal digit.
pub open spec fn all_digits(d: Seq<char>) -> bool {
    forall|i: int| 0 <= i < d.len() ==> #[trigger] is_digit(d[i])
}

/// What `str::parse::<u32>` gives: an optional `+` followed by one or more
/// ASCII digits whose value fits in a `u32`.
pub open spec fn parsed_u32(s: Seq<char>) -> Option<u32> {
    let d = if s.len() > 0 && s[0] == '+' {
        s.drop_first()
    } else {
        s
    };
    if d.len() > 0 && all_digits(d) && digits_value(d) <= u32::MAX {
        Some(digits_value(d) as u32)
    } else {
        None
    }
}

proof fn lemma_digits_value_prefix(s: Seq<char>, k: int)
    requires
        0 <= k <= s.len(),
    ensures
        digits_value(s.take(k)) <= digits_value(s),
    decreases s.len() - k,
{
    if k < s.len() {
        let d = s.drop_last();
        assert(d.take(k) =~= s.take(k));
        lemma_digits_value_prefix(d, k);
    } else {
        assert(s.take(k) =~= s);
    }
}

proof fn lemma_parsed_none(s: Seq<char>, d: Seq<char>, j: int)
    requires
        d == (if s.len() > 0 && s[0] == '+' {
            s.drop_first()
        } else {
            s
        }),
        0 <= j < d.len(),
        !is_digit(d[j]),
    ensures
        parsed_u32(s) is None,
{
    assert(!all_digits(d));
}

proof fn lemma_parsed_large(s: Seq<char>, d: Seq<char>)
    requires
        d == (if s.len() > 0 && s[0] == '+' {
            s.drop_first()
        } else {
            s
        }),
        digits_value(d) > u32::MAX,
    ensures
        parsed_u32(s) is None,
{
}

/// `str::parse::<u32>`.
pub fn parse_u32(s: &Vec<char>) -> (r: Option<u32>)
    ensures
        r == parsed_u32(s@),
{
    let start: usize = if s.len() > 0 && s[0] == '+' {
        1
    } else {
        0
    };
    let ghost d = if s@.len() > 0 && s@[0] == '+' {
        s@.drop_first()
    } else {
        s@
    };
    assert(d =~= s@.skip(start as int));
    if start >= s.len() {
        return None;
    }
    let mut acc: u64 = 0;
    let mut i: usize = start;
    assert(d.take(0) =~= Seq::<char>::empty());
    while i < s.len()
        invariant
            start <= i <= s.len(),
            d == s@.skip(start as int),
            d == (if s@.len() > 0 && s@[0] == '+' {
                s@.drop_first()
            } else {
                s@
            }),
            forall|j: int| 0 <= j < i - start ==> #[trigger] is_digit(d[j]),
            acc == digits_value(d.take(i - start)),
            acc <= u32::MAX,
        decreases s.len() - i,
    {
        let c = s[i];
        assert(d[i - start] == c);
        if !('0' <= c && c <= '9') {
            assert(!is_digit(d[i - start]));
            proof {
                lemma_parsed_none(s@, d, (i - start) as int);
            }
            return None;
        }
        let ghost t = d.take(i - start + 1);
        assert(t.drop_last() =~= d.take(i - start));
        assert(t.last() == c);
        acc = acc * 10 + ((c as u32) - ('0' as u32)) as u64;
        assert(acc == digits_value(t));
        if acc > 0xffff_ffff {
            proof {
                assert forall|j: int| 0 <= j < i - start + 1 implies #[trigger] is_digit(d[j]) by {}
                lemma_digits_value_prefix(d, i - start + 1);
                lemma_parsed_large(s@, d);
            }
            return None;
        }
        i = i + 1;
    }
    assert(d.take(i - start) =~= d);
    Some(acc as u32)
}

/// What saving does to a text item: set it to a value, or remove it.
#[derive(Clone, Debug)]
pub enum TextEdit {
    Write(String),
    Remove,
}

/// The edits that saving the editor's fields makes to a file's main tag
/// (created when missing). `None` leaves an item as it is.
#[derive(Clone, Debug)]
pub struct TagUpdate {
    pub title: TextEdit,
    pub artist: TextEdit,
    pub album: TextEdit,
    pub genre: TextEdit,
    pub year: Option<String>,
    pub track: Option<u32>,
    pub bpm: Option<String>,
    pub key: Option<String>,
}

/// A blank field removes the item, another sets it to the text as typed.
pub open spec fn set_or_remove(field: Seq<char>, e: TextEdit) -> bool {
    if all_ws(field) {
        e is Remove
    } else {
        e matches TextEdit::Write(v) && v@ == field
    }
}

/// A blank field leaves the item alone, another writes the trimmed text.
pub open spec fn write_if_filled(field: Seq<char>, o: Option<String>) -> bool {
    if all_ws(field) {
        o is None
    } else {
        o matches Some(v) && v@ == trim(field)
    }
}

/// The edits `tag_update` plans for the editor's fields `t`.
pub open spec fn planned_update(t: AudioTags, u: TagUpdate) -> bool {
    &&& set_or_remove(t.title@, u.title)
    &&& set_or_remove(t.artist@, u.artist)
    &&& set_or_remove(t.album@, u.album)
    &&& set_or_remove(t.genre@, u.genre)
    &&& write_if_filled(t.year@, u.year)
    &&& u.track == parsed_u32(trim(t.track@))
    &&& write_if_filled(t.bpm@, u.bpm)
    &&& write_if_filled(t.key@, u.key)
}

fn set_or_remove_exec(field: &String) -> (e: TextEdit)
    ensures
        set_or_remove(field@, e),
{
    let chars = chars_of(field.as_str());
    let trimmed = trim_chars(&chars);
    if trimmed.len() == 0 {
        TextEdit::Remove
    } else {
        TextEdit::Write(field.clone())
    }
}

fn write_if_filled_exec(field: &String) -> (o: Option<String>)
    ensures
        write_if_filled(field@, o),
{
    let chars = chars_of(field.as_str());
    let trimmed = trim_chars(&chars);
    if trimmed.len() == 0 {
        None
    } else {
        Some(string_from(&trimmed))
    }
}

/// The edits that saving the tag editor's fields makes: title, artist,
/// album and genre are set as typed or removed when blank; year, BPM and
/// key are written trimmed when filled in; the track number is written
/// when the trimmed field is a `u32`.
pub fn tag_update(t: &AudioTags) -> (u: TagUpdate)
    ensures
        planned_update(*t, u),
        !all_ws(t.title@) ==> (u.title matches TextEdit::Write(v) && v@ == t.title@),
        all_ws(t.title@) ==> u.title is Remove,
        !all_ws(t.artist@) ==> (u.artist matches TextEdit::Write(v) && v@ == t.artist@),
        all_ws(t.artist@) ==> u.artist is Remove,
        !all_ws(t.album@) ==> (u.album matches TextEdit::Write(v) && v@ == t.album@),
        all_ws(t.album@) ==> u.album is Remove,
        !all_ws(t.genre@) ==> (u.genre matches TextEdit::Write(v) && v@ == t.genre@),
        all_ws(t.genre@) ==> u.genre is Remove,
        !all_ws(t.year@) ==> (u.year matches Some(v) && v@ == trim(t.year@)),
        all_ws(t.year@) ==> u.year is None,
        !all_ws(t.bpm@) ==> (u.bpm matches Some(v) && v@ == trim(t.bpm@)),
        all_ws(t.bpm@) ==> u.bpm is None,
        !all_ws(t.key@) ==> (u.key matches Some(v) && v@ == trim(t.key@)),
        all_ws(t.key@) ==> u.key is None,
{
    let track_chars = chars_of(t.track.as_str());
    let track_trimmed = trim_chars(&track_chars);
    TagUpdate {
        title: set_or_remove_exec(&t.title),
        artist: set_or_remove_exec(&t.artist),
        album: set_or_remove_exec(&t.album),
        genre: set_or_remove_exec(&t.genre),
        year: write_if_filled_exec(&t.year),
        track: parse_u32(&track_trimmed),
        bpm: write_if_filled_exec(&t.bpm),
        key: write_if_filled_exec(&t.key),
    }
}

} // verus!

verus! {

proof fn lemma_digit_char_value(k: nat)
    requires
        k < 10,
    ensures
        (digit_char(k) as u32) - ('0' as u32) == k,
        is_digit(digit_char(k)),
        !is_ws(digit_char(k)),
        digit_char(k) != '+',
{
}

proof fn lemma_decimal_digits(n: nat)
    ensures
        decimal(n).len() > 0,
        all_digits(decimal(n)),
        digits_value(decimal(n)) == n,
        !is_ws(decimal(n)[0]) && !is_ws(decimal(n).last()),
        decimal(n)[0] != '+',
    decreases n,
{
    lemma_digit_char_value(n % 10);
    if n < 10 {
        assert(decimal(n) == seq![digit_char(n)]);
        lemma_digit_char_value(n);
        let one = seq![digit_char(n)];
        assert(one.drop_last() =~= Seq::<char>::empty());
        assert(one.last() == digit_char(n));
        assert(digits_value(one.drop_last()) == 0);
        assert(digits_value(one) == digits_value(one.drop_last()) * 10 + ((one.last() as u32) - (
        '0' as u32)) as nat);
        assert(all_digits(one));
    } else {
        lemma_decimal_digits(n / 10);
        let d = decimal(n / 10);
        let c = digit_char(n % 10);
        assert(decimal(n) == d.push(c));
        assert(d.push(c).drop_last() =~= d);
        assert forall|i: int| 0 <= i < d.push(c).len() implies #[trigger] is_digit(d.push(c)[i]) by {
            if i < d.len() {
                assert(d.push(c)[i] == d[i]);
            }
        }
        assert(d.push(c)[0] == d[0]);
        assert(digits_value(d.push(c)) == digits_value(d) * 10 + ((c as u32) - ('0' as u32)) as nat);
        assert((n / 10) * 10 + n % 10 == n);
    }
}

/// Saving writes what the editor shows: each of title, artist, album and
/// genre is set to the text as typed, or removed when blank; each of year,
/// BPM and key is written trimmed when filled in, and left alone when
/// blank.
pub proof fn saving_writes_the_fields(t: AudioTags, u: TagUpdate)
    requires
        planned_update(t, u),
    ensures
        !all_ws(t.title@) ==> (u.title matches TextEdit::Write(v) && v@ == t.title@),
        all_ws(t.title@) ==> u.title is Remove,
        !all_ws(t.artist@) ==> (u.artist matches TextEdit::Write(v) && v@ == t.artist@),
        all_ws(t.artist@) ==> u.artist is Remove,
        !all_ws(t.album@) ==> (u.album matches TextEdit::Write(v) && v@ == t.album@),
        all_ws(t.album@) ==> u.album is Remove,
        !all_ws(t.genre@) ==> (u.genre matches TextEdit::Write(v) && v@ == t.genre@),
        all_ws(t.genre@) ==> u.genre is Remove,
        !all_ws(t.year@) ==> (u.year matches Some(v) && v@ == trim(t.year@)),
        all_ws(t.year@) ==> u.year is None,
        !all_ws(t.bpm@) ==> (u.bpm matches Some(v) && v@ == trim(t.bpm@)),
        all_ws(t.bpm@) ==> u.bpm is None,
        !all_ws(t.key@) ==> (u.key matches Some(v) && v@ == trim(t.key@)),
        all_ws(t.key@) ==> u.key is None,
{
}

/// A track number read from a file and shown in the editor is written back
/// unchanged when the tags are saved.
pub proof fn track_number_round_trip(n: u32)
    ensures
        parsed_u32(trim(decimal(n as nat))) == Some(n),
{
    let s = decimal(n as nat);
    lemma_decimal_digits(n as nat);
    let p = ws_pred();
    assert(!p(s[0]));
    assert(!p(s.last()));
    assert(trim_start_by(s, p) == s);
    assert(trim_end_by(s, p) == s);
}

} // verus!
