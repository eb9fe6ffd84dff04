//! Decisions of the PDF tools: line wrapping and page layout of text
//! documents, page rotation, the names of the files a document is split
//! into, page ranges, and the checks made before a document is touched.

use vstd::prelude::*;
use crate::chars::{
    all_ws, append_decimal, chars_of, decimal, extend_chars, replace_all, replace_chars, split_char,
    split_char_exec, str_equals, string_from, string_views, strings_from, subrange_chars, trim,
    trim_chars, trim_end, trim_end_chars, views,
};

verus! {

// --------------------------------------------------------------- wrapping

/// Cuts a word longer than a line into pieces of `max` characters: the
/// full pieces are appended to `out`, the rest is returned as the piece
/// being filled.
pub open spec fn chunk_fold(word: Seq<char>, max: nat, out: Seq<Seq<char>>) -> (
    Seq<Seq<char>>,
    Seq<char>,
)
    decreases word.len(),
{
    if word.len() == 0 {
        (out, seq![])
    } else {
        let (o, ch) = chunk_fold(word.drop_last(), max, out);
        let ch2 = ch.push(word.last());
        if ch2.len() >= max {
            (o.push(ch2), seq![])
        } else {
            (o, ch2)
        }
    }
}

/// One word of greedy wrapping: the word joins the current line when it
/// fits after a space, starts a new line when it does not, and is cut into
/// pieces when it is longer than a line.
pub open spec fn wrap_step(state: (Seq<Seq<char>>, Seq<char>), word: Seq<char>, max: nat) -> (
    Seq<Seq<char>>,
    Seq<char>,
) {
    let (out, cur) = state;
    if word.len() > max {
        chunk_fold(word, max, if cur.len() > 0 { out.push(cur) } else { out })
    } else if cur.len() == 0 {
        (out, word)
    } else if word.len() >= max - cur.len() {
        (out.push(cur), word)
    } else {
        (out, cur.push(' ') + word)
    }
}

/// Greedy wrapping of the words, in order.
pub open spec fn wrap_fold(words: Seq<Seq<char>>, max: nat) -> (Seq<Seq<char>>, Seq<char>)
    decreases words.len(),
{
    if words.len() == 0 {
        (seq![], seq![])
    } else {
        wrap_step(wrap_fold(words.drop_last(), max), words.last(), max)
    }
}

/// What `wrap_line` returns: the line itself when it has at most `max`
/// characters, else its space-separated words wrapped greedily into lines of
/// at most `max` characters, words longer than a line cut into pieces.
pub open spec fn wrapped(line: Seq<char>, max: nat) -> Seq<Seq<char>> {
    if line.len() <= max {
        seq![line]
    } else {
        let (out, cur) = wrap_fold(split_char(line, ' '), max);
        if cur.len() > 0 {
            out.push(cur)
        } else {
            out
        }
    }
}

fn chunk_word(out: &mut Vec<Vec<char>>, word: &Vec<char>, max: usize) -> (chunk: Vec<char>)
    ensures
        (views(final(out)@), chunk@) == chunk_fold(word@, max as nat, views(old(out)@)),
        chunk@.len() <= max,
{
    let mut chunk: Vec<char> = Vec::new();
    let mut j: usize = 0;
    assert(word@.take(0) =~= Seq::<char>::empty());
    while j < word.len()
        invariant
            j <= word.len(),
            (views(out@), chunk@) == chunk_fold(word@.take(j as int), max as nat, views(old(out)@)),
            chunk@.len() < max || chunk@.len() == 0,
        decreases word.len() - j,
    {
        let ghost t = word@.take(j + 1);
        assert(t.drop_last() =~= word@.take(j as int));
        assert(t.last() == word@[j as int]);
        chunk.push(word[j]);
        if chunk.len() >= max {
            let full = chunk;
            let ghost before = out@;
            out.push(full);
            assert(views(out@) =~= views(before).push(full@));
            chunk = Vec::new();
        }
        j = j + 1;
    }
    assert(word@.take(word.len() as int) =~= word@);
    chunk
}

/// `wrap_line` on a sequence of characters.
pub fn wrap_chars(line: &Vec<char>, max: usize) -> (r: Vec<Vec<char>>)
    ensures
        views(r@) == wrapped(line@, max as nat),
{
    if line.len() <= max {
        let whole = subrange_chars(line, 0, line.len());
        let mut r: Vec<Vec<char>> = Vec::new();
        r.push(whole);
        assert(line@.subrange(0, line@.len() as int) =~= line@);
        assert(views(r@) =~= seq![line@]);
        return r;
    }
    let words = split_char_exec(line, ' ');
    let mut out: Vec<Vec<char>> = Vec::new();
    let mut cur: Vec<char> = Vec::new();
    let mut k: usize = 0;
    assert(views(words@).take(0) =~= Seq::<Seq<char>>::empty());
    assert(views(out@) =~= Seq::<Seq<char>>::empty());
    while k < words.len()
        invariant
            k <= words.len(),
            views(words@) == split_char(line@, ' '),
            (views(out@), cur@) == wrap_fold(views(words@).take(k as int), max as nat),
            cur@.len() <= max,
        decreases words.len() - k,
    {
        let word = &words[k];
        let ghost ws = views(words@).take(k + 1);
        assert(ws.drop_last() =~= views(words@).take(k as int));
        assert(ws.last() == word@);
        if word.len() > max {
            if cur.len() > 0 {
                let finished = cur;
                let ghost before = out@;
                out.push(finished);
                assert(views(out@) =~= views(before).push(finished@));
            }
            cur = chunk_word(&mut out, word, max);
        } else if cur.len() == 0 {
            cur = subrange_chars(word, 0, word.len());
            assert(word@.subrange(0, word@.len() as int) =~= word@);
        } else if word.len() >= max - cur.len() {
            let finished = cur;
            let ghost before = out@;
            out.push(finished);
            assert(views(out@) =~= views(before).push(finished@));
            cur = subrange_chars(word, 0, word.len());
            assert(word@.subrange(0, word@.len() as int) =~= word@);
        } else {
            cur.push(' ');
            extend_chars(&mut cur, word);
        }
        k = k + 1;
    }
    assert(views(words@).take(words.len() as int) =~= views(words@));
    if cur.len() > 0 {
        let finished = cur;
        let ghost before = out@;
        out.push(finished);
        assert(views(out@) =~= views(before).push(finished@));
    }
    out
}

} // verus!

verus! {

/// Splits `line` into lines of at most `max` characters: a line that fits is
/// kept whole; a longer one is wrapped greedily at spaces, and a word longer
/// than `max` is cut into pieces of `max` characters.
pub fn wrap_line(line: &str, max: usize) -> (r: Vec<String>)
    ensures
        string_views(r@) == wrapped(line@, max as nat),
{
    let chars = chars_of(line);
    let pieces = wrap_chars(&chars, max);
    strings_from(&pieces)
}

/// Every piece has between 1 and `max` characters.
pub open spec fn pieces_fit(s: Seq<Seq<char>>, max: nat) -> bool {
    forall|k: int| 0 <= k < s.len() ==> 1 <= (#[trigger] s[k]).len() <= max
}

proof fn lemma_chunk_fold_fits(word: Seq<char>, max: nat, out: Seq<Seq<char>>)
    requires
        max >= 1,
        pieces_fit(out, max),
    ensures
        pieces_fit(chunk_fold(word, max, out).0, max),
        chunk_fold(word, max, out).1.len() < max,
    decreases word.len(),
{
    if word.len() > 0 {
        lemma_chunk_fold_fits(word.drop_last(), max, out);
        let (o, ch) = chunk_fold(word.drop_last(), max, out);
        let ch2 = ch.push(word.last());
        if ch2.len() >= max {
            assert forall|k: int| 0 <= k < o.push(ch2).len() implies 1 <= (#[trigger] o.push(
                ch2,
            )[k]).len() <= max by {
                if k < o.len() {
                    assert(o.push(ch2)[k] == o[k]);
                }
            }
        }
    }
}

proof fn lemma_wrap_fold_fits(words: Seq<Seq<char>>, max: nat)
    requires
        max >= 1,
    ensures
        pieces_fit(wrap_fold(words, max).0, max),
        wrap_fold(words, max).1.len() <= max,
    decreases words.len(),
{
    if words.len() > 0 {
        lemma_wrap_fold_fits(words.drop_last(), max);
        let (out, cur) = wrap_fold(words.drop_last(), max);
        let word = words.last();
        if cur.len() > 0 {
            assert forall|k: int| 0 <= k < out.push(cur).len() implies 1 <= (#[trigger] out.push(
                cur,
            )[k]).len() <= max by {
                if k < out.len() {
                    assert(out.push(cur)[k] == out[k]);
                }
            }
        }
        if word.len() > max {
            if cur.len() > 0 {
                lemma_chunk_fold_fits(word, max, out.push(cur));
            } else {
                lemma_chunk_fold_fits(word, max, out);
            }
        }
    }
}

/// Wrapping never yields a line longer than `max` (for `max` at least 1),
/// and a line that had to be wrapped yields no empty line.
pub proof fn wrapped_lines_fit(line: Seq<char>, max: nat)
    requires
        max >= 1,
    ensures
        forall|k: int| 0 <= k < wrapped(line, max).len() ==> (#[trigger] wrapped(line, max)[k]).len() <= max,
        line.len() > max ==> pieces_fit(wrapped(line, max), max),
{
    if line.len() > max {
        lemma_wrap_fold_fits(split_char(line, ' '), max);
        let (out, cur) = wrap_fold(split_char(line, ' '), max);
        if cur.len() > 0 {
            assert forall|k: int| 0 <= k < out.push(cur).len() implies 1 <= (#[trigger] out.push(
                cur,
            )[k]).len() <= max by {
                if k < out.len() {
                    assert(out.push(cur)[k] == out[k]);
                }
            }
        }
    }
}

} // verus!

verus! {

// ----------------------------------------------------------------- layout

/// A drawing step of a text document: start a new A4 page, or write a line
/// at the left margin, `y_mm` millimetres above the bottom of the page.
pub enum PageOp {
    NewPage,
    Text { y_mm: u32, text: String },
}

/// `PageOp` with its text seen as characters.
pub enum PageOpView {
    NewPage,
    Text(int, Seq<char>),
}

impl View for PageOp {
    type V = PageOpView;

    open spec fn view(&self) -> PageOpView {
        match self {
            PageOp::NewPage => PageOpView::NewPage,
            PageOp::Text { y_mm, text } => PageOpView::Text(*y_mm as int, text@),
        }
    }
}

pub open spec fn op_views(v: Seq<PageOp>) -> Seq<PageOpView> {
    v.map_values(|o: PageOp| o@)
}

/// Height of the first line of a page: 297 mm of A4 less a 20 mm margin.
pub open spec fn page_top() -> int {
    277
}

/// Lines are not written below the 20 mm bottom margin.
pub open spec fn bottom_margin() -> int {
    20
}

/// Distance between two lines, in millimetres.
pub open spec fn line_height() -> int {
    5
}

/// Characters per line of the text documents.
pub open spec fn line_chars() -> nat {
    92
}

pub type LayoutState = (Seq<PageOpView>, int);

/// A blank line: move down, and to a new page below the margin.
pub open spec fn blank_step(st: LayoutState) -> LayoutState {
    let y = st.1 - line_height();
    if y < bottom_margin() {
        (st.0.push(PageOpView::NewPage), page_top())
    } else {
        (st.0, y)
    }
}

/// A written line: to a new page first when below the margin, then the
/// line, then move down.
pub open spec fn emit_step(st: LayoutState, piece: Seq<char>) -> LayoutState {
    let (ops, y) = if st.1 < bottom_margin() {
        (st.0.push(PageOpView::NewPage), page_top())
    } else {
        st
    };
    (ops.push(PageOpView::Text(y, piece)), y - line_height())
}

pub open spec fn emit_all(st: LayoutState, pieces: Seq<Seq<char>>) -> LayoutState
    decreases pieces.len(),
{
    if pieces.len() == 0 {
        st
    } else {
        emit_step(emit_all(st, pieces.drop_last()), pieces.last())
    }
}

/// One line of the source text: blank after trimming its end, or wrapped
/// and written.
pub open spec fn layout_line(st: LayoutState, raw: Seq<char>) -> LayoutState {
    let l = trim_end(raw);
    if l.len() == 0 {
        blank_step(st)
    } else {
        emit_all(st, wrapped(l, line_chars()))
    }
}

pub open spec fn layout_fold(lines: Seq<Seq<char>>) -> LayoutState
    decreases lines.len(),
{
    if lines.len() == 0 {
        (seq![], page_top())
    } else {
        layout_line(layout_fold(lines.drop_last()), lines.last())
    }
}

/// The lines of `s` as `str::lines` yields them, up to a carriage return
/// before each line feed; the layout trims the end of every line, so those
/// make no difference there.
pub open spec fn text_lines(s: Seq<char>) -> Seq<Seq<char>> {
    let parts = split_char(s, '\n');
    if parts.len() > 0 && parts.last().len() == 0 {
        parts.drop_last()
    } else {
        parts
    }
}

/// The drawing steps of a text document: tabs become four spaces, every
/// line is wrapped at 92 characters, and a page holds the lines from 277 mm
/// down to the 20 mm margin, 5 mm apart. The first page is implied.
pub open spec fn text_layout(text: Seq<char>) -> Seq<PageOpView> {
    layout_fold(text_lines(replace_all(text, seq!['\t'], seq![' ', ' ', ' ', ' ']))).0
}

fn emit_pieces(ops: &mut Vec<PageOp>, y: &mut u32, pieces: &Vec<Vec<char>>)
    requires
        15 <= *old(y) <= 277,
    ensures
        15 <= *final(y) <= 277,
        (op_views(final(ops)@), *final(y) as int) == emit_all(
            (op_views(old(ops)@), *old(y) as int),
            views(pieces@),
        ),
{
    let mut k: usize = 0;
    assert(views(pieces@).take(0) =~= Seq::<Seq<char>>::empty());
    while k < pieces.len()
        invariant
            k <= pieces.len(),
            15 <= *y <= 277,
            (op_views(ops@), *y as int) == emit_all(
                (op_views(old(ops)@), *old(y) as int),
                views(pieces@).take(k as int),
            ),
        decreases pieces.len() - k,
    {
        let ghost ps = views(pieces@).take(k + 1);
        assert(ps.drop_last() =~= views(pieces@).take(k as int));
        assert(ps.last() == pieces@[k as int]@);
        if *y < 20 {
            let ghost before = ops@;
            ops.push(PageOp::NewPage);
            assert(op_views(ops@) =~= op_views(before).push(PageOpView::NewPage));
            *y = 277;
        }
        let text = string_from(&pieces[k]);
        let ghost before = ops@;
        let op = PageOp::Text { y_mm: *y, text };
        ops.push(op);
        assert(op_views(ops@) =~= op_views(before).push(op@));
        *y = *y - 5;
        k = k + 1;
    }
    assert(views(pieces@).take(pieces.len() as int) =~= views(pieces@));
}

/// The drawing steps that lay out `text` on A4 pages (see `text_layout`).
pub fn text_pdf_layout(text: &str) -> (r: Vec<PageOp>)
    ensures
        op_views(r@) == text_layout(text@),
{
    let chars = chars_of(text);
    let mut tab: Vec<char> = Vec::new();
    tab.push('\t');
    let mut spaces: Vec<char> = Vec::new();
    spaces.push(' ');
    spaces.push(' ');
    spaces.push(' ');
    spaces.push(' ');
    assert(tab@ =~= seq!['\t']);
    assert(spaces@ =~= seq![' ', ' ', ' ', ' ']);
    let expanded = replace_chars(&chars, &tab, &spaces);
    let parts = split_char_exec(&expanded, '\n');
    let mut n = parts.len();
    if n > 0 && parts[n - 1].len() == 0 {
        n = n - 1;
    }
    let ghost lines = text_lines(expanded@);
    assert(lines =~= views(parts@).take(n as int));
    let mut ops: Vec<PageOp> = Vec::new();
    let mut y: u32 = 277;
    let mut i: usize = 0;
    assert(lines.take(0) =~= Seq::<Seq<char>>::empty());
    assert(op_views(ops@) =~= Seq::<PageOpView>::empty());
    while i < n
        invariant
            i <= n <= parts.len(),
            lines == views(parts@).take(n as int),
            15 <= y <= 277,
            (op_views(ops@), y as int) == layout_fold(lines.take(i as int)),
        decreases n - i,
    {
        let ghost ls = lines.take(i + 1);
        assert(ls.drop_last() =~= lines.take(i as int));
        assert(ls.last() == parts@[i as int]@);
        let line = trim_end_chars(&parts[i]);
        if line.len() == 0 {
            y = y - 5;
            if y < 20 {
                let ghost before = ops@;
                ops.push(PageOp::NewPage);
                assert(op_views(ops@) =~= op_views(before).push(PageOpView::NewPage));
                y = 277;
            }
        } else {
            let pieces = wrap_chars(&line, 92);
            emit_pieces(&mut ops, &mut y, &pieces);
        }
        i = i + 1;
    }
    assert(lines.take(n as int) =~= lines);
    ops
}

} // verus!

verus! {

/// Every written line lies between the bottom margin and the top of the
/// page, and holds at most `line_chars()` characters.
pub open spec fn ops_within_page(ops: Seq<PageOpView>) -> bool {
    forall|k: int|
        0 <= k < ops.len() ==> match #[trigger] ops[k] {
            PageOpView::Text(y, t) => bottom_margin() <= y <= page_top() && t.len()
                <= line_chars(),
            PageOpView::NewPage => true,
        }
}

proof fn lemma_push_within(ops: Seq<PageOpView>, op: PageOpView)
    requires
        ops_within_page(ops),
        ops_within_page(seq![op]),
    ensures
        ops_within_page(ops.push(op)),
{
    assert forall|k: int| 0 <= k < ops.push(op).len() implies match #[trigger] ops.push(op)[k] {
        PageOpView::Text(y, t) => bottom_margin() <= y <= page_top() && t.len() <= line_chars(),
        PageOpView::NewPage => true,
    } by {
        if k < ops.len() {
            assert(ops.push(op)[k] == ops[k]);
        } else {
            assert(ops.push(op)[k] == seq![op][0]);
        }
    }
}

proof fn lemma_emit_all_within(st: LayoutState, pieces: Seq<Seq<char>>)
    requires
        ops_within_page(st.0),
        15 <= st.1 <= page_top(),
        forall|k: int| 0 <= k < pieces.len() ==> (#[trigger] pieces[k]).len() <= line_chars(),
    ensures
        ops_within_page(emit_all(st, pieces).0),
        15 <= emit_all(st, pieces).1 <= page_top(),
    decreases pieces.len(),
{
    if pieces.len() > 0 {
        let p = pieces.drop_last();
        assert forall|k: int| 0 <= k < p.len() implies (#[trigger] p[k]).len() <= line_chars() by {
            assert(p[k] == pieces[k]);
        }
        lemma_emit_all_within(st, p);
        let s1 = emit_all(st, p);
        assert(pieces.last() == pieces[pieces.len() - 1]);
        if s1.1 < bottom_margin() {
            lemma_push_within(s1.0, PageOpView::NewPage);
            lemma_push_within(
                s1.0.push(PageOpView::NewPage),
                PageOpView::Text(page_top(), pieces.last()),
            );
        } else {
            lemma_push_within(s1.0, PageOpView::Text(s1.1, pieces.last()));
        }
    }
}

proof fn lemma_layout_fold_within(lines: Seq<Seq<char>>)
    ensures
        ops_within_page(layout_fold(lines).0),
        15 <= layout_fold(lines).1 <= page_top(),
    decreases lines.len(),
{
    if lines.len() > 0 {
        lemma_layout_fold_within(lines.drop_last());
        let st = layout_fold(lines.drop_last());
        let l = trim_end(lines.last());
        if l.len() == 0 {
            if st.1 - line_height() < bottom_margin() {
                lemma_push_within(st.0, PageOpView::NewPage);
            }
        } else {
            wrapped_lines_fit(l, line_chars());
            lemma_emit_all_within(st, wrapped(l, line_chars()));
        }
    }
}

/// In the layout of any text, every line is written between the bottom
/// margin (20 mm) and the top line (277 mm), with at most 92 characters.
pub proof fn layout_stays_within_page(text: Seq<char>)
    ensures
        ops_within_page(text_layout(text)),
{
    lemma_layout_fold_within(text_lines(replace_all(text, seq!['\t'], seq![' ', ' ', ' ', ' '])));
}

} // verus!

verus! {

// ------------------------------------------------------------ page tools

/// A rotation that a page can be given.
#[derive(Clone, Copy, Debug, PartialEq, Eq, Structural)]
pub enum PageRotation {
    Upright,
    Degrees90,
    Degrees180,
    Degrees270,
}

/// The rotation for an angle in degrees: the angle is taken modulo 360,
/// and anything but a quarter, half or three-quarter turn means none.
pub open spec fn rotation_for(degrees: int) -> PageRotation {
    let d = degrees % 360;
    if d == 90 {
        PageRotation::Degrees90
    } else if d == 180 {
        PageRotation::Degrees180
    } else if d == 270 {
        PageRotation::Degrees270
    } else {
        PageRotation::Upright
    }
}

/// The rotation `rotate_pdf` gives every page for `degrees`.
pub fn rotation_for_degrees(degrees: i32) -> (r: PageRotation)
    ensures
        r == rotation_for(degrees as int),
{
    let d = ((degrees % 360) + 360) % 360;
    assert(d == (degrees as int) % 360) by (nonlinear_arith)
        requires
            d == ((degrees % 360) + 360) % 360,
    ;
    if d == 90 {
        PageRotation::Degrees90
    } else if d == 180 {
        PageRotation::Degrees180
    } else if d == 270 {
        PageRotation::Degrees270
    } else {
        PageRotation::Upright
    }
}

/// Turning by a full turn more or less makes no difference.
pub proof fn rotation_is_periodic(degrees: int)
    ensures
        rotation_for(degrees + 360) == rotation_for(degrees),
        rotation_for(degrees - 360) == rotation_for(degrees),
{
    assert((degrees + 360) % 360 == degrees % 360) by (nonlinear_arith);
    assert((degrees - 360) % 360 == degrees % 360) by (nonlinear_arith);
}

/// The name of the image of page `index` (from 0) of a document of `total`
/// pages: `{stem}.{ext}` for a single page, else `{stem}_pagina_{n}.{ext}`
/// with `n` counted from 1.
pub open spec fn page_image_name_spec(stem: Seq<char>, ext: Seq<char>, total: nat, index: nat) -> Seq<
    char,
> {
    if total == 1 {
        stem + "."@ + ext
    } else {
        stem + "_pagina_"@ + decimal(index + 1) + "."@ + ext
    }
}

/// Name of the image file for one page of a document turned into images.
pub fn page_image_name(stem: &str, ext: &str, total: u64, index: u64) -> (r: String)
    requires
        index < total,
    ensures
        r@ == page_image_name_spec(stem@, ext@, total as nat, index as nat),
{
    let mut s = String::from_str(stem);
    if total == 1 {
        s.append(".");
        s.append(ext);
    } else {
        s.append("_pagina_");
        append_decimal(&mut s, index + 1);
        s.append(".");
        s.append(ext);
    }
    s
}

/// Pages rendered as JPEG drop their alpha channel first.
pub fn is_jpeg_ext(ext: &str) -> (r: bool)
    ensures
        r == (ext@ == "jpg"@ || ext@ == "jpeg"@),
{
    str_equals(ext, "jpg") || str_equals(ext, "jpeg")
}

/// Name of the file for page `index` (from 0) of a split document:
/// `{stem}_pagina_{n}.pdf`, `n` counted from 1.
pub fn split_page_name(stem: &str, index: u64) -> (r: String)
    requires
        index < u64::MAX,
    ensures
        r@ == stem@ + "_pagina_"@ + decimal(index as nat + 1) + ".pdf"@,
{
    let mut s = String::from_str(stem);
    s.append("_pagina_");
    append_decimal(&mut s, index + 1);
    s.append(".pdf");
    s
}

/// The page range that copies page `index` (from 0) alone: its number
/// from 1. It also names the layer of that page in a compressed document.
pub fn single_page_range(index: u64) -> (r: String)
    requires
        index < u64::MAX,
    ensures
        r@ == decimal(index as nat + 1),
{
    let mut s = String::new();
    append_decimal(&mut s, index + 1);
    assert(s@ =~= decimal(index as nat + 1));
    s
}

/// The page range that copies a whole document of `pages` pages when
/// documents are merged: `1-{pages}`; `None` for a document without pages,
/// which is skipped.
pub fn merge_page_range(pages: u64) -> (r: Option<String>)
    ensures
        pages == 0 ==> r is None,
        pages > 0 ==> (r matches Some(s) && s@ == "1-"@ + decimal(pages as nat)),
{
    if pages == 0 {
        return None;
    }
    let mut s = String::from_str("1-");
    append_decimal(&mut s, pages);
    Some(s)
}

/// The new page order given to `reorder_pdf`, trimmed; an error when it is
/// blank.
pub fn reorder_order(order: &str) -> (r: Result<String, String>)
    ensures
        !all_ws(order@) ==> (r matches Ok(s) && s@ == trim(order@)),
        all_ws(order@) ==> (r matches Err(e) && e@ == "informe a nova ordem das páginas (ex.: 3,1,2)"@),
{
    let chars = chars_of(order);
    let trimmed = trim_chars(&chars);
    if trimmed.len() == 0 {
        Err(String::from_str("informe a nova ordem das páginas (ex.: 3,1,2)"))
    } else {
        Ok(string_from(&trimmed))
    }
}

/// Text extracted from a document is kept unless it is blank: a scanned
/// document holds only images.
pub fn check_extracted_text(text: &str) -> (r: Result<(), String>)
    ensures
        !all_ws(text@) ==> r is Ok,
        all_ws(text@) ==> (r matches Err(e) && e@
            == "Nenhum texto encontrado (o PDF pode ser apenas imagens escaneadas)."@),
{
    let chars = chars_of(text);
    let trimmed = trim_chars(&chars);
    if trimmed.len() == 0 {
        Err(String::from_str("Nenhum texto encontrado (o PDF pode ser apenas imagens escaneadas)."))
    } else {
        Ok(())
    }
}

/// A document to render, split or compress must have pages.
pub fn check_page_count(pages: u64) -> (r: Result<(), String>)
    ensures
        pages > 0 ==> r is Ok,
        pages == 0 ==> (r matches Err(e) && e@ == "o PDF não tem páginas"@),
{
    if pages == 0 {
        Err(String::from_str("o PDF não tem páginas"))
    } else {
        Ok(())
    }
}

/// Images to join into one document: at least one is needed.
pub fn check_image_count(images: usize) -> (r: Result<(), String>)
    ensures
        images > 0 ==> r is Ok,
        images == 0 ==> (r matches Err(e) && e@ == "nenhuma imagem selecionada"@),
{
    if images == 0 {
        Err(String::from_str("nenhuma imagem selecionada"))
    } else {
        Ok(())
    }
}

/// Layer name of the image at `index` (from 0) of a document made of
/// images: `Imagem {n}`, `n` counted from 1.
pub fn image_layer_name(index: u64) -> (r: String)
    requires
        index < u64::MAX,
    ensures
        r@ == "Imagem "@ + decimal(index as nat + 1),
{
    let mut s = String::from_str("Imagem ");
    append_decimal(&mut s, index + 1);
    s
}

/// Platform the PDF engine library is fetched for.
#[derive(Clone, Copy, Debug, PartialEq, Eq, Structural)]
pub enum Platform {
    Windows,
    MacArm,
    MacIntel,
    Linux,
}

/// The archive of the PDF engine library built for `platform`.
pub fn pdfium_asset(platform: Platform) -> (r: &'static str)
    ensures
        r@ == match platform {
            Platform::Windows => "pdfium-win-x64.tgz"@,
            Platform::MacArm => "pdfium-mac-arm64.tgz"@,
            Platform::MacIntel => "pdfium-mac-x64.tgz"@,
            Platform::Linux => "pdfium-linux-x64.tgz"@,
        },
{
    match platform {
        Platform::Windows => "pdfium-win-x64.tgz",
        Platform::MacArm => "pdfium-mac-arm64.tgz",
        Platform::MacIntel => "pdfium-mac-x64.tgz",
        Platform::Linux => "pdfium-linux-x64.tgz",
    }
}

/// Where the latest build of an archive of the PDF engine is downloaded.
pub fn pdfium_url(asset: &str) -> (r: String)
    ensures
        r@ == "https://github.com/bblanchon/pdfium-binaries/releases/latest/download/"@ + asset@,
{
    let mut s = String::from_str(
        "https://github.com/bblanchon/pdfium-binaries/releases/latest/download/",
    );
    s.append(asset);
    s
}

} // verus!

verus! {

/// `s` without its spaces.
pub open spec fn drop_spaces(s: Seq<char>) -> Seq<char>
    decreases s.len(),
{
    if s.len() == 0 {
        seq![]
    } else if s.last() == ' ' {
        drop_spaces(s.drop_last())
    } else {
        drop_spaces(s.drop_last()).push(s.last())
    }
}

/// The pieces one after the other.
pub open spec fn concat_all(pieces: Seq<Seq<char>>) -> Seq<char>
    decreases pieces.len(),
{
    if pieces.len() == 0 {
        seq![]
    } else {
        concat_all(pieces.drop_last()) + pieces.last()
    }
}

proof fn lemma_drop_spaces_concat(a: Seq<char>, b: Seq<char>)
    ensures
        drop_spaces(a + b) == drop_spaces(a) + drop_spaces(b),
    decreases b.len(),
{
    if b.len() == 0 {
        assert(a + b =~= a);
        assert(drop_spaces(a) + drop_spaces(b) =~= drop_spaces(a));
    } else {
        assert((a + b).drop_last() =~= a + b.drop_last());
        assert((a + b).last() == b.last());
        lemma_drop_spaces_concat(a, b.drop_last());
        if b.last() != ' ' {
            assert(drop_spaces(a) + drop_spaces(b.drop_last()).push(b.last()) =~= (drop_spaces(a)
                + drop_spaces(b.drop_last())).push(b.last()));
        }
    }
}

proof fn lemma_concat_push(pieces: Seq<Seq<char>>, p: Seq<char>)
    ensures
        concat_all(pieces.push(p)) == concat_all(pieces) + p,
{
    assert(pieces.push(p).drop_last() =~= pieces);
}

proof fn lemma_concat_update_last(pieces: Seq<Seq<char>>, p: Seq<char>)
    requires
        pieces.len() > 0,
    ensures
        concat_all(pieces.update(pieces.len() - 1, p)) == concat_all(pieces.drop_last()) + p,
{
    assert(pieces.update(pieces.len() - 1, p).drop_last() =~= pieces.drop_last());
}

/// Words split at spaces hold no space, and together they are the line
/// without its spaces.
proof fn lemma_split_spaces(s: Seq<char>)
    ensures
        concat_all(split_char(s, ' ')) == drop_spaces(s),
        forall|k: int|
            0 <= k < split_char(s, ' ').len() ==> drop_spaces(#[trigger] split_char(s, ' ')[k])
                == split_char(s, ' ')[k],
    decreases s.len(),
{
    if s.len() == 0 {
        let e = Seq::<char>::empty();
        lemma_concat_push(Seq::<Seq<char>>::empty(), e);
        assert(Seq::<Seq<char>>::empty().push(e) =~= split_char(s, ' '));
        assert(Seq::<char>::empty() + e =~= e);
    } else {
        let w = split_char(s.drop_last(), ' ');
        lemma_split_spaces(s.drop_last());
        crate::chars::lemma_split_char_len(s.drop_last(), ' ');
        let c = s.last();
        if c == ' ' {
            lemma_concat_push(w, seq![]);
            assert(concat_all(w) + Seq::<char>::empty() =~= concat_all(w));
            let r = w.push(seq![]);
            assert forall|k: int| 0 <= k < r.len() implies drop_spaces(#[trigger] r[k]) == r[k] by {
                if k < w.len() {
                    assert(r[k] == w[k]);
                } else {
                    assert(r[k] =~= Seq::<char>::empty());
                }
            }
        } else {
            let last = w.last();
            let r = w.update(w.len() - 1, last.push(c));
            lemma_concat_update_last(w, last.push(c));
            assert(w.drop_last().push(last) =~= w);
            lemma_concat_push(w.drop_last(), last);
            assert(w[w.len() - 1] == last);
            assert(drop_spaces(last) == last);
            assert(last.push(c).drop_last() =~= last);
            assert(drop_spaces(last.push(c)) == last.push(c));
            assert(concat_all(w.drop_last()) + last.push(c) =~= (concat_all(w.drop_last()) + last).push(c));
            assert forall|k: int| 0 <= k < r.len() implies drop_spaces(#[trigger] r[k]) == r[k] by {
                if k < w.len() - 1 {
                    assert(r[k] == w[k]);
                }
            }
        }
    }
}

proof fn lemma_chunk_fold_concat(word: Seq<char>, max: nat, out: Seq<Seq<char>>)
    ensures
        concat_all(chunk_fold(word, max, out).0) + chunk_fold(word, max, out).1 == concat_all(out)
            + word,
    decreases word.len(),
{
    if word.len() == 0 {
        assert(concat_all(out) + Seq::<char>::empty() =~= concat_all(out));
        assert(concat_all(out) + word =~= concat_all(out));
    } else {
        lemma_chunk_fold_concat(word.drop_last(), max, out);
        let (o, ch) = chunk_fold(word.drop_last(), max, out);
        let ch2 = ch.push(word.last());
        assert(concat_all(out) + word =~= (concat_all(out) + word.drop_last()).push(word.last()));
        if ch2.len() >= max {
            lemma_concat_push(o, ch2);
            assert(concat_all(o) + ch2 + Seq::<char>::empty() =~= (concat_all(o) + ch).push(
                word.last(),
            ));
        } else {
            assert(concat_all(o) + ch2 =~= (concat_all(o) + ch).push(word.last()));
        }
    }
}

/// What the wrapper has laid down so far, spaces left out.
pub open spec fn wrap_text(state: (Seq<Seq<char>>, Seq<char>)) -> Seq<char> {
    drop_spaces(concat_all(state.0) + state.1)
}

proof fn lemma_wrap_step_text(state: (Seq<Seq<char>>, Seq<char>), word: Seq<char>, max: nat)
    requires
        drop_spaces(word) == word,
    ensures
        wrap_text(wrap_step(state, word, max)) == wrap_text(state) + word,
{
    let (out, cur) = state;
    let base = concat_all(out) + cur;
    lemma_drop_spaces_concat(base, word);
    if word.len() > max {
        let out1 = if cur.len() > 0 {
            out.push(cur)
        } else {
            out
        };
        if cur.len() > 0 {
            lemma_concat_push(out, cur);
        } else {
            assert(cur =~= Seq::<char>::empty());
            assert(base =~= concat_all(out));
        }
        lemma_chunk_fold_concat(word, max, out1);
        assert(concat_all(out1) + word =~= base + word);
    } else if cur.len() == 0 {
        assert(base =~= concat_all(out));
    } else if cur.len() + 1 + word.len() > max {
        lemma_concat_push(out, cur);
        assert(concat_all(out.push(cur)) + word =~= base + word);
    } else {
        let joined = concat_all(out) + (cur.push(' ') + word);
        assert(joined =~= base.push(' ') + word);
        lemma_drop_spaces_concat(base.push(' '), word);
        assert(base.push(' ').drop_last() =~= base);
    }
}

proof fn lemma_wrap_fold_text(words: Seq<Seq<char>>, max: nat)
    requires
        forall|k: int| 0 <= k < words.len() ==> drop_spaces(#[trigger] words[k]) == words[k],
    ensures
        wrap_text(wrap_fold(words, max)) == concat_all(words),
    decreases words.len(),
{
    if words.len() == 0 {
        assert(concat_all(Seq::<Seq<char>>::empty()) + Seq::<char>::empty() =~= Seq::<char>::empty());
    } else {
        let d = words.drop_last();
        assert forall|k: int| 0 <= k < d.len() implies drop_spaces(#[trigger] d[k]) == d[k] by {
            assert(d[k] == words[k]);
        }
        lemma_wrap_fold_text(d, max);
        assert(words.last() == words[words.len() - 1]);
        lemma_wrap_step_text(wrap_fold(d, max), words.last(), max);
    }
}

/// Wrapping loses no text: the lines, put back together, hold every
/// character of the line but the spaces at which it was broken.
pub proof fn wrapping_keeps_text(line: Seq<char>, max: nat)
    ensures
        drop_spaces(concat_all(wrapped(line, max))) == drop_spaces(line),
{
    if line.len() <= max {
        lemma_concat_push(Seq::<Seq<char>>::empty(), line);
        assert(seq![line] =~= Seq::<Seq<char>>::empty().push(line));
        assert(Seq::<char>::empty() + line =~= line);
    } else {
        let words = split_char(line, ' ');
        lemma_split_spaces(line);
        lemma_wrap_fold_text(words, max);
        let (out, cur) = wrap_fold(words, max);
        if cur.len() > 0 {
            lemma_concat_push(out, cur);
        } else {
            assert(concat_all(out) + cur =~= concat_all(out));
        }
    }
}

} // verus!
