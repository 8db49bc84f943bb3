//! Splitting a waveform text into signal lines.
//!
//! Lines end at `'\n'`, at `'\r'`, or at the pair `"\r\n"`. In each line a `#`
//! starts a comment that runs to the end of the line, leading blanks are skipped,
//! and a `:` before the comment ends a label. A labeled line whose label was
//! already seen continues the earlier line of that label; every other line with
//! content is a signal line of its own.
use vstd::prelude::*;
use super::scan::{Stop, is_blank, is_newline, lemma_scan, scan, scan_chars, stops, str_chars, str_eq};
use vstd::utf8::{decode_utf8, encode_scalar, encode_utf8, is_char_boundary, pop_first_scalar, valid_utf8};
use vstd::string::StringSliceAdditionalSpecFns;

verus! {

/// One signal line: its label (empty when it has none), its content on the line
/// where it first appears, and the text that follows that line (empty when it
/// has no label), in which the continuations of a labeled line are found.
#[derive(Clone, Copy, Debug)]
pub struct Line<'a> {
    pub label: &'a str,
    pub content: &'a str,
    pub remain: &'a str,
}

/// The characters of a line's label, content and remaining text.
pub type LineView = (Seq<char>, Seq<char>, Seq<char>);

impl<'a> View for Line<'a> {
    type V = LineView;

    open spec fn view(&self) -> LineView {
        (self.label@, self.content@, self.remain@)
    }
}

impl<'a> Line<'a> {
    pub fn new(label: &'a str, content: &'a str, remain: &'a str) -> (r: Self)
        ensures
            r.label == label,
            r.content == content,
            r.remain == remain,
    {
        Line { label, content, remain }
    }
}

/// Why a text could not be split into signal lines.
#[derive(Clone, Copy, Debug, PartialEq, Eq, Structural)]
pub enum ParseError {
    /// The text holds more signal lines than the parser was built for.
    CapacityFull,
}

pub open spec fn line_views<'a>(v: Seq<Line<'a>>) -> Seq<LineView> {
    v.map_values(|l: Line<'a>| l@)
}

/// Where the physical line that starts at `i` ends: its terminator, or the end of the text.
pub open spec fn line_end(s: Seq<char>, i: int) -> int {
    scan(s, i, s.len() as int, Stop::Newline)
}

/// Where the physical line after the one that starts at `i` starts.
pub open spec fn next_line(s: Seq<char>, i: int) -> int {
    let e = line_end(s, i);
    if e >= s.len() {
        s.len() as int
    } else if s[e] == '\r' && e + 1 < s.len() && s[e + 1] == '\n' {
        e + 2
    } else {
        e + 1
    }
}

/// Where the comment of the line at `i` starts (its end if it has none).
pub open spec fn comment_at(s: Seq<char>, i: int) -> int {
    scan(s, i, line_end(s, i), Stop::At('#'))
}

/// The first character of the line at `i` that is not a blank.
pub open spec fn text_at(s: Seq<char>, i: int) -> int {
    scan(s, i, comment_at(s, i), Stop::NotBlank)
}

/// The first `:` of the line at `i`, before its comment (the comment's start if none).
pub open spec fn colon_at(s: Seq<char>, i: int) -> int {
    scan(s, text_at(s, i), comment_at(s, i), Stop::At(':'))
}

pub open spec fn has_label(s: Seq<char>, i: int) -> bool {
    colon_at(s, i) < comment_at(s, i)
}

/// Where the content of the line at `i` starts: after the label and the blanks
/// that follow it, or at the first non-blank character of an unlabeled line.
pub open spec fn content_at(s: Seq<char>, i: int) -> int {
    if has_label(s, i) {
        scan(s, colon_at(s, i) + 1, comment_at(s, i), Stop::NotBlank)
    } else {
        text_at(s, i)
    }
}

/// The label of the line at `i`: what stands between its first non-blank character and its first `:`.
pub open spec fn label_of(s: Seq<char>, i: int) -> Seq<char> {
    if has_label(s, i) {
        s.subrange(text_at(s, i), colon_at(s, i))
    } else {
        Seq::empty()
    }
}

/// The content of the line at `i`, up to its comment; blanks at its end are kept.
pub open spec fn content_of(s: Seq<char>, i: int) -> Seq<char> {
    s.subrange(content_at(s, i), comment_at(s, i))
}

/// The text after position `eol`, without the line terminators it starts with.
pub open spec fn remain_after(s: Seq<char>, eol: int) -> Seq<char> {
    s.subrange(scan(s, eol, s.len() as int, Stop::NotNewline), s.len() as int)
}

pub open spec fn knows_label(acc: Seq<LineView>, label: Seq<char>) -> bool {
    exists|j: int| 0 <= j < acc.len() && (#[trigger] acc[j]).0 == label
}

/// What a physical line adds to the signal lines found before it, case by case:
/// nothing when it has no content; nothing when its label is carried, exactly,
/// by an earlier signal line; otherwise one new signal line at the end. A label is
/// matched only by an equal label, never by one that it starts with or that
/// starts with it.
pub proof fn lemma_add_line_cases(
    acc: Seq<LineView>,
    label: Seq<char>,
    content: Seq<char>,
    remain: Seq<char>,
)
    ensures
        content.len() == 0 ==> add_line(acc, label, content, remain) == acc,
        content.len() > 0 && label.len() > 0 && (exists|j: int|
            0 <= j < acc.len() && (#[trigger] acc[j]).0 == label) ==> add_line(acc, label, content, remain) == acc,
        content.len() > 0 && label.len() > 0 && (forall|j: int|
            0 <= j < acc.len() ==> (#[trigger] acc[j]).0 != label) ==> add_line(acc, label, content, remain)
            == acc.push((label, content, remain)),
        content.len() > 0 && label.len() == 0 ==> add_line(acc, label, content, remain) == acc.push(
            (Seq::empty(), content, Seq::empty()),
        ),
{
}

/// What one physical line adds to the signal lines found before it: nothing when
/// it has no content or continues a label already seen; else a new signal line.
pub open spec fn add_line(
    acc: Seq<LineView>,
    label: Seq<char>,
    content: Seq<char>,
    remain: Seq<char>,
) -> Seq<LineView> {
    if content.len() == 0 {
        acc
    } else if label.len() > 0 {
        if knows_label(acc, label) {
            acc
        } else {
            acc.push((label, content, remain))
        }
    } else {
        acc.push((Seq::empty(), content, Seq::empty()))
    }
}

/// The signal lines of `s`, found line by line from position `i` on, after those in `acc`.
pub open spec fn lines_from(s: Seq<char>, i: int, acc: Seq<LineView>) -> Seq<LineView>
    decreases s.len() - i,
{
    if i >= s.len() {
        acc
    } else {
        proof {
            lemma_scan(s, i, s.len() as int, Stop::Newline);
        }
        lines_from(
            s,
            next_line(s, i),
            add_line(acc, label_of(s, i), content_of(s, i), remain_after(s, next_line(s, i))),
        )
    }
}

/// The signal lines of a waveform text, in the order of their first appearance.
pub open spec fn text_lines(s: Seq<char>) -> Seq<LineView> {
    lines_from(s, 0, Seq::empty())
}

/// The text without the blanks at its end.
pub open spec fn trim_end(t: Seq<char>) -> Seq<char>
    decreases t.len(),
{
    if t.len() > 0 && is_blank(t.last()) {
        trim_end(t.drop_last())
    } else {
        t
    }
}

/// Cutting the trailing blanks of `t` leaves a prefix of `t` that is empty or
/// ends in a character that is not a blank, and cuts only blanks.
pub proof fn lemma_trim_end(t: Seq<char>)
    ensures
        trim_end(t).len() <= t.len(),
        trim_end(t) == t.subrange(0, trim_end(t).len() as int),
        trim_end(t).len() > 0 ==> !is_blank(trim_end(t).last()),
        forall|j: int| trim_end(t).len() <= j < t.len() ==> is_blank(#[trigger] t[j]),
    decreases t.len(),
{
    if t.len() > 0 && is_blank(t.last()) {
        lemma_trim_end(t.drop_last());
        assert forall|j: int| trim_end(t).len() <= j < t.len() implies is_blank(#[trigger] t[j]) by {
            if j < t.len() - 1 {
                assert(t[j] == t.drop_last()[j]);
            }
        }
        assert(t.drop_last().subrange(0, trim_end(t).len() as int) =~= t.subrange(0, trim_end(t).len() as int));
    } else {
        assert(t.subrange(0, t.len() as int) =~= t);
    }
}

/// The contents, without their trailing blanks, of the physical lines of `s`
/// from position `i` on that carry the label `label`, one after the other.
pub open spec fn continuation(s: Seq<char>, i: int, label: Seq<char>) -> Seq<char>
    decreases s.len() - i,
{
    if i >= s.len() {
        Seq::empty()
    } else {
        proof {
            lemma_scan(s, i, s.len() as int, Stop::Newline);
        }
        (if label_of(s, i) == label {
            trim_end(content_of(s, i))
        } else {
            Seq::empty()
        }) + continuation(s, next_line(s, i), label)
    }
}

/// The characters a signal line yields over time: its content without trailing
/// blanks, then, for a labeled line, the contents of the later lines of that label.
pub open spec fn line_stream(l: LineView) -> Seq<char> {
    trim_end(l.1) + if l.0.len() > 0 {
        continuation(l.2, 0, l.0)
    } else {
        Seq::empty()
    }
}

/// What a signal line yields: its content without trailing blanks; for a labeled
/// line, followed by the contents, without trailing blanks, of the later lines
/// with exactly its label, in order.
pub proof fn lemma_line_stream(l: LineView)
    ensures
        l.0.len() == 0 ==> line_stream(l) == trim_end(l.1),
        l.0.len() > 0 ==> line_stream(l) == trim_end(l.1) + continuation(l.2, 0, l.0),
{
    assert(trim_end(l.1) + Seq::<char>::empty() =~= trim_end(l.1));
}

pub proof fn lemma_next_line(s: Seq<char>, i: int)
    requires
        0 <= i < s.len(),
    ensures
        i <= line_end(s, i) <= s.len(),
        i < next_line(s, i) <= s.len(),
        line_end(s, i) < s.len() ==> line_end(s, i) < next_line(s, i),
        i <= text_at(s, i) <= colon_at(s, i) <= comment_at(s, i) <= line_end(s, i),
        text_at(s, i) <= content_at(s, i) <= comment_at(s, i),
{
    lemma_scan(s, i, s.len() as int, Stop::Newline);
    lemma_scan(s, i, line_end(s, i), Stop::At('#'));
    lemma_scan(s, i, comment_at(s, i), Stop::NotBlank);
    lemma_scan(s, text_at(s, i), comment_at(s, i), Stop::At(':'));
    if has_label(s, i) {
        lemma_scan(s, colon_at(s, i) + 1, comment_at(s, i), Stop::NotBlank);
    }
}

/// How the physical line at `i` splits: it runs to its first line terminator
/// (the next line starts after it, after both characters of a `"\r\n"`); its
/// comment starts at its first `#`; its text starts at the first character that
/// is not a blank; it has a label exactly when a `:` stands before the comment,
/// and the label is the text up to the first `:`; its content starts at the
/// first character after the label (or at the text) that is not a blank, and
/// runs to the comment.
pub proof fn lemma_line_parts(s: Seq<char>, i: int)
    requires
        0 <= i < s.len(),
    ensures
        ({
            let e = line_end(s, i);
            &&& i <= e <= s.len()
            &&& forall|j: int| i <= j < e ==> !is_newline(#[trigger] s[j])
            &&& e < s.len() ==> is_newline(s[e])
            &&& next_line(s, i) == if e == s.len() {
                e
            } else if s[e] == '\r' && e + 1 < s.len() && s[e + 1] == '\n' {
                e + 2
            } else {
                e + 1
            }
        }),
        ({
            let c = comment_at(s, i);
            &&& i <= c <= line_end(s, i)
            &&& forall|j: int| i <= j < c ==> #[trigger] s[j] != '#'
            &&& c < line_end(s, i) ==> s[c] == '#'
        }),
        ({
            let t = text_at(s, i);
            &&& i <= t <= comment_at(s, i)
            &&& forall|j: int| i <= j < t ==> is_blank(#[trigger] s[j])
            &&& t < comment_at(s, i) ==> !is_blank(s[t])
        }),
        has_label(s, i) == exists|j: int| text_at(s, i) <= j < comment_at(s, i) && #[trigger] s[j] == ':',
        has_label(s, i) ==> ({
            let k = colon_at(s, i);
            let a = content_at(s, i);
            &&& text_at(s, i) <= k < a <= comment_at(s, i)
            &&& s[k] == ':'
            &&& forall|j: int| text_at(s, i) <= j < k ==> #[trigger] s[j] != ':'
            &&& label_of(s, i) == s.subrange(text_at(s, i), k)
            &&& forall|j: int| k < j < a ==> is_blank(#[trigger] s[j])
            &&& a < comment_at(s, i) ==> !is_blank(s[a])
            &&& content_of(s, i) == s.subrange(a, comment_at(s, i))
        }),
        !has_label(s, i) ==> label_of(s, i) == Seq::<char>::empty() && content_of(s, i) == s.subrange(
            text_at(s, i),
            comment_at(s, i),
        ),
{
    lemma_next_line(s, i);
    lemma_scan(s, i, s.len() as int, Stop::Newline);
    lemma_scan(s, i, line_end(s, i), Stop::At('#'));
    lemma_scan(s, i, comment_at(s, i), Stop::NotBlank);
    lemma_scan(s, text_at(s, i), comment_at(s, i), Stop::At(':'));
    if has_label(s, i) {
        lemma_scan(s, colon_at(s, i) + 1, comment_at(s, i), Stop::NotBlank);
    }
}

/// Finding lines never takes a signal line back.
pub proof fn lemma_lines_grow(s: Seq<char>, i: int, acc: Seq<LineView>)
    requires
        0 <= i,
    ensures
        lines_from(s, i, acc).len() >= acc.len(),
    decreases s.len() - i,
{
    if i < s.len() {
        lemma_next_line(s, i);
        lemma_lines_grow(
            s,
            next_line(s, i),
            add_line(acc, label_of(s, i), content_of(s, i), remain_after(s, next_line(s, i))),
        );
    }
}

/// Splitting on from a position keeps every signal line found before it, in place.
pub proof fn lemma_lines_from_keeps(s: Seq<char>, i: int, acc: Seq<LineView>)
    requires
        0 <= i,
    ensures
        lines_from(s, i, acc).len() >= acc.len(),
        forall|k: int| 0 <= k < acc.len() ==> #[trigger] lines_from(s, i, acc)[k] == acc[k],
    decreases s.len() - i,
{
    if i < s.len() {
        lemma_next_line(s, i);
        let next = add_line(acc, label_of(s, i), content_of(s, i), remain_after(s, next_line(s, i)));
        lemma_add_line_cases(acc, label_of(s, i), content_of(s, i), remain_after(s, next_line(s, i)));
        lemma_lines_from_keeps(s, next_line(s, i), next);
        assert forall|k: int| 0 <= k < acc.len() implies #[trigger] lines_from(s, i, acc)[k] == acc[k] by {
            assert(next[k] == acc[k]);
        }
    }
}

/// Every physical line with content gives a signal line: when the line at `i`
/// has a label, the signal lines found from `i` on carry that label (a new one
/// unless an earlier signal line carries exactly that label); when it has none,
/// they include a new unlabeled line with its content.
pub proof fn lemma_line_with_content_kept(s: Seq<char>, i: int, acc: Seq<LineView>)
    requires
        0 <= i < s.len(),
        content_of(s, i).len() > 0,
    ensures
        label_of(s, i).len() > 0 ==> exists|k: int|
            0 <= k < lines_from(s, i, acc).len() && (#[trigger] lines_from(s, i, acc)[k]).0 == label_of(s, i),
        label_of(s, i).len() > 0 && (forall|j: int| 0 <= j < acc.len() ==> (#[trigger] acc[j]).0 != label_of(s, i))
            ==> lines_from(s, i, acc)[acc.len() as int] == (
            label_of(s, i),
            content_of(s, i),
            remain_after(s, next_line(s, i)),
        ),
        label_of(s, i).len() == 0 ==> lines_from(s, i, acc)[acc.len() as int] == (
            Seq::<char>::empty(),
            content_of(s, i),
            Seq::<char>::empty(),
        ),
{
    lemma_next_line(s, i);
    let label = label_of(s, i);
    let next = add_line(acc, label, content_of(s, i), remain_after(s, next_line(s, i)));
    lemma_add_line_cases(acc, label, content_of(s, i), remain_after(s, next_line(s, i)));
    lemma_lines_from_keeps(s, next_line(s, i), next);
    assert(lines_from(s, i, acc) == lines_from(s, next_line(s, i), next));
    if label.len() > 0 {
        if exists|j: int| 0 <= j < acc.len() && (#[trigger] acc[j]).0 == label {
            let j = choose|j: int| 0 <= j < acc.len() && (#[trigger] acc[j]).0 == label;
            assert(lines_from(s, i, acc)[j] == next[j]);
        } else {
            assert(lines_from(s, i, acc)[acc.len() as int] == next[acc.len() as int]);
        }
    } else {
        assert(lines_from(s, i, acc)[acc.len() as int] == next[acc.len() as int]);
    }
}

/// Signal lines as the splitting produces them: each has content, an unlabeled
/// line has no remaining text, and no two lines share a label.
pub open spec fn lines_well_formed(lines: Seq<LineView>) -> bool {
    &&& forall|k: int| 0 <= k < lines.len() ==> (#[trigger] lines[k]).1.len() > 0
    &&& forall|k: int| 0 <= k < lines.len() && (#[trigger] lines[k]).0.len() == 0 ==> lines[k].2.len() == 0
    &&& forall|i: int, j: int|
        0 <= i < j < lines.len() && (#[trigger] lines[i]).0.len() > 0 ==> lines[i].0 != (#[trigger] lines[j]).0
}

proof fn lemma_add_line_well_formed(
    acc: Seq<LineView>,
    label: Seq<char>,
    content: Seq<char>,
    remain: Seq<char>,
)
    requires
        lines_well_formed(acc),
    ensures
        lines_well_formed(add_line(acc, label, content, remain)),
{
    let r = add_line(acc, label, content, remain);
    if r.len() > acc.len() {
        assert forall|i: int, j: int|
            0 <= i < j < r.len() && (#[trigger] r[i]).0.len() > 0 implies r[i].0 != (#[trigger] r[j]).0 by {
            if j == acc.len() && label.len() > 0 {
                assert(acc[i].0 == r[i].0);
                if r[i].0 == label {
                    assert(knows_label(acc, label));
                }
            }
        }
    }
}

proof fn lemma_lines_from_well_formed(s: Seq<char>, i: int, acc: Seq<LineView>)
    requires
        0 <= i,
        lines_well_formed(acc),
    ensures
        lines_well_formed(lines_from(s, i, acc)),
    decreases s.len() - i,
{
    if i < s.len() {
        lemma_next_line(s, i);
        let next = add_line(acc, label_of(s, i), content_of(s, i), remain_after(s, next_line(s, i)));
        lemma_add_line_well_formed(acc, label_of(s, i), content_of(s, i), remain_after(s, next_line(s, i)));
        lemma_lines_from_well_formed(s, next_line(s, i), next);
    }
}

/// Every signal line of a text has content, an unlabeled one carries no remaining
/// text, and lines with the same label are joined: no two signal lines share a label.
pub proof fn lemma_text_lines_well_formed(s: Seq<char>)
    ensures
        lines_well_formed(text_lines(s)),
{
    lemma_lines_from_well_formed(s, 0, Seq::empty());
}

/// `t` holds no line terminator and no `#`.
pub open spec fn one_line_text(t: Seq<char>) -> bool {
    forall|j: int| 0 <= j < t.len() ==> !is_newline(#[trigger] t[j]) && t[j] != '#'
}

/// How a signal line of `s` looks: its content holds no line terminator and no
/// comment and does not start with a blank; its label holds no line terminator,
/// comment or `:` and does not start with a blank; and its remaining text is the
/// end of `s` and does not start with a line terminator.
pub open spec fn line_shape(s: Seq<char>, l: LineView) -> bool {
    &&& one_line_text(l.1)
    &&& l.1.len() > 0 ==> !is_blank(l.1[0])
    &&& one_line_text(l.0)
    &&& forall|j: int| 0 <= j < l.0.len() ==> #[trigger] l.0[j] != ':'
    &&& l.0.len() > 0 ==> !is_blank(l.0[0])
    &&& exists|j: int| 0 <= j <= s.len() && l.2 == #[trigger] s.subrange(j, s.len() as int)
    &&& l.2.len() > 0 ==> !is_newline(l.2[0])
}

/// The parts of the physical line at `i` have the shape of a signal line.
proof fn lemma_line_parts_shape(s: Seq<char>, i: int)
    requires
        0 <= i < s.len(),
    ensures
        line_shape(
            s,
            (label_of(s, i), content_of(s, i), remain_after(s, next_line(s, i))),
        ),
        line_shape(s, (label_of(s, i), content_of(s, i), Seq::empty())),
{
    lemma_next_line(s, i);
    let e = line_end(s, i);
    let c = comment_at(s, i);
    let t = text_at(s, i);
    let k = colon_at(s, i);
    lemma_scan(s, i, s.len() as int, Stop::Newline);
    lemma_scan(s, i, e, Stop::At('#'));
    lemma_scan(s, i, c, Stop::NotBlank);
    lemma_scan(s, t, c, Stop::At(':'));
    if has_label(s, i) {
        lemma_scan(s, k + 1, c, Stop::NotBlank);
    }
    let content = content_of(s, i);
    assert forall|j: int| 0 <= j < content.len() implies !is_newline(#[trigger] content[j]) && content[j]
        != '#' by {
        assert(content[j] == s[content_at(s, i) + j]);
    }
    let label = label_of(s, i);
    assert forall|j: int| 0 <= j < label.len() implies !is_newline(#[trigger] label[j]) && label[j]
        != '#' && label[j] != ':' by {
        assert(label[j] == s[t + j]);
    }
    let n = next_line(s, i);
    lemma_scan(s, n, s.len() as int, Stop::NotNewline);
    let r = scan(s, n, s.len() as int, Stop::NotNewline);
    assert(remain_after(s, n) == s.subrange(r, s.len() as int));
    assert(Seq::<char>::empty() =~= s.subrange(s.len() as int, s.len() as int));
}

/// Every signal line of `s` has the shape of a signal line of `s`.
pub open spec fn lines_shaped(s: Seq<char>, lines: Seq<LineView>) -> bool {
    forall|k: int| 0 <= k < lines.len() ==> line_shape(s, #[trigger] lines[k])
}

proof fn lemma_lines_from_shaped(s: Seq<char>, i: int, acc: Seq<LineView>)
    requires
        0 <= i,
        lines_shaped(s, acc),
    ensures
        lines_shaped(s, lines_from(s, i, acc)),
    decreases s.len() - i,
{
    if i < s.len() {
        lemma_next_line(s, i);
        lemma_line_parts_shape(s, i);
        let label = label_of(s, i);
        let content = content_of(s, i);
        let remain = remain_after(s, next_line(s, i));
        let next = add_line(acc, label, content, remain);
        if content.len() > 0 && label.len() == 0 {
            assert(label =~= Seq::<char>::empty());
        }
        assert(lines_shaped(s, next));
        lemma_lines_from_shaped(s, next_line(s, i), next);
    }
}

/// Each signal line of a text is cut out of one of its lines: its content holds
/// no line terminator or comment and starts with no blank; its label holds no
/// line terminator, comment or `:` and starts with no blank; its remaining text is
/// an end of the text that does not start with a line terminator.
pub proof fn lemma_text_lines_shaped(s: Seq<char>)
    ensures
        lines_shaped(s, text_lines(s)),
{
    lemma_lines_from_shaped(s, 0, Seq::empty());
}

/// A scan of `x + s` past `x` is the scan of `s`, moved by the length of `x`.
proof fn lemma_scan_shift(x: Seq<char>, s: Seq<char>, from: int, end: int, k: Stop)
    requires
        0 <= from <= end <= s.len(),
    ensures
        scan(x + s, x.len() + from, x.len() + end, k) == x.len() + scan(s, from, end, k),
    decreases end - from,
{
    if from < end {
        assert((x + s)[x.len() + from] == s[from]);
        lemma_scan_shift(x, s, from + 1, end, k);
    }
}

/// A scan passes over characters that do not stop it.
proof fn lemma_scan_skip(t: Seq<char>, from: int, mid: int, end: int, k: Stop)
    requires
        from <= mid <= end,
        forall|j: int| from <= j < mid ==> !stops(k, #[trigger] t[j]),
    ensures
        scan(t, from, end, k) == scan(t, mid, end, k),
    decreases mid - from,
{
    if from < mid {
        lemma_scan_skip(t, from + 1, mid, end, k);
    }
}

/// The text that remains after a position of `s` is the same in `x + s`.
proof fn lemma_remain_shift(x: Seq<char>, s: Seq<char>, m: int)
    requires
        0 <= m <= s.len(),
    ensures
        remain_after(x + s, x.len() + m) == remain_after(s, m),
{
    let t = x + s;
    lemma_scan_shift(x, s, m, s.len() as int, Stop::NotNewline);
    lemma_scan(s, m, s.len() as int, Stop::NotNewline);
    let r = scan(s, m, s.len() as int, Stop::NotNewline);
    assert(t.len() == x.len() + s.len());
    assert(t.subrange(x.len() + r, t.len() as int) =~= s.subrange(r, s.len() as int));
}

/// The physical line at `i` of `s` has the same parts in `x + s`, moved by the length of `x`.
proof fn lemma_line_shift(x: Seq<char>, s: Seq<char>, i: int)
    requires
        0 <= i < s.len(),
    ensures
        next_line(x + s, x.len() + i) == x.len() + next_line(s, i),
        label_of(x + s, x.len() + i) == label_of(s, i),
        content_of(x + s, x.len() + i) == content_of(s, i),
        remain_after(x + s, next_line(x + s, x.len() + i)) == remain_after(s, next_line(s, i)),
{
    let t = x + s;
    let n = x.len() as int;
    assert(t.len() == n + s.len());
    lemma_next_line(s, i);
    lemma_scan_shift(x, s, i, s.len() as int, Stop::Newline);
    let e = line_end(s, i);
    assert(line_end(t, n + i) == n + e);
    if e < s.len() {
        assert(t[n + e] == s[e]);
        if e + 1 < s.len() {
            assert(t[n + e + 1] == s[e + 1]);
        }
    }
    lemma_scan_shift(x, s, i, e, Stop::At('#'));
    let c = comment_at(s, i);
    lemma_scan_shift(x, s, i, c, Stop::NotBlank);
    lemma_scan_shift(x, s, text_at(s, i), c, Stop::At(':'));
    if has_label(s, i) {
        lemma_scan_shift(x, s, colon_at(s, i) + 1, c, Stop::NotBlank);
        assert(label_of(t, n + i) =~= label_of(s, i));
    } else {
        assert(label_of(t, n + i) =~= label_of(s, i));
    }
    assert(content_of(t, n + i) =~= content_of(s, i));
    lemma_remain_shift(x, s, next_line(s, i));
}

/// Splitting `x + s` from a position past `x` splits `s` from that position.
proof fn lemma_lines_from_shift(x: Seq<char>, s: Seq<char>, i: int, acc: Seq<LineView>)
    requires
        0 <= i,
    ensures
        lines_from(x + s, x.len() + i, acc) == lines_from(s, i, acc),
    decreases s.len() - i,
{
    assert((x + s).len() == x.len() + s.len());
    if i < s.len() {
        lemma_next_line(s, i);
        lemma_line_shift(x, s, i);
        let next = add_line(acc, label_of(s, i), content_of(s, i), remain_after(s, next_line(s, i)));
        lemma_lines_from_shift(x, s, next_line(s, i), next);
    }
}

/// `b` is one whole line, with or without its terminator, that holds only
/// blanks, maybe followed by a comment.
pub open spec fn blank_line(b: Seq<char>) -> bool {
    &&& b.len() > 0
    &&& next_line(b, 0) == b.len()
    &&& text_at(b, 0) == comment_at(b, 0)
}

proof fn lemma_scan_prefix(b: Seq<char>, s: Seq<char>, from: int, end: int, k: Stop)
    requires
        0 <= from <= end <= b.len(),
    ensures
        scan(b + s, from, end, k) == scan(b, from, end, k),
    decreases end - from,
{
    if from < end {
        assert((b + s)[from] == b[from]);
        lemma_scan_prefix(b, s, from + 1, end, k);
    }
}

/// The line `b` opens `b + s` with no label and no content, and the next line starts after it.
proof fn lemma_blank_line_parts(b: Seq<char>, s: Seq<char>)
    requires
        blank_line(b),
        line_start(b + s, b.len() as int),
    ensures
        label_of(b + s, 0) == Seq::<char>::empty(),
        content_of(b + s, 0) == Seq::<char>::empty(),
        next_line(b + s, 0) == b.len(),
{
    lemma_line_prefix(b, s, 0);
    lemma_next_line(b, 0);
    assert(!has_label(b, 0));
    assert(content_of(b, 0) =~= Seq::<char>::empty());
}

/// A line of blanks or of a comment alone, put before a text, changes none of
/// the text's signal lines.
pub proof fn lemma_blank_line_first(b: Seq<char>, s: Seq<char>)
    requires
        blank_line(b),
        line_start(b + s, b.len() as int),
    ensures
        text_lines(b + s) == text_lines(s),
{
    lemma_blank_line_parts(b, s);
    assert((b + s).len() == b.len() + s.len());
    lemma_lines_from_shift(b, s, 0, Seq::empty());
}

/// Blanks put before `s` leave the parts of its first line as they were.
proof fn lemma_leading_blank_parts(x: Seq<char>, s: Seq<char>)
    requires
        forall|j: int| 0 <= j < x.len() ==> is_blank(#[trigger] x[j]),
    ensures
        label_of(x + s, 0) == label_of(s, 0),
        content_of(x + s, 0) == content_of(s, 0),
        next_line(x + s, 0) == x.len() + next_line(s, 0),
        remain_after(x + s, next_line(x + s, 0)) == remain_after(s, next_line(s, 0)),
{
    let t = x + s;
    let n = x.len() as int;
    assert(t.len() == n + s.len());
    assert forall|j: int| 0 <= j < n implies is_blank(#[trigger] t[j]) by {
        assert(t[j] == x[j]);
    }
    lemma_scan_skip(t, 0, n, t.len() as int, Stop::Newline);
    lemma_scan_shift(x, s, 0, s.len() as int, Stop::Newline);
    let e = line_end(s, 0);
    lemma_scan(s, 0, s.len() as int, Stop::Newline);
    assert(line_end(t, 0) == n + e);
    if e < s.len() {
        assert(t[n + e] == s[e]);
        if e + 1 < s.len() {
            assert(t[n + e + 1] == s[e + 1]);
        }
    }
    assert(next_line(t, 0) == n + next_line(s, 0));
    lemma_scan_skip(t, 0, n, n + e, Stop::At('#'));
    lemma_scan_shift(x, s, 0, e, Stop::At('#'));
    let c = comment_at(s, 0);
    lemma_scan(s, 0, e, Stop::At('#'));
    lemma_scan_skip(t, 0, n, n + c, Stop::NotBlank);
    lemma_scan_shift(x, s, 0, c, Stop::NotBlank);
    lemma_scan(s, 0, c, Stop::NotBlank);
    lemma_scan_shift(x, s, text_at(s, 0), c, Stop::At(':'));
    lemma_scan(s, text_at(s, 0), c, Stop::At(':'));
    if has_label(s, 0) {
        lemma_scan_shift(x, s, colon_at(s, 0) + 1, c, Stop::NotBlank);
        lemma_scan(s, colon_at(s, 0) + 1, c, Stop::NotBlank);
    }
    assert(label_of(t, 0) =~= label_of(s, 0));
    assert(content_of(t, 0) =~= content_of(s, 0));
    if s.len() > 0 {
        lemma_next_line(s, 0);
    }
    lemma_remain_shift(x, s, next_line(s, 0));
}

/// Splitting `x + s`, for blanks `x`, gives what splitting `s` gives.
proof fn lemma_leading_blanks_from(x: Seq<char>, s: Seq<char>, acc: Seq<LineView>)
    requires
        forall|j: int| 0 <= j < x.len() ==> is_blank(#[trigger] x[j]),
    ensures
        lines_from(x + s, 0, acc) == lines_from(s, 0, acc),
{
    let t = x + s;
    assert(t.len() == x.len() + s.len());
    if t.len() > 0 {
        lemma_leading_blank_parts(x, s);
        let next = add_line(acc, label_of(s, 0), content_of(s, 0), remain_after(s, next_line(s, 0)));
        if s.len() > 0 {
            lemma_next_line(s, 0);
            lemma_lines_from_shift(x, s, next_line(s, 0), next);
        } else {
            assert(content_of(s, 0) =~= Seq::<char>::empty());
            assert(lines_from(t, 0, acc) == lines_from(t, x.len() as int, acc));
        }
    }
}

/// The continuation of a label in `x + s`, for blanks `x`, is its continuation in `s`.
proof fn lemma_leading_blanks_continuation(x: Seq<char>, s: Seq<char>, label: Seq<char>)
    requires
        forall|j: int| 0 <= j < x.len() ==> is_blank(#[trigger] x[j]),
    ensures
        continuation(x + s, 0, label) == continuation(s, 0, label),
{
    let t = x + s;
    assert(t.len() == x.len() + s.len());
    if t.len() > 0 {
        lemma_leading_blank_parts(x, s);
        if s.len() > 0 {
            lemma_next_line(s, 0);
            lemma_continuation_shift(x, s, next_line(s, 0), label);
        } else {
            assert(content_of(s, 0) =~= Seq::<char>::empty());
            assert(trim_end(Seq::<char>::empty()) =~= Seq::<char>::empty());
            assert(continuation(t, 0, label) =~= continuation(t, x.len() as int, label));
        }
    }
}

/// Blanks put before a text change none of its signal lines.
pub proof fn lemma_leading_blanks(x: Seq<char>, s: Seq<char>)
    requires
        forall|j: int| 0 <= j < x.len() ==> is_blank(#[trigger] x[j]),
    ensures
        text_lines(x + s) == text_lines(s),
{
    lemma_leading_blanks_from(x, s, Seq::empty());
}

/// A scan that stops inside a window stops at the same place in any wider window.
proof fn lemma_scan_cut(t: Seq<char>, from: int, e1: int, e2: int, k: Stop)
    requires
        from <= e1 <= e2,
        scan(t, from, e1, k) < e1,
    ensures
        scan(t, from, e2, k) == scan(t, from, e1, k),
    decreases e1 - from,
{
    if !stops(k, t[from]) {
        lemma_scan_cut(t, from + 1, e1, e2, k);
    }
}

/// `i` starts a line of `t`: it is the start or the end of `t`, or it follows a
/// complete line terminator, a `'\n'` or a `'\r'` that no `'\n'` follows.
pub open spec fn line_start(t: Seq<char>, i: int) -> bool {
    ||| i == 0
    ||| i == t.len()
    ||| 0 < i < t.len() && (t[i - 1] == '\n' || (t[i - 1] == '\r' && t[i] != '\n'))
}

/// When `p` ends where a line of `p + r` starts, the physical line at `i` of `p`
/// has the same parts whatever follows `p`.
proof fn lemma_line_prefix(p: Seq<char>, r: Seq<char>, i: int)
    requires
        0 <= i < p.len(),
        line_start(p + r, p.len() as int),
    ensures
        next_line(p + r, i) == next_line(p, i),
        label_of(p + r, i) == label_of(p, i),
        content_of(p + r, i) == content_of(p, i),
{
    let t = p + r;
    let n = p.len() as int;
    if r.len() == 0 {
        assert(t =~= p);
    } else {
        assert(t.len() == n + r.len());
        assert(t[n - 1] == p[n - 1]);
        assert(t[n] == r[0]);
        lemma_next_line(p, i);
        lemma_scan(p, i, n, Stop::Newline);
        let e = line_end(p, i);
        assert(e < n);
        lemma_scan_prefix(p, r, i, n, Stop::Newline);
        lemma_scan_cut(t, i, n, t.len() as int, Stop::Newline);
        assert(line_end(t, i) == e);
        assert(t[e] == p[e]);
        if e + 1 < n {
            assert(t[e + 1] == p[e + 1]);
        }
        lemma_scan_prefix(p, r, i, e, Stop::At('#'));
        let c = comment_at(p, i);
        lemma_scan_prefix(p, r, i, c, Stop::NotBlank);
        lemma_scan_prefix(p, r, text_at(p, i), c, Stop::At(':'));
        if has_label(p, i) {
            lemma_scan_prefix(p, r, colon_at(p, i) + 1, c, Stop::NotBlank);
        }
        assert(label_of(t, i) =~= label_of(p, i));
        assert(content_of(t, i) =~= content_of(p, i));
    }
}

/// The continuation of a label in `x + s` past `x` is its continuation in `s`.
proof fn lemma_continuation_shift(x: Seq<char>, s: Seq<char>, i: int, label: Seq<char>)
    requires
        0 <= i,
    ensures
        continuation(x + s, x.len() + i, label) == continuation(s, i, label),
    decreases s.len() - i,
{
    assert((x + s).len() == x.len() + s.len());
    if i < s.len() {
        lemma_next_line(s, i);
        lemma_line_shift(x, s, i);
        lemma_continuation_shift(x, s, next_line(s, i), label);
    }
}

/// Line terminators alone add nothing to the continuation of a label.
proof fn lemma_continuation_newlines(s: Seq<char>, m: int, r: int, label: Seq<char>)
    requires
        0 <= m <= r <= s.len(),
        label.len() > 0,
        forall|j: int| m <= j < r ==> is_newline(#[trigger] s[j]),
        r < s.len() ==> !is_newline(s[r]),
    ensures
        continuation(s, m, label) == continuation(s, r, label),
    decreases r - m,
{
    if m < r {
        lemma_next_line(s, m);
        assert(line_end(s, m) == m);
        assert(!has_label(s, m));
        assert(label_of(s, m) != label);
        if s[m] == '\r' && m + 1 < s.len() && s[m + 1] == '\n' {
            assert(is_newline(s[m + 1]));
        }
        lemma_continuation_newlines(s, next_line(s, m), r, label);
        assert(continuation(s, m, label) =~= continuation(s, next_line(s, m), label));
    }
}

/// The continuation of a label in the text that remains after a position is its
/// continuation from that position.
proof fn lemma_remain_continuation(s: Seq<char>, m: int, label: Seq<char>)
    requires
        0 <= m <= s.len(),
        label.len() > 0,
    ensures
        continuation(remain_after(s, m), 0, label) == continuation(s, m, label),
{
    let r = scan(s, m, s.len() as int, Stop::NotNewline);
    lemma_scan(s, m, s.len() as int, Stop::NotNewline);
    lemma_continuation_newlines(s, m, r, label);
    let x = s.subrange(0, r);
    let y = s.subrange(r, s.len() as int);
    assert(s =~= x + y);
    lemma_continuation_shift(x, y, 0, label);
}

/// Splitting `u` and splitting `v` give signal lines with the same streams, and
/// every label continues alike in both.
pub open spec fn same_after(u: Seq<char>, v: Seq<char>) -> bool {
    &&& forall|a: Seq<LineView>, c: Seq<LineView>|
        same_streams(a, c) ==> same_streams(#[trigger] lines_from(u, 0, a), #[trigger] lines_from(v, 0, c))
    &&& forall|label: Seq<char>| #[trigger] continuation(u, 0, label) == continuation(v, 0, label)
}

/// Two texts that continue alike, put after `p`, continue a label alike from any
/// position of `p`.
proof fn lemma_continuation_inserted(p: Seq<char>, u: Seq<char>, v: Seq<char>, j: int, label: Seq<char>)
    requires
        line_start(p + u, p.len() as int),
        line_start(p + v, p.len() as int),
        same_after(u, v),
        0 <= j <= p.len(),
    ensures
        continuation(p + u, j, label) == continuation(p + v, j, label),
    decreases p.len() - j,
{
    if j < p.len() {
        lemma_line_prefix(p, u, j);
        lemma_line_prefix(p, v, j);
        lemma_next_line(p, j);
        assert((p + u).len() > j && (p + v).len() > j);
        lemma_continuation_inserted(p, u, v, next_line(p, j), label);
    } else {
        lemma_continuation_shift(p, u, 0, label);
        lemma_continuation_shift(p, v, 0, label);
        assert(continuation(u, 0, label) == continuation(v, 0, label));
    }
}

/// Two lists of signal lines that carry the same labels, in the same order, and
/// whose lines yield the same characters.
pub open spec fn same_streams(a: Seq<LineView>, c: Seq<LineView>) -> bool {
    &&& a.len() == c.len()
    &&& forall|k: int| 0 <= k < a.len() ==> (#[trigger] a[k]).0 == c[k].0
    &&& forall|k: int| 0 <= k < a.len() ==> line_stream(#[trigger] a[k]) == line_stream(c[k])
}

proof fn lemma_add_line_same(
    a: Seq<LineView>,
    c: Seq<LineView>,
    label: Seq<char>,
    ca: Seq<char>,
    cc: Seq<char>,
    ra: Seq<char>,
    rc: Seq<char>,
)
    requires
        same_streams(a, c),
        ca.len() == 0 <==> cc.len() == 0,
        trim_end(ca) == trim_end(cc),
        label.len() > 0 ==> continuation(ra, 0, label) == continuation(rc, 0, label),
    ensures
        same_streams(add_line(a, label, ca, ra), add_line(c, label, cc, rc)),
{
    if knows_label(a, label) {
        let j = choose|j: int| 0 <= j < a.len() && (#[trigger] a[j]).0 == label;
        assert(c[j].0 == label);
    }
    if knows_label(c, label) {
        let j = choose|j: int| 0 <= j < c.len() && (#[trigger] c[j]).0 == label;
        assert(a[j].0 == label);
    }
    let x = add_line(a, label, ca, ra);
    let y = add_line(c, label, cc, rc);
    assert forall|k: int| 0 <= k < x.len() implies line_stream(#[trigger] x[k]) == line_stream(y[k]) by {
        if k < a.len() {
            assert(x[k] == a[k] && y[k] == c[k]);
        }
    }
}

/// Splitting one text after lists with the same streams gives lists with the same streams.
proof fn lemma_lines_from_same(s: Seq<char>, i: int, a: Seq<LineView>, c: Seq<LineView>)
    requires
        0 <= i,
        same_streams(a, c),
    ensures
        same_streams(lines_from(s, i, a), lines_from(s, i, c)),
    decreases s.len() - i,
{
    if i < s.len() {
        lemma_next_line(s, i);
        let r = remain_after(s, next_line(s, i));
        lemma_add_line_same(a, c, label_of(s, i), content_of(s, i), content_of(s, i), r, r);
        lemma_lines_from_same(
            s,
            next_line(s, i),
            add_line(a, label_of(s, i), content_of(s, i), r),
            add_line(c, label_of(s, i), content_of(s, i), r),
        );
    }
}

proof fn lemma_lines_from_inserted(
    p: Seq<char>,
    u: Seq<char>,
    v: Seq<char>,
    i: int,
    a: Seq<LineView>,
    c: Seq<LineView>,
)
    requires
        line_start(p + u, p.len() as int),
        line_start(p + v, p.len() as int),
        same_after(u, v),
        0 <= i <= p.len(),
        same_streams(a, c),
    ensures
        same_streams(lines_from(p + u, i, a), lines_from(p + v, i, c)),
    decreases p.len() - i,
{
    let t2 = p + u;
    let t1 = p + v;
    assert(t2.len() == p.len() + u.len());
    assert(t1.len() == p.len() + v.len());
    if i < p.len() {
        lemma_line_prefix(p, u, i);
        lemma_line_prefix(p, v, i);
        lemma_next_line(p, i);
        let n = next_line(p, i);
        let label = label_of(p, i);
        if label.len() > 0 {
            lemma_remain_continuation(t2, n, label);
            lemma_remain_continuation(t1, n, label);
            lemma_continuation_inserted(p, u, v, n, label);
        }
        lemma_add_line_same(
            a,
            c,
            label,
            content_of(p, i),
            content_of(p, i),
            remain_after(t2, n),
            remain_after(t1, n),
        );
        lemma_lines_from_inserted(
            p,
            u,
            v,
            n,
            add_line(a, label, content_of(p, i), remain_after(t2, n)),
            add_line(c, label, content_of(p, i), remain_after(t1, n)),
        );
    } else {
        lemma_lines_from_shift(p, u, 0, a);
        lemma_lines_from_shift(p, v, 0, c);
        assert(same_streams(lines_from(u, 0, a), lines_from(v, 0, c)));
    }
}

/// Two texts that split alike, put after any `'\n'` of a text or before its first
/// line, leave its signal lines with the same streams.
proof fn lemma_inserted(p: Seq<char>, u: Seq<char>, v: Seq<char>)
    requires
        line_start(p + u, p.len() as int),
        line_start(p + v, p.len() as int),
        same_after(u, v),
    ensures
        same_streams(text_lines(p + u), text_lines(p + v)),
{
    lemma_lines_from_inserted(p, u, v, 0, Seq::empty(), Seq::empty());
}

/// A text `y` that, put before `q`, changes nothing of what `q` splits into.
proof fn lemma_neutral_same_after(y: Seq<char>, q: Seq<char>)
    requires
        forall|acc: Seq<LineView>| #[trigger] lines_from(y + q, 0, acc) == lines_from(q, 0, acc),
        forall|label: Seq<char>| #[trigger] continuation(y + q, 0, label) == continuation(q, 0, label),
    ensures
        same_after(y + q, q),
{
    assert forall|a: Seq<LineView>, c: Seq<LineView>|
        same_streams(a, c) implies same_streams(#[trigger] lines_from(y + q, 0, a), #[trigger] lines_from(q, 0, c)) by {
        lemma_lines_from_same(q, 0, a, c);
    }
}

/// A line of blanks or of a comment alone, put where a line of a text starts and
/// ended where a line starts, leaves the text's signal lines as they were: the
/// same labels in the same order, each line yielding the same characters.
pub proof fn lemma_blank_line_inserted(p: Seq<char>, b: Seq<char>, q: Seq<char>)
    requires
        blank_line(b),
        line_start(p + q, p.len() as int),
        line_start(p + b + q, p.len() as int),
        line_start(p + b + q, (p.len() + b.len()) as int),
    ensures
        same_streams(text_lines(p + b + q), text_lines(p + q)),
{
    let t = p + b + q;
    assert(t =~= p + (b + q));
    assert(t.len() == p.len() + b.len() + q.len());
    if q.len() > 0 {
        assert(t[p.len() + b.len() - 1] == (b + q)[b.len() - 1]);
        assert(t[(p.len() + b.len()) as int] == (b + q)[b.len() as int]);
    }
    assert(line_start(b + q, b.len() as int));
    lemma_blank_line_parts(b, q);
    assert((b + q).len() == b.len() + q.len());
    assert forall|acc: Seq<LineView>| #[trigger] lines_from(b + q, 0, acc) == lines_from(q, 0, acc) by {
        assert(lines_from(b + q, 0, acc) == lines_from(b + q, b.len() as int, acc));
        lemma_lines_from_shift(b, q, 0, acc);
    }
    assert forall|label: Seq<char>| #[trigger] continuation(b + q, 0, label) == continuation(q, 0, label) by {
        if label.len() > 0 {
            assert(label_of(b + q, 0) != label);
        }
        assert(trim_end(Seq::<char>::empty()) =~= Seq::<char>::empty());
        assert(continuation(b + q, 0, label) =~= continuation(b + q, b.len() as int, label));
        lemma_continuation_shift(b, q, 0, label);
    }
    lemma_neutral_same_after(b, q);
    lemma_inserted(p, b + q, q);
}

/// Blanks put at the start of any line of a text leave its signal lines as they
/// were: the same labels in the same order, each line yielding the same characters.
pub proof fn lemma_leading_blanks_inserted(p: Seq<char>, x: Seq<char>, q: Seq<char>)
    requires
        line_start(p + q, p.len() as int),
        line_start(p + x + q, p.len() as int),
        forall|j: int| 0 <= j < x.len() ==> is_blank(#[trigger] x[j]),
    ensures
        same_streams(text_lines(p + x + q), text_lines(p + q)),
{
    assert forall|acc: Seq<LineView>| #[trigger] lines_from(x + q, 0, acc) == lines_from(q, 0, acc) by {
        lemma_leading_blanks_from(x, q, acc);
    }
    assert forall|label: Seq<char>| #[trigger] continuation(x + q, 0, label) == continuation(q, 0, label) by {
        lemma_leading_blanks_continuation(x, q, label);
    }
    lemma_neutral_same_after(x, q);
    assert(p + x + q =~= p + (x + q));
    lemma_inserted(p, x + q, q);
}

/// `y` holds no line terminator, and its first character that is not a blank,
/// if it has one, starts a comment.
pub open spec fn line_trailer(y: Seq<char>) -> bool {
    &&& forall|j: int| 0 <= j < y.len() ==> !is_newline(#[trigger] y[j])
    &&& scan(y, 0, y.len() as int, Stop::NotBlank) < y.len() ==> y[scan(y, 0, y.len() as int, Stop::NotBlank)]
        == '#'
}

/// Blanks at the end of a text are cut away with the text's own trailing blanks.
proof fn lemma_trim_end_blanks(c: Seq<char>, z: Seq<char>)
    requires
        forall|j: int| 0 <= j < z.len() ==> is_blank(#[trigger] z[j]),
    ensures
        trim_end(c + z) == trim_end(c),
    decreases z.len(),
{
    if z.len() > 0 {
        assert(is_blank(z[z.len() - 1]));
        assert((c + z).last() == z[z.len() - 1]);
        assert((c + z).drop_last() =~= c + z.drop_last());
        lemma_trim_end_blanks(c, z.drop_last());
    } else {
        assert(c + z =~= c);
    }
}

/// Where the line `w` ends, before and after the trailer `y` is put at its end.
proof fn lemma_trailer_lines(w: Seq<char>, y: Seq<char>, q: Seq<char>)
    requires
        forall|j: int| 0 <= j < w.len() ==> !is_newline(#[trigger] w[j]),
        line_trailer(y),
        q.len() == 0 || is_newline(q[0]),
    ensures
        line_end(w + q, 0) == w.len(),
        line_end(w + (y + q), 0) == w.len() + y.len(),
        next_line(w + q, 0) == w.len() + next_line(q, 0),
        next_line(w + (y + q), 0) == w.len() + y.len() + next_line(q, 0),
{
    let u1 = w + q;
    let u2 = w + (y + q);
    let nw = w.len() as int;
    let ny = y.len() as int;
    assert(u1.len() == nw + q.len());
    assert(u2.len() == nw + ny + q.len());
    assert forall|j: int| 0 <= j < nw implies #[trigger] u1[j] == w[j] by {}
    assert forall|j: int| 0 <= j < nw implies #[trigger] u2[j] == w[j] by {}
    assert forall|j: int| nw <= j < nw + ny implies #[trigger] u2[j] == y[j - nw] by {}
    lemma_scan(u1, 0, u1.len() as int, Stop::Newline);
    lemma_scan(u2, 0, u2.len() as int, Stop::Newline);
    if q.len() > 0 {
        assert(u1[nw] == q[0]);
        assert(u2[nw + ny] == q[0]);
        lemma_scan(q, 0, q.len() as int, Stop::Newline);
        assert(line_end(q, 0) == 0);
        if q.len() > 1 {
            assert(u1[nw + 1] == q[1]);
            assert(u2[nw + ny + 1] == q[1]);
        }
    }
}

/// A trailer put after a comment of the line `w` changes nothing of the line.
proof fn lemma_trailer_after_comment(w: Seq<char>, y: Seq<char>, q: Seq<char>)
    requires
        forall|j: int| 0 <= j < w.len() ==> !is_newline(#[trigger] w[j]),
        line_trailer(y),
        q.len() == 0 || is_newline(q[0]),
        scan(w, 0, w.len() as int, Stop::At('#')) < w.len(),
    ensures
        label_of(w + (y + q), 0) == label_of(w + q, 0),
        content_of(w + (y + q), 0) == content_of(w + q, 0),
{
    let u1 = w + q;
    let u2 = w + (y + q);
    let nw = w.len() as int;
    let ny = y.len() as int;
    lemma_trailer_lines(w, y, q);
    lemma_scan_prefix(w, q, 0, nw, Stop::At('#'));
    lemma_scan_prefix(w, y + q, 0, nw, Stop::At('#'));
    lemma_scan(w, 0, nw, Stop::At('#'));
    let cw = scan(w, 0, nw, Stop::At('#'));
    lemma_scan_cut(u2, 0, nw, nw + ny, Stop::At('#'));
    assert(comment_at(u1, 0) == cw);
    assert(comment_at(u2, 0) == cw);
    lemma_scan_prefix(w, q, 0, cw, Stop::NotBlank);
    lemma_scan_prefix(w, y + q, 0, cw, Stop::NotBlank);
    let t = scan(w, 0, cw, Stop::NotBlank);
    lemma_scan(w, 0, cw, Stop::NotBlank);
    lemma_scan_prefix(w, q, t, cw, Stop::At(':'));
    lemma_scan_prefix(w, y + q, t, cw, Stop::At(':'));
    lemma_scan(w, t, cw, Stop::At(':'));
    let k = scan(w, t, cw, Stop::At(':'));
    if k < cw {
        lemma_scan_prefix(w, q, k + 1, cw, Stop::NotBlank);
        lemma_scan_prefix(w, y + q, k + 1, cw, Stop::NotBlank);
        lemma_scan(w, k + 1, cw, Stop::NotBlank);
    }
    assert(label_of(u2, 0) =~= label_of(u1, 0));
    assert(content_of(u2, 0) =~= content_of(u1, 0));
}

/// A trailer put at the end of the line `w`, which has no comment, leaves its
/// label as it was and adds at most blanks to the end of a content it had.
#[verifier::rlimit(30)]
proof fn lemma_trailer_no_comment(w: Seq<char>, y: Seq<char>, q: Seq<char>)
    requires
        forall|j: int| 0 <= j < w.len() ==> !is_newline(#[trigger] w[j]),
        line_trailer(y),
        q.len() == 0 || is_newline(q[0]),
        scan(w, 0, w.len() as int, Stop::At('#')) == w.len(),
    ensures
        label_of(w + (y + q), 0) == label_of(w + q, 0),
        content_of(w + (y + q), 0).len() == 0 <==> content_of(w + q, 0).len() == 0,
        trim_end(content_of(w + (y + q), 0)) == trim_end(content_of(w + q, 0)),
{
    let u1 = w + q;
    let u2 = w + (y + q);
    let nw = w.len() as int;
    let ny = y.len() as int;
    lemma_trailer_lines(w, y, q);
    assert(u2.len() == nw + ny + q.len());
    assert forall|j: int| 0 <= j < nw implies #[trigger] u2[j] == w[j] by {}
    assert forall|j: int| nw <= j < nw + ny implies #[trigger] u2[j] == y[j - nw] by {}
    lemma_scan_prefix(w, q, 0, nw, Stop::At('#'));
    lemma_scan(w, 0, nw, Stop::At('#'));
    assert(comment_at(u1, 0) == nw);
    let cy = scan(y, 0, ny, Stop::NotBlank);
    lemma_scan(y, 0, ny, Stop::NotBlank);
    lemma_scan(u2, 0, nw + ny, Stop::At('#'));
    if cy < ny {
        assert(u2[nw + cy] == y[cy]);
    }
    assert(comment_at(u2, 0) == nw + cy);
    let z = y.subrange(0, cy);
    assert forall|j: int| 0 <= j < z.len() implies is_blank(#[trigger] z[j]) by {
        assert(z[j] == y[j]);
    }
    lemma_scan_prefix(w, q, 0, nw, Stop::NotBlank);
    lemma_scan_prefix(w, y + q, 0, nw, Stop::NotBlank);
    lemma_scan(w, 0, nw, Stop::NotBlank);
    let tw = scan(w, 0, nw, Stop::NotBlank);
    if tw < nw {
        lemma_scan_cut(u2, 0, nw, nw + cy, Stop::NotBlank);
        assert(text_at(u2, 0) == tw);
        assert(text_at(u1, 0) == tw);
        lemma_scan_prefix(w, q, tw, nw, Stop::At(':'));
        lemma_scan_prefix(w, y + q, tw, nw, Stop::At(':'));
        lemma_scan(w, tw, nw, Stop::At(':'));
        let kw = scan(w, tw, nw, Stop::At(':'));
        if kw < nw {
            lemma_scan_cut(u2, tw, nw, nw + cy, Stop::At(':'));
            assert(colon_at(u2, 0) == kw);
            assert(colon_at(u1, 0) == kw);
            assert(label_of(u2, 0) =~= label_of(u1, 0));
            lemma_scan_prefix(w, q, kw + 1, nw, Stop::NotBlank);
            lemma_scan_prefix(w, y + q, kw + 1, nw, Stop::NotBlank);
            lemma_scan(w, kw + 1, nw, Stop::NotBlank);
            let aw = scan(w, kw + 1, nw, Stop::NotBlank);
            if aw < nw {
                lemma_scan_cut(u2, kw + 1, nw, nw + cy, Stop::NotBlank);
                assert(content_of(u2, 0) =~= content_of(u1, 0) + z);
                lemma_trim_end_blanks(content_of(u1, 0), z);
            } else {
                lemma_scan_skip(u2, kw + 1, nw + cy, nw + cy, Stop::NotBlank);
                assert(content_of(u2, 0) =~= Seq::<char>::empty());
                assert(content_of(u1, 0) =~= Seq::<char>::empty());
            }
        } else {
            lemma_scan_skip(u2, tw, nw + cy, nw + cy, Stop::At(':'));
            assert(colon_at(u2, 0) == nw + cy);
            assert(label_of(u2, 0) =~= label_of(u1, 0));
            assert(content_of(u2, 0) =~= content_of(u1, 0) + z);
            lemma_trim_end_blanks(content_of(u1, 0), z);
        }
    } else {
        lemma_scan_skip(u2, 0, nw + cy, nw + cy, Stop::NotBlank);
        assert(text_at(u2, 0) == nw + cy);
        assert(text_at(u1, 0) == nw);
        assert(label_of(u2, 0) =~= label_of(u1, 0));
        assert(content_of(u2, 0) =~= Seq::<char>::empty());
        assert(content_of(u1, 0) =~= Seq::<char>::empty());
    }
}

/// Put at the end of the line `w`, the trailer `y` leaves what the rest of the
/// text splits into with the same streams.
proof fn lemma_trailer_same_after(w: Seq<char>, y: Seq<char>, q: Seq<char>)
    requires
        forall|j: int| 0 <= j < w.len() ==> !is_newline(#[trigger] w[j]),
        line_trailer(y),
        q.len() == 0 || is_newline(q[0]),
    ensures
        same_after(w + (y + q), w + q),
{
    let u1 = w + q;
    let u2 = w + (y + q);
    let nw = w.len() as int;
    assert(u1.len() == nw + q.len());
    assert(u2.len() == nw + y.len() + q.len());
    lemma_trailer_lines(w, y, q);
    lemma_scan(w, 0, nw, Stop::At('#'));
    if scan(w, 0, nw, Stop::At('#')) < nw {
        lemma_trailer_after_comment(w, y, q);
    } else {
        lemma_trailer_no_comment(w, y, q);
    }
    let nq = next_line(q, 0);
    if q.len() > 0 {
        lemma_next_line(q, 0);
    }
    assert(u2 =~= (w + y) + q);
    assert((w + y).len() == nw + y.len());
    lemma_remain_shift(w + y, q, nq);
    lemma_remain_shift(w, q, nq);
    let label = label_of(u1, 0);
    let c1 = content_of(u1, 0);
    let c2 = content_of(u2, 0);
    let r = remain_after(q, nq);
    if u1.len() == 0 {
        assert(c1 =~= Seq::<char>::empty());
    }
    assert forall|a: Seq<LineView>, c: Seq<LineView>|
        same_streams(a, c) implies same_streams(#[trigger] lines_from(u2, 0, a), #[trigger] lines_from(u1, 0, c)) by {
        lemma_add_line_same(a, c, label, c2, c1, r, r);
        let a2 = add_line(a, label, c2, r);
        let c3 = add_line(c, label, c1, r);
        lemma_lines_from_shift(w + y, q, nq, a2);
        lemma_lines_from_shift(w, q, nq, c3);
        lemma_lines_from_same(q, nq, a2, c3);
        if u2.len() > 0 {
            assert(lines_from(u2, 0, a) == lines_from(u2, nw + y.len() + nq, a2));
        }
        if u1.len() > 0 {
            assert(lines_from(u1, 0, c) == lines_from(u1, nw + nq, c3));
        } else {
            assert(lines_from(q, nq, c3) == c3);
            assert(c3 == c);
        }
    }
    assert forall|l: Seq<char>| #[trigger] continuation(u2, 0, l) == continuation(u1, 0, l) by {
        lemma_continuation_shift(w + y, q, nq, l);
        lemma_continuation_shift(w, q, nq, l);
        if u2.len() > 0 {
            assert(continuation(u2, 0, l) == (if label_of(u2, 0) == l {
                trim_end(c2)
            } else {
                Seq::empty()
            }) + continuation(u2, nw + y.len() + nq, l));
        }
        if u1.len() > 0 {
            assert(continuation(u1, 0, l) == (if label == l {
                trim_end(c1)
            } else {
                Seq::empty()
            }) + continuation(u1, nw + nq, l));
        } else {
            assert(trim_end(c1) =~= Seq::<char>::empty());
            assert(continuation(u2, 0, l) =~= continuation(u1, 0, l));
        }
    }
}

/// Blanks, or a comment, put at the end of any line of a text (before its
/// terminator, or at the end of the text) leave its signal lines as they were:
/// the same labels in the same order, each line yielding the same characters.
pub proof fn lemma_line_trailer_inserted(p: Seq<char>, w: Seq<char>, y: Seq<char>, q: Seq<char>)
    requires
        line_start(p + w + q, p.len() as int),
        line_start(p + w + y + q, p.len() as int),
        forall|j: int| 0 <= j < w.len() ==> !is_newline(#[trigger] w[j]),
        line_trailer(y),
        q.len() == 0 || is_newline(q[0]),
    ensures
        same_streams(text_lines(p + w + y + q), text_lines(p + w + q)),
{
    lemma_trailer_same_after(w, y, q);
    assert(p + w + y + q =~= p + (w + (y + q)));
    assert(p + w + q =~= p + (w + q));
    lemma_inserted(p, w + (y + q), w + q);
}

/// `n` is a line terminator: `"\n"`, `"\r"` or `"\r\n"`.
pub open spec fn terminator(n: Seq<char>) -> bool {
    ||| n == seq!['\n']
    ||| n == seq!['\r']
    ||| n == seq!['\r', '\n']
}

/// Where the last line of `s` starts: after its last line terminator, or at 0.
pub open spec fn last_line_start(s: Seq<char>) -> int
    decreases s.len(),
{
    if s.len() == 0 {
        0
    } else if is_newline(s.last()) {
        s.len() as int
    } else {
        last_line_start(s.drop_last())
    }
}

proof fn lemma_last_line_start(s: Seq<char>)
    ensures
        0 <= last_line_start(s) <= s.len(),
        last_line_start(s) > 0 ==> is_newline(s[last_line_start(s) - 1]),
        forall|j: int| last_line_start(s) <= j < s.len() ==> !is_newline(#[trigger] s[j]),
    decreases s.len(),
{
    if s.len() > 0 && !is_newline(s.last()) {
        lemma_last_line_start(s.drop_last());
        assert forall|j: int| last_line_start(s) <= j < s.len() implies !is_newline(#[trigger] s[j]) by {
            if j < s.len() - 1 {
                assert(s[j] == s.drop_last()[j]);
            }
        }
    }
}

/// The line `w`, which holds no terminator, has the same parts whether a
/// terminator and more text follow it or not.
proof fn lemma_unterminated_parts(w: Seq<char>, q: Seq<char>)
    requires
        forall|j: int| 0 <= j < w.len() ==> !is_newline(#[trigger] w[j]),
        q.len() == 0 || is_newline(q[0]),
    ensures
        label_of(w + q, 0) == label_of(w, 0),
        content_of(w + q, 0) == content_of(w, 0),
        next_line(w + q, 0) == w.len() + next_line(q, 0),
        w.len() > 0 ==> next_line(w, 0) == w.len(),
{
    let nw = w.len() as int;
    let e: Seq<char> = Seq::empty();
    assert(w + (e + q) =~= w + q);
    assert(w + (e + e) =~= w);
    lemma_trailer_lines(w, e, q);
    lemma_trailer_lines(w, e, e);
    lemma_scan_prefix(w, q, 0, nw, Stop::At('#'));
    let c = comment_at(w, 0);
    lemma_scan(w, 0, nw, Stop::At('#'));
    lemma_scan_prefix(w, q, 0, c, Stop::NotBlank);
    lemma_scan(w, 0, c, Stop::NotBlank);
    lemma_scan_prefix(w, q, text_at(w, 0), c, Stop::At(':'));
    lemma_scan(w, text_at(w, 0), c, Stop::At(':'));
    if has_label(w, 0) {
        lemma_scan_prefix(w, q, colon_at(w, 0) + 1, c, Stop::NotBlank);
        lemma_scan(w, colon_at(w, 0) + 1, c, Stop::NotBlank);
    }
    assert(comment_at(w + q, 0) == c);
    assert(content_at(w + q, 0) == content_at(w, 0));
    assert(label_of(w + q, 0) =~= label_of(w, 0));
    assert(content_of(w + q, 0) =~= content_of(w, 0));
}

/// A line terminator put after the line `w`, which holds none, leaves what `w`
/// splits into with the same streams.
proof fn lemma_terminator_same_after(w: Seq<char>, n: Seq<char>)
    requires
        forall|j: int| 0 <= j < w.len() ==> !is_newline(#[trigger] w[j]),
        terminator(n),
    ensures
        same_after(w + n, w),
{
    let u = w + n;
    let nw = w.len() as int;
    assert(u.len() == nw + n.len());
    assert(is_newline(n[0]));
    lemma_scan(n, 0, n.len() as int, Stop::Newline);
    assert(line_end(n, 0) == 0);
    assert(next_line(n, 0) == n.len());
    lemma_unterminated_parts(w, n);
    let label = label_of(w, 0);
    let c = content_of(w, 0);
    let e: Seq<char> = Seq::empty();
    assert(remain_after(u, u.len() as int) =~= e);
    assert(remain_after(w, nw) =~= e);
    if w.len() == 0 {
        assert(c =~= e);
    }
    assert(next_line(u, 0) == u.len());
    assert(label_of(u, 0) == label && content_of(u, 0) == c);
    assert forall|a: Seq<LineView>, d: Seq<LineView>|
        same_streams(a, d) implies same_streams(#[trigger] lines_from(u, 0, a), #[trigger] lines_from(w, 0, d)) by {
        lemma_add_line_same(a, d, label, c, c, e, e);
        let a2 = add_line(a, label, c, e);
        assert(lines_from(u, 0, a) == lines_from(u, u.len() as int, a2));
        assert(lines_from(u, u.len() as int, a2) == a2);
        if w.len() > 0 {
            let d2 = add_line(d, label, c, e);
            assert(lines_from(w, 0, d) == lines_from(w, nw, d2));
            assert(lines_from(w, nw, d2) == d2);
        } else {
            assert(a2 == a);
        }
    }
    assert forall|l: Seq<char>| #[trigger] continuation(u, 0, l) == continuation(w, 0, l) by {
        let head = if label == l {
            trim_end(c)
        } else {
            e
        };
        assert(continuation(u, 0, l) == head + continuation(u, u.len() as int, l));
        assert(continuation(u, u.len() as int, l) == e);
        if w.len() > 0 {
            assert(continuation(w, 0, l) == head + continuation(w, nw, l));
            assert(continuation(w, nw, l) == e);
        } else {
            assert(trim_end(e) =~= e);
            assert(head + e =~= e);
        }
        assert(head + e =~= head);
    }
}

/// A line terminator put after the last line of a text, where it had none,
/// leaves the text's signal lines as they were: the same labels in the same
/// order, each line yielding the same characters.
pub proof fn lemma_terminator_appended(s: Seq<char>, n: Seq<char>)
    requires
        terminator(n),
        s.len() == 0 || !is_newline(s.last()),
    ensures
        same_streams(text_lines(s + n), text_lines(s)),
{
    lemma_last_line_start(s);
    let k = last_line_start(s);
    let p = s.subrange(0, k);
    let w = s.subrange(k, s.len() as int);
    assert(s =~= p + w);
    assert(s + n =~= p + (w + n));
    assert forall|j: int| 0 <= j < w.len() implies !is_newline(#[trigger] w[j]) by {
        assert(w[j] == s[k + j]);
    }
    if k > 0 {
        assert(k < s.len());
        assert((p + (w + n))[k - 1] == s[k - 1]);
        assert((p + (w + n))[k] == s[k]);
        assert((p + w)[k] == s[k]);
    }
    assert(line_start(p + (w + n), p.len() as int));
    assert(line_start(p + w, p.len() as int));
    lemma_terminator_same_after(w, n);
    lemma_inserted(p, w + n, w);
}

proof fn lemma_continuation_concat_from(p: Seq<char>, q: Seq<char>, j: int, label: Seq<char>)
    requires
        line_start(p + q, p.len() as int),
        0 <= j <= p.len(),
    ensures
        continuation(p + q, j, label) == continuation(p, j, label) + continuation(q, 0, label),
    decreases p.len() - j,
{
    assert((p + q).len() == p.len() + q.len());
    if j < p.len() {
        lemma_line_prefix(p, q, j);
        lemma_next_line(p, j);
        lemma_continuation_concat_from(p, q, next_line(p, j), label);
        let head = if label_of(p, j) == label {
            trim_end(content_of(p, j))
        } else {
            Seq::empty()
        };
        assert(continuation(p + q, j, label) == head + continuation(p + q, next_line(p, j), label));
        assert(continuation(p, j, label) == head + continuation(p, next_line(p, j), label));
        assert(head + (continuation(p, next_line(p, j), label) + continuation(q, 0, label)) =~= (head
            + continuation(p, next_line(p, j), label)) + continuation(q, 0, label));
    } else {
        lemma_continuation_shift(p, q, 0, label);
        assert(continuation(p, j, label) =~= Seq::<char>::empty());
        assert(Seq::<char>::empty() + continuation(q, 0, label) =~= continuation(q, 0, label));
    }
}

/// The continuation of a label over two texts, the second starting a line, is
/// the continuation over the first followed by that over the second.
pub proof fn lemma_continuation_concat(p: Seq<char>, q: Seq<char>, label: Seq<char>)
    requires
        line_start(p + q, p.len() as int),
    ensures
        continuation(p + q, 0, label) == continuation(p, 0, label) + continuation(q, 0, label),
{
    lemma_continuation_concat_from(p, q, 0, label);
}

/// Over one line without terminator, the continuation of a label is that line's
/// content without its trailing blanks when the line carries exactly that label,
/// and nothing otherwise; over no text it is nothing.
pub proof fn lemma_continuation_one_line(s: Seq<char>, label: Seq<char>)
    requires
        forall|j: int| 0 <= j < s.len() ==> !is_newline(#[trigger] s[j]),
    ensures
        s.len() == 0 ==> continuation(s, 0, label) == Seq::<char>::empty(),
        s.len() > 0 && label_of(s, 0) == label ==> continuation(s, 0, label) == trim_end(content_of(s, 0)),
        s.len() > 0 && label_of(s, 0) != label ==> continuation(s, 0, label) == Seq::<char>::empty(),
{
    if s.len() > 0 {
        lemma_scan(s, 0, s.len() as int, Stop::Newline);
        assert(next_line(s, 0) == s.len());
        assert(continuation(s, s.len() as int, label) == Seq::<char>::empty());
        assert(trim_end(content_of(s, 0)) + Seq::<char>::empty() =~= trim_end(content_of(s, 0)));
        assert(Seq::<char>::empty() + Seq::<char>::empty() =~= Seq::<char>::empty());
    }
}

/// What remains after a position is the end of the text from the first
/// character there on that is not a line terminator.
pub proof fn lemma_remain_after(s: Seq<char>, e: int)
    requires
        0 <= e <= s.len(),
    ensures
        ({
            let r = s.len() - remain_after(s, e).len();
            &&& e <= r <= s.len()
            &&& remain_after(s, e) == s.subrange(r, s.len() as int)
            &&& forall|j: int| e <= j < r ==> is_newline(#[trigger] s[j])
            &&& r < s.len() ==> !is_newline(s[r])
        }),
{
    lemma_scan(s, e, s.len() as int, Stop::NotNewline);
}

/// The positions that delimit the parts of one physical line.
pub struct LineSpan {
    pub text: usize,
    pub colon: usize,
    pub content: usize,
    pub comment: usize,
    pub next: usize,
    pub labeled: bool,
}

/// Locates the parts of the physical line that starts at `i`.
pub fn locate_line(s: &Vec<char>, i: usize) -> (r: LineSpan)
    requires
        i < s.len(),
    ensures
        r.text == text_at(s@, i as int),
        r.colon == colon_at(s@, i as int),
        r.content == content_at(s@, i as int),
        r.comment == comment_at(s@, i as int),
        r.next == next_line(s@, i as int),
        r.labeled == has_label(s@, i as int),
        i < r.next <= s.len(),
        r.text <= r.colon <= r.comment,
        r.content <= r.comment,
        r.comment <= s.len(),
{
    proof {
        lemma_next_line(s@, i as int);
    }
    let n = s.len();
    let e = scan_chars(s, i, n, Stop::Newline);
    let next = if e >= n {
        n
    } else if s[e] == '\r' && e + 1 < n && s[e + 1] == '\n' {
        e + 2
    } else {
        e + 1
    };
    let comment = scan_chars(s, i, e, Stop::At('#'));
    let text = scan_chars(s, i, comment, Stop::NotBlank);
    let colon = scan_chars(s, text, comment, Stop::At(':'));
    let labeled = colon < comment;
    let content = if labeled {
        scan_chars(s, colon + 1, comment, Stop::NotBlank)
    } else {
        text
    };
    LineSpan { text, colon, content, comment, next, labeled }
}

/// The characters encoded by the bytes `start..end` of `s`.
pub open spec fn bytes_text(s: &str, start: int, end: int) -> Seq<char> {
    decode_utf8(s.spec_bytes().subrange(start, end))
}

/// The text without the line terminators it starts with.
pub open spec fn trim_newlines(t: Seq<char>) -> Seq<char> {
    t.subrange(scan(t, 0, t.len() as int, Stop::NotNewline), t.len() as int)
}

/// A character boundary of a text is one of its prefix too.
proof fn lemma_prefix_boundary(b: Seq<u8>, end: int, i: int)
    requires
        valid_utf8(b),
        is_char_boundary(b, end),
        is_char_boundary(b, i),
        0 <= i <= end,
    ensures
        valid_utf8(b.subrange(0, end)),
        is_char_boundary(b.subrange(0, end), i),
{
    broadcast use vstd::utf8::group_utf8_lib;

    let p = b.subrange(0, end);
    assert(valid_utf8(p));
    if 0 < i < end {
        vstd::utf8::is_char_boundary_iff_not_is_continuation_byte(b, i);
        vstd::utf8::is_char_boundary_iff_not_is_continuation_byte(p, i);
        assert(p[i] == b[i]);
    }
}

/// Where the character at position `i` of `s` starts in the UTF-8 encoding of `s`.
pub open spec fn byte_pos(s: Seq<char>, i: int) -> int {
    encode_utf8(s.take(i)).len() as int
}

/// The encoding of two character sequences one after the other is the two encodings one after the other.
proof fn lemma_encode_concat(a: Seq<char>, b: Seq<char>)
    ensures
        encode_utf8(a + b) == encode_utf8(a) + encode_utf8(b),
    decreases a.len(),
{
    if a.len() == 0 {
        assert(a + b =~= b);
        assert(encode_utf8(a) + encode_utf8(b) =~= encode_utf8(b));
    } else {
        assert((a + b).drop_first() =~= a.drop_first() + b);
        assert((a + b)[0] == a[0]);
        lemma_encode_concat(a.drop_first(), b);
        assert(encode_utf8(a + b) =~= encode_utf8(a) + encode_utf8(b));
    }
}

/// The end of the encoding of `a` is a character boundary of the encoding of `a + b`.
proof fn lemma_encode_boundary(a: Seq<char>, b: Seq<char>)
    ensures
        is_char_boundary(encode_utf8(a + b), encode_utf8(a).len() as int),
    decreases a.len(),
{
    let t = a + b;
    let bytes = encode_utf8(t);
    vstd::utf8::encode_utf8_valid_utf8(t);
    if a.len() > 0 {
        lemma_encode_concat(a, b);
        vstd::utf8::encode_utf8_first_scalar(t);
        assert(t[0] == a[0]);
        assert(pop_first_scalar(bytes) =~= encode_utf8(t.drop_first()));
        assert(t.drop_first() =~= a.drop_first() + b);
        lemma_encode_boundary(a.drop_first(), b);
        assert(encode_utf8(a).len() == encode_scalar(a[0] as u32).len() + encode_utf8(a.drop_first()).len());
        assert(encode_scalar(a[0] as u32).len() > 0);
    }
}

/// In a text `string` with characters `s`, the byte positions of character
/// positions are character boundaries, and the bytes between two of them are
/// the characters between them.
proof fn lemma_byte_pos(string: &str, i: int, j: int)
    requires
        0 <= i <= j <= string@.len(),
    ensures
        is_char_boundary(string.spec_bytes(), byte_pos(string@, i)),
        is_char_boundary(string.spec_bytes(), byte_pos(string@, j)),
        byte_pos(string@, i) <= byte_pos(string@, j) <= string.spec_bytes().len(),
        bytes_text(string, byte_pos(string@, i), byte_pos(string@, j)) == string@.subrange(i, j),
        byte_pos(string@, string@.len() as int) == string.spec_bytes().len(),
{
    let s = string@;
    let a = s.take(i);
    let m = s.subrange(i, j);
    let z = s.subrange(j, s.len() as int);
    assert(s =~= a + (m + z));
    assert(s =~= (a + m) + z);
    assert(s.take(j) =~= a + m);
    assert(s.take(s.len() as int) =~= s);
    lemma_encode_boundary(a, m + z);
    lemma_encode_boundary(a + m, z);
    lemma_encode_concat(a, m);
    lemma_encode_concat(a + m, z);
    let ea = encode_utf8(a);
    let em = encode_utf8(m);
    assert(string.spec_bytes().subrange(ea.len() as int, (ea.len() + em.len()) as int) =~= em);
    vstd::utf8::encode_utf8_decode_utf8(m);
}

/// How many bytes the UTF-8 encoding of `c` takes.
fn char_width(c: char) -> (r: usize)
    ensures
        r == encode_scalar(c as u32).len(),
{
    proof {
        vstd::utf8::char_is_scalar(c);
    }
    let v = c as u32;
    if v <= 0x7F {
        1
    } else if v <= 0x7FF {
        2
    } else if v <= 0xFFFF {
        3
    } else {
        4
    }
}

/// The byte position of every character position of `string`, whose characters are `chars`.
fn byte_offsets(string: &str, chars: &Vec<char>) -> (r: Vec<usize>)
    requires
        chars@ == string@,
    ensures
        r.len() == chars.len() + 1,
        forall|i: int| 0 <= i <= chars.len() ==> #[trigger] r[i] == byte_pos(string@, i),
{
    let total = string.as_bytes().len();
    let mut r: Vec<usize> = Vec::new();
    let mut off: usize = 0;
    r.push(0);
    assert(string@.take(0) =~= Seq::<char>::empty());
    let mut k: usize = 0;
    while k < chars.len()
        invariant
            chars@ == string@,
            total == string.spec_bytes().len(),
            k <= chars.len(),
            r.len() == k + 1,
            off == byte_pos(string@, k as int),
            forall|i: int| 0 <= i <= k ==> #[trigger] r[i] == byte_pos(string@, i),
        decreases chars.len() - k,
    {
        let w = char_width(chars[k]);
        proof {
            let s = string@;
            assert(s.take(k + 1) =~= s.take(k as int) + seq![s[k as int]]);
            lemma_encode_concat(s.take(k as int), seq![s[k as int]]);
            let one = seq![s[k as int]];
            vstd::utf8::char_is_scalar(s[k as int]);
            assert(one[0] == s[k as int]);
            assert(one.drop_first() =~= Seq::<char>::empty());
            assert(encode_utf8(one.drop_first()) =~= Seq::<u8>::empty());
            assert(encode_utf8(one) == encode_scalar(one[0] as u32) + encode_utf8(one.drop_first()));
            assert(encode_utf8(one) =~= encode_scalar(s[k as int] as u32));
            lemma_byte_pos(string, k + 1, k + 1);
        }
        off = off + w;
        r.push(off);
        k = k + 1;
    }
    r
}

/// The text of the bytes `start..end` of `s`, both character boundaries.
fn byte_slice<'a>(s: &'a str, start: usize, end: usize) -> (r: &'a str)
    requires
        start <= end,
        is_char_boundary(s.spec_bytes(), start as int),
        is_char_boundary(s.spec_bytes(), end as int),
    ensures
        r@ == bytes_text(s, start as int, end as int),
        start < end ==> r@.len() > 0,
{
    broadcast use vstd::utf8::group_utf8_lib;

    proof {
        lemma_prefix_boundary(s.spec_bytes(), end as int, start as int);
    }
    let (head, _) = s.split_at(end);
    assert(head.spec_bytes() =~= s.spec_bytes().subrange(0, end as int));
    let (_, mid) = head.split_at(start);
    assert(mid.spec_bytes() =~= s.spec_bytes().subrange(start as int, end as int));
    proof {
        vstd::utf8::encode_utf8_decode_utf8(mid@);
        if mid@.len() == 0 {
            assert(encode_utf8(mid@) =~= Seq::<u8>::empty());
        }
    }
    mid
}

/// The text of `s` from byte `from`, a character boundary, on.
fn byte_suffix<'a>(s: &'a str, from: usize) -> (r: &'a str)
    requires
        is_char_boundary(s.spec_bytes(), from as int),
    ensures
        r@ == bytes_text(s, from as int, s.spec_bytes().len() as int),
{
    broadcast use vstd::utf8::group_utf8_lib;

    let (_, rest) = s.split_at(from);
    proof {
        vstd::utf8::encode_utf8_decode_utf8(rest@);
    }
    rest
}

/// Records one physical line of `string`: its label `label` and its content, the
/// bytes `start..end`, with `eol` the byte where the next line starts. A line with
/// content becomes a new signal line unless its label is already known; a new
/// labeled line keeps the text from `eol` on, without the line terminators it
/// starts with, as its `remain`. When a new line would make more than `N` signal
/// lines, nothing is recorded and the result is `CapacityFull`.
///
/// The byte positions it cuts at must be character boundaries of `string`.
pub fn handle_end<'a, const N: usize>(
    iters: &mut Vec<Line<'a>>,
    string: &'a str,
    start: usize,
    end: usize,
    label: &'a str,
    eol: usize,
) -> (r: Result<(), ParseError>)
    requires
        old(iters).len() <= N,
        start < end && (label@.len() == 0 || !knows_label(line_views(old(iters)@), label@))
            ==> is_char_boundary(string.spec_bytes(), start as int) && is_char_boundary(
            string.spec_bytes(),
            end as int,
        ),
        start < end && label@.len() > 0 && !knows_label(line_views(old(iters)@), label@)
            ==> is_char_boundary(string.spec_bytes(), eol as int),
    ensures
        start >= end ==> r == Ok::<(), ParseError>(()) && final(iters)@ == old(iters)@,
        start < end ==> ({
            let added = add_line(
                line_views(old(iters)@),
                label@,
                bytes_text(string, start as int, end as int),
                trim_newlines(bytes_text(string, eol as int, string.spec_bytes().len() as int)),
            );
            if added.len() > N {
                &&& r == Err::<(), ParseError>(ParseError::CapacityFull)
                &&& final(iters)@ == old(iters)@
            } else {
                &&& r == Ok::<(), ParseError>(())
                &&& line_views(final(iters)@) == added
            }
        }),
        start < end && (label@.len() == 0 || !knows_label(line_views(old(iters)@), label@)) ==> bytes_text(
            string,
            start as int,
            end as int,
        ).len() > 0,
        start < end && label@.len() > 0 && (exists|j: int|
            0 <= j < old(iters)@.len() && (#[trigger] old(iters)@[j]).label@ == label@) ==> r == Ok::<
            (),
            ParseError,
        >(()) && final(iters)@ == old(iters)@,
        start < end && label@.len() > 0 && (forall|j: int|
            0 <= j < old(iters)@.len() ==> (#[trigger] old(iters)@[j]).label@ != label@) ==> if old(
            iters,
        ).len() < N {
            &&& r == Ok::<(), ParseError>(())
            &&& line_views(final(iters)@) == line_views(old(iters)@).push(
                (
                    label@,
                    bytes_text(string, start as int, end as int),
                    trim_newlines(bytes_text(string, eol as int, string.spec_bytes().len() as int)),
                ),
            )
        } else {
            &&& r == Err::<(), ParseError>(ParseError::CapacityFull)
            &&& final(iters)@ == old(iters)@
        },
        start < end && label@.len() == 0 ==> if old(iters).len() < N {
            &&& r == Ok::<(), ParseError>(())
            &&& line_views(final(iters)@) == line_views(old(iters)@).push(
                (Seq::empty(), bytes_text(string, start as int, end as int), Seq::empty()),
            )
        } else {
            &&& r == Err::<(), ParseError>(ParseError::CapacityFull)
            &&& final(iters)@ == old(iters)@
        },
        final(iters).len() <= N,
{
    let ghost old_views = line_views(iters@);
    proof {
        let content = bytes_text(string, start as int, end as int);
        let rest = trim_newlines(bytes_text(string, eol as int, string.spec_bytes().len() as int));
        lemma_add_line_cases(old_views, label@, content, rest);
        if exists|j: int| 0 <= j < iters@.len() && (#[trigger] iters@[j]).label@ == label@ {
            let j = choose|j: int| 0 <= j < iters@.len() && (#[trigger] iters@[j]).label@ == label@;
            assert(old_views[j].0 == label@);
        }
        if exists|j: int| 0 <= j < old_views.len() && (#[trigger] old_views[j]).0 == label@ {
            let j = choose|j: int| 0 <= j < old_views.len() && (#[trigger] old_views[j]).0 == label@;
            assert(iters@[j].label@ == label@);
        }
    }
    if start >= end {
        return Ok(());
    }
    if !label.is_empty() {
        let mut j: usize = 0;
        while j < iters.len()
            invariant
                j <= iters.len(),
                iters.len() <= N,
                label@.len() > 0,
                iters@ == old(iters)@,
                old_views == line_views(iters@),
                forall|k: int| 0 <= k < j ==> (#[trigger] old_views[k]).0 != label@,
            decreases iters.len() - j,
        {
            if str_eq(iters[j].label, label) {
                assert(old_views[j as int].0 == label@);
                assert(knows_label(old_views, label@));
                return Ok(());
            }
            j = j + 1;
        }
        assert(!knows_label(old_views, label@));
        let rest = byte_suffix(string, eol);
        let rest_chars = str_chars(rest);
        let skip = scan_chars(&rest_chars, 0, rest_chars.len(), Stop::NotNewline);
        let remain = rest.substring_char(skip, rest_chars.len());
        let content = byte_slice(string, start, end);
        if iters.len() >= N {
            return Err(ParseError::CapacityFull);
        }
        iters.push(Line::new(label, content, remain));
        assert(line_views(iters@) =~= old_views.push((label@, content@, remain@)));
        Ok(())
    } else {
        let content = byte_slice(string, start, end);
        if iters.len() >= N {
            return Err(ParseError::CapacityFull);
        }
        iters.push(Line::new(label, content, label));
        assert(label@ =~= Seq::<char>::empty());
        assert(line_views(iters@) =~= old_views.push((label@, content@, label@)));
        Ok(())
    }
}

/// Splits a waveform text into at most `N` signal lines.
///
/// The result lists, in the order of their first appearance, the lines that have
/// content; a labeled line appears once, on the first line of its label, with the
/// text after that line as its `remain`. When the text holds more than `N` signal
/// lines, the result is `CapacityFull`.
pub fn string_to_iters<'a, const N: usize>(string: &'a str) -> (r: Result<Vec<Line<'a>>, ParseError>)
    ensures
        text_lines(string@).len() <= N ==> (r matches Ok(v) && line_views(v@) == text_lines(
            string@,
        )),
        text_lines(string@).len() > N ==> r == Err::<Vec<Line<'a>>, ParseError>(
            ParseError::CapacityFull,
        ),
{
    let chars = str_chars(string);
    let n = chars.len();
    let offsets = byte_offsets(string, &chars);
    let mut iters: Vec<Line<'a>> = Vec::new();
    let mut i: usize = 0;
    assert(line_views(iters@) =~= Seq::<LineView>::empty());
    while i < n
        invariant
            chars@ == string@,
            n == chars.len(),
            offsets.len() == n + 1,
            forall|k: int| 0 <= k <= n ==> #[trigger] offsets[k] == byte_pos(string@, k),
            i <= n,
            iters.len() <= N,
            text_lines(string@) == lines_from(string@, i as int, line_views(iters@)),
        decreases n - i,
    {
        let span = locate_line(&chars, i);
        let label = if span.labeled {
            string.substring_char(span.text, span.colon)
        } else {
            string.substring_char(0, 0)
        };
        assert(label@ == label_of(string@, i as int));
        let ghost added = add_line(
            line_views(iters@),
            label_of(string@, i as int),
            content_of(string@, i as int),
            remain_after(string@, next_line(string@, i as int)),
        );
        let start = offsets[span.content];
        let end = offsets[span.comment];
        let eol = offsets[span.next];
        proof {
            lemma_byte_pos(string, span.content as int, span.comment as int);
            lemma_byte_pos(string, span.next as int, n as int);
            lemma_trim_newlines_suffix(string@, span.next as int);
            if start >= end {
                assert(string.spec_bytes().subrange(start as int, end as int) =~= Seq::<u8>::empty());
                assert(decode_utf8(Seq::<u8>::empty()) =~= Seq::<char>::empty());
                assert(content_of(string@, i as int).len() == 0);
            }
        }
        match handle_end::<N>(&mut iters, string, start, end, label, eol) {
            Err(e) => {
                proof {
                    lemma_lines_grow(string@, next_line(string@, i as int), added);
                }
                return Err(e);
            },
            Ok(()) => {},
        }
        assert(line_views(iters@) == added);
        i = span.next;
    }
    Ok(iters)
}

/// The text from a position on, without the line terminators it starts with,
/// is what remains after that position.
proof fn lemma_trim_newlines_suffix(s: Seq<char>, e: int)
    requires
        0 <= e <= s.len(),
    ensures
        trim_newlines(s.subrange(e, s.len() as int)) == remain_after(s, e),
{
    let x = s.take(e);
    let t = s.subrange(e, s.len() as int);
    assert(s =~= x + t);
    lemma_scan_shift(x, t, 0, t.len() as int, Stop::NotNewline);
    lemma_scan(t, 0, t.len() as int, Stop::NotNewline);
    let r = scan(t, 0, t.len() as int, Stop::NotNewline);
    assert(t.subrange(r, t.len() as int) =~= s.subrange(e + r, s.len() as int));
}

/// The end of `s[from..to]` once the blanks at its end are dropped.
fn trimmed_end(s: &Vec<char>, from: usize, to: usize) -> (e: usize)
    requires
        from <= to <= s.len(),
    ensures
        from <= e <= to,
        s@.subrange(from as int, e as int) == trim_end(s@.subrange(from as int, to as int)),
{
    let mut e = to;
    while e > from && (s[e - 1] == ' ' || s[e - 1] == '\t')
        invariant
            from <= e <= to <= s.len(),
            trim_end(s@.subrange(from as int, to as int)) == trim_end(
                s@.subrange(from as int, e as int),
            ),
        decreases e - from,
    {
        assert(s@.subrange(from as int, e as int).drop_last() =~= s@.subrange(
            from as int,
            e - 1,
        ));
        e = e - 1;
    }
    e
}

/// Appends `src[from..to]` to `out`.
fn push_span(out: &mut Vec<char>, src: &Vec<char>, from: usize, to: usize)
    requires
        from <= to <= src.len(),
    ensures
        final(out)@ == old(out)@ + src@.subrange(from as int, to as int),
{
    let mut k = from;
    while k < to
        invariant
            from <= k <= to <= src.len(),
            out@ == old(out)@ + src@.subrange(from as int, k as int),
        decreases to - k,
    {
        out.push(src[k]);
        assert(src@.subrange(from as int, k + 1) =~= src@.subrange(from as int, k as int).push(
            src@[k as int],
        ));
        k = k + 1;
    }
}

/// Whether `b[from..to]` holds exactly the characters of `a`.
fn same_span(a: &Vec<char>, b: &Vec<char>, from: usize, to: usize) -> (r: bool)
    requires
        from <= to <= b.len(),
    ensures
        r == (a@ == b@.subrange(from as int, to as int)),
{
    if a.len() != to - from {
        return false;
    }
    let mut k: usize = 0;
    while k < a.len()
        invariant
            a.len() == to - from,
            from <= to <= b.len(),
            k <= a.len(),
            forall|j: int| 0 <= j < k ==> a@[j] == #[trigger] b@[from + j],
        decreases a.len() - k,
    {
        if a[k] != b[from + k] {
            assert(a@[k as int] != b@.subrange(from as int, to as int)[k as int]);
            return false;
        }
        k = k + 1;
    }
    assert forall|j: int| 0 <= j < a@.len() implies a@[j] == b@.subrange(
        from as int,
        to as int,
    )[j] by {
        assert(a@[j] == b@[from + j]);
    }
    assert(a@ =~= b@.subrange(from as int, to as int));
    true
}

/// The characters a signal line yields, one per time step.
pub fn line_chars(line: &Line) -> (r: Vec<char>)
    ensures
        r@ == line_stream(line@),
{
    let content = str_chars(line.content);
    let cut = trimmed_end(&content, 0, content.len());
    let mut out: Vec<char> = Vec::new();
    push_span(&mut out, &content, 0, cut);
    assert(content@.subrange(0, content@.len() as int) =~= content@);
    assert(out@ =~= trim_end(line.content@));
    if line.label.is_empty() {
        assert(out@ =~= line_stream(line@));
        return out;
    }
    let label = str_chars(line.label);
    let s = str_chars(line.remain);
    let n = s.len();
    let mut i: usize = 0;
    while i < n
        invariant
            s@ == line.remain@,
            label@ == line.label@,
            label@.len() > 0,
            n == s.len(),
            i <= n,
            out@ + continuation(s@, i as int, label@) == line_stream(line@),
        decreases n - i,
    {
        let span = locate_line(&s, i);
        let ghost rest = continuation(s@, span.next as int, label@);
        if span.labeled && same_span(&label, &s, span.text, span.colon) {
            assert(label_of(s@, i as int) == label@);
            let t = trimmed_end(&s, span.content, span.comment);
            let ghost before = out@;
            push_span(&mut out, &s, span.content, t);
            assert(out@ + rest =~= before + continuation(s@, i as int, label@));
        } else {
            assert(label_of(s@, i as int) != label@);
            assert(continuation(s@, i as int, label@) =~= rest);
        }
        i = span.next;
    }
    assert(continuation(s@, n as int, label@) =~= Seq::<char>::empty());
    assert(out@ =~= line_stream(line@));
    out
}

} // verus!
