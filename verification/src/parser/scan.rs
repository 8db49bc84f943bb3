//! Character classes and forward scans over the characters of a waveform text.
use vstd::prelude::*;
use vstd::std_specs::iter::IteratorSpec;

verus! {

/// What stops a forward scan.
#[derive(Clone, Copy, PartialEq, Eq, Structural)]
pub enum Stop {
    /// A line terminator: `'\n'` or `'\r'`.
    Newline,
    /// Anything that is not a line terminator.
    NotNewline,
    /// Anything that is not a blank (`' '` or `'\t'`).
    NotBlank,
    /// The given character.
    At(char),
}

/// `'\n'` and `'\r'` end a line.
pub open spec fn is_newline(c: char) -> bool {
    c == '\n' || c == '\r'
}

/// Spaces and tabs are blanks.
pub open spec fn is_blank(c: char) -> bool {
    c == ' ' || c == '\t'
}

pub open spec fn stops(k: Stop, c: char) -> bool {
    match k {
        Stop::Newline => is_newline(c),
        Stop::NotNewline => !is_newline(c),
        Stop::NotBlank => !is_blank(c),
        Stop::At(x) => c == x,
    }
}

/// The first index in `[from, end)` whose character stops the scan, or `end` if there is none.
pub open spec fn scan(s: Seq<char>, from: int, end: int, k: Stop) -> int
    decreases end - from,
{
    if from >= end {
        end
    } else if stops(k, s[from]) {
        from
    } else {
        scan(s, from + 1, end, k)
    }
}

/// A scan stays inside its window, ends on a stopping character or at `end`,
/// and passes over no stopping character.
pub proof fn lemma_scan(s: Seq<char>, from: int, end: int, k: Stop)
    requires
        from <= end,
    ensures
        from <= scan(s, from, end, k) <= end,
        scan(s, from, end, k) < end ==> stops(k, s[scan(s, from, end, k)]),
        forall|j: int| from <= j < scan(s, from, end, k) ==> !stops(k, #[trigger] s[j]),
    decreases end - from,
{
    if from < end && !stops(k, s[from]) {
        lemma_scan(s, from + 1, end, k);
    }
}

pub fn stops_at(k: Stop, c: char) -> (r: bool)
    ensures
        r == stops(k, c),
{
    match k {
        Stop::Newline => c == '\n' || c == '\r',
        Stop::NotNewline => !(c == '\n' || c == '\r'),
        Stop::NotBlank => !(c == ' ' || c == '\t'),
        Stop::At(x) => c == x,
    }
}

/// The first index in `[from, end)` of `s` whose character stops the scan, or `end`.
pub fn scan_chars(s: &Vec<char>, from: usize, end: usize, k: Stop) -> (r: usize)
    requires
        from <= end <= s.len(),
    ensures
        r == scan(s@, from as int, end as int, k),
        from <= r <= end,
{
    let mut i = from;
    while i < end && !stops_at(k, s[i])
        invariant
            from <= i <= end <= s.len(),
            scan(s@, from as int, end as int, k) == scan(s@, i as int, end as int, k),
        decreases end - i,
    {
        i = i + 1;
    }
    proof {
        lemma_scan(s@, from as int, end as int, k);
    }
    i
}

/// The characters of a string slice, in order.
pub fn str_chars(s: &str) -> (r: Vec<char>)
    ensures
        r@ == s@,
{
    let mut out: Vec<char> = Vec::new();
    for c in it: s.chars()
        invariant
            out@ == it.seq().take(it.index() as int),
            it.seq() == s@,
    {
        out.push(c);
    }
    out
}

/// Whether two string slices hold the same characters.
pub(crate) fn str_eq(a: &str, b: &str) -> (r: bool)
    ensures
        r == (a@ == b@),
{
    let x = str_chars(a);
    let y = str_chars(b);
    if x.len() != y.len() {
        return false;
    }
    let mut k: usize = 0;
    while k < x.len()
        invariant
            x@ == a@,
            y@ == b@,
            x.len() == y.len(),
            k <= x.len(),
            forall|j: int| 0 <= j < k ==> x@[j] == #[trigger] y@[j],
        decreases x.len() - k,
    {
        if x[k] != y[k] {
            return false;
        }
        k = k + 1;
    }
    assert(x@ =~= y@);
    true
}

} // verus!
