//! Decoding waveform lines into a stream of timesteps.
pub mod scan;
pub mod mapper;
pub mod line_parser;
pub mod builder;
pub mod properties;


use vstd::prelude::*;
use core::marker::PhantomData;
pub use self::mapper::{Entry, BoolMapper, NumMapper, LookupMap, Mapper, MapOut, Level, NumLevel, entry_value};
pub use self::line_parser::{ParseError, string_to_iters, line_chars, line_stream, text_lines, LineView};

verus! {

/// A single timestep produced by the [`Parser`].
///
/// Each `Item` corresponds to one character position across all `N` lines.
#[derive(Clone, Debug, PartialEq, Eq)]
pub struct Item<T, const N: usize> {
    /// The decoded value for each line at this timestep.
    pub values: Vec<T>,
    /// Zero-based index of this timestep (needed in case you filter out items).
    pub index: usize,
    /// `true` if any value changed compared to the previous timestep.
    /// Always `true` if any line contains a toggle character at this position,
    ///   even if the resulting value is the same as before.
    /// Always `false` for the very first timestep (no previous to compare against).
    ///   Except when first char is a toggle, then it is `true` because the toggle forces a change.
    pub changed: bool,
}

impl<T, const N: usize> Item<T, N> {
    fn new() -> (r: Self)
        ensures
            r.values@.len() == 0,
            r.index == 0,
            !r.changed,
    {
        let values: Vec<T> = Vec::new();
        Self { values, index: 0, changed: false }
    }
}

/// What one line contributes to a timestep.
#[derive(Clone, Copy, Debug, PartialEq, Eq)]
pub enum Step<T> {
    /// The line holds a character that the mapper does not know: decoding stops.
    Unknown,
    /// The line's value at this timestep; `changed` when it differs from the
    /// previous one (always for a toggle); `ended` when the line has no character left.
    Level { val: T, changed: bool, ended: bool },
}

pub open spec fn step_val<T>(s: Step<T>) -> T {
    match s {
        Step::Level { val, .. } => val,
        Step::Unknown => arbitrary(),
    }
}

pub open spec fn step_changed<T>(s: Step<T>) -> bool {
    match s {
        Step::Level { changed, .. } => changed,
        Step::Unknown => false,
    }
}

pub open spec fn step_ended<T>(s: Step<T>) -> bool {
    match s {
        Step::Level { ended, .. } => ended,
        Step::Unknown => false,
    }
}

/// What the line with characters `s`, at position `p`, with previous value `last`
/// (none at the first timestep), contributes to the next timestep.
///
/// A value character gives its value. A toggle gives the toggled previous value;
/// at the first timestep it takes the value of the next character instead (high
/// when that is a toggle too, or when there is none). A line that has ended keeps
/// its previous value, or the mapper's default at the first timestep.
pub open spec fn line_step<M: Mapper>(m: M, s: Seq<char>, p: int, last: Option<MapOut<M>>) -> Step<
    MapOut<M>,
> {
    let map = m.spec_map();
    if p < s.len() {
        let c = s[p];
        if map.spec_get(c) == Some(Entry::<MapOut<M>>::Toggle) {
            let v = match last {
                Some(l) => Some(m.spec_toggle(l)),
                None => if p + 1 < s.len() {
                    if map.spec_get(s[p + 1]) == Some(Entry::<MapOut<M>>::Toggle) {
                        Some(map.spec_max())
                    } else {
                        entry_value(map.spec_get(s[p + 1]))
                    }
                } else {
                    Some(map.spec_max())
                },
            };
            match v {
                Some(v) => Step::Level { val: v, changed: true, ended: false },
                None => Step::Unknown,
            }
        } else {
            match entry_value(map.spec_get(c)) {
                Some(v) => Step::Level {
                    val: v,
                    changed: match last {
                        Some(l) => l != v,
                        None => false,
                    },
                    ended: false,
                },
                None => Step::Unknown,
            }
        }
    } else {
        Step::Level {
            val: match last {
                Some(l) => l,
                None => map.spec_min(),
            },
            changed: false,
            ended: true,
        }
    }
}

/// A value character gives its value, marked changed exactly when there is a
/// previous value and it differs.
pub proof fn lemma_step_value<M: Mapper>(m: M, s: Seq<char>, p: int, last: Option<MapOut<M>>, v: MapOut<M>)
    requires
        0 <= p < s.len(),
        m.spec_map().spec_get(s[p]) == Some(Entry::Value(v)),
    ensures
        step_val(line_step(m, s, p, last)) == v,
        step_changed(line_step(m, s, p, last)) == (last is Some && last != Some(v)),
        line_step(m, s, p, last) is Level,
        !step_ended(line_step(m, s, p, last)),
{
}

/// After the first timestep a toggle gives the mapper's toggle of the previous
/// value, whatever that value is, and always marks a change.
pub proof fn lemma_step_toggle<M: Mapper>(m: M, s: Seq<char>, p: int, l: MapOut<M>)
    requires
        0 <= p < s.len(),
        m.spec_map().spec_get(s[p]) == Some(Entry::<MapOut<M>>::Toggle),
    ensures
        line_step(m, s, p, Some(l)) is Level,
        step_val(line_step(m, s, p, Some(l))) == m.spec_toggle(l),
        step_changed(line_step(m, s, p, Some(l))),
        !step_ended(line_step(m, s, p, Some(l))),
{
}

/// At the first timestep a toggle takes the value of the next character, or the
/// high value when the next one is a toggle too or there is none; it stops
/// decoding when the next character is unknown. It always marks a change.
pub proof fn lemma_step_first_toggle<M: Mapper>(m: M, s: Seq<char>, p: int, v: MapOut<M>)
    requires
        0 <= p < s.len(),
        m.spec_map().spec_get(s[p]) == Some(Entry::<MapOut<M>>::Toggle),
    ensures
        p + 1 < s.len() && m.spec_map().spec_get(s[p + 1]) == Some(Entry::Value(v)) ==> step_val(
            line_step(m, s, p, None),
        ) == v,
        p + 1 >= s.len() || m.spec_map().spec_get(s[p + 1]) == Some(Entry::<MapOut<M>>::Toggle) ==> step_val(
            line_step(m, s, p, None),
        ) == m.spec_map().spec_max(),
        p + 1 < s.len() && m.spec_map().spec_get(s[p + 1]) is None ==> line_step(m, s, p, None) is Unknown,
        !(p + 1 < s.len() && m.spec_map().spec_get(s[p + 1]) is None) ==> line_step(m, s, p, None) is Level
            && step_changed(line_step(m, s, p, None)) && !step_ended(line_step(m, s, p, None)),
{
}

/// An unknown character stops decoding.
pub proof fn lemma_step_unknown<M: Mapper>(m: M, s: Seq<char>, p: int, last: Option<MapOut<M>>)
    requires
        0 <= p < s.len(),
        m.spec_map().spec_get(s[p]) is None,
    ensures
        line_step(m, s, p, last) is Unknown,
{
}

/// Past its end a line keeps its previous value, or takes the low value at the
/// first timestep, unchanged.
pub proof fn lemma_step_past_end<M: Mapper>(m: M, s: Seq<char>, p: int, last: Option<MapOut<M>>)
    requires
        p >= s.len(),
    ensures
        line_step(m, s, p, last) is Level,
        step_val(line_step(m, s, p, last)) == (if last is Some {
            last->0
        } else {
            m.spec_map().spec_min()
        }),
        !step_changed(line_step(m, s, p, last)),
        step_ended(line_step(m, s, p, last)),
{
}

/// Where decoding stands: the position reached in each line, the values of the
/// last timestep (none before the first), and the number of timesteps yielded.
pub struct Progress<T> {
    pub positions: Seq<int>,
    pub last: Option<Seq<T>>,
    pub emitted: nat,
}

/// A yielded timestep: the values, the index and the changed flag.
pub type ItemView<T> = (Seq<T>, nat, bool);

pub open spec fn last_of<T>(st: Progress<T>, k: int) -> Option<T> {
    match st.last {
        Some(l) => Some(l[k]),
        None => None,
    }
}

/// What line `k` contributes to the next timestep.
pub open spec fn outcome<M: Mapper>(m: M, streams: Seq<Seq<char>>, st: Progress<MapOut<M>>, k: int) -> Step<
    MapOut<M>,
> {
    line_step(m, streams[k], st.positions[k], last_of(st, k))
}

/// The position of line `k` once it has been read once more.
pub open spec fn advanced<T>(streams: Seq<Seq<char>>, st: Progress<T>, k: int) -> int {
    if st.positions[k] < streams[k].len() {
        st.positions[k] + 1
    } else {
        st.positions[k]
    }
}

/// The first line, from `k` on, that holds an unknown character at its position
/// (the number of lines if there is none).
pub open spec fn first_unknown<M: Mapper>(
    m: M,
    streams: Seq<Seq<char>>,
    st: Progress<MapOut<M>>,
    k: int,
) -> int
    decreases streams.len() - k,
{
    if k >= streams.len() {
        streams.len() as int
    } else if outcome(m, streams, st, k) is Unknown {
        k
    } else {
        first_unknown(m, streams, st, k + 1)
    }
}

/// One call of the parser: the new progress and the timestep it yields, if any.
///
/// When a line holds an unknown character, the lines up to and including it have
/// been read, nothing else changes, and nothing is yielded. Otherwise every line is
/// read; the timestep is yielded unless every line has ended.
pub open spec fn decode_next<M: Mapper>(
    m: M,
    streams: Seq<Seq<char>>,
    st: Progress<MapOut<M>>,
) -> (Progress<MapOut<M>>, Option<ItemView<MapOut<M>>>) {
    let n = streams.len() as int;
    let u = first_unknown(m, streams, st, 0);
    if u < n {
        (
            Progress {
                positions: Seq::new(
                    n as nat,
                    |k: int|
                        if k <= u {
                            advanced(streams, st, k)
                        } else {
                            st.positions[k]
                        },
                ),
                last: st.last,
                emitted: st.emitted,
            },
            None,
        )
    } else {
        let values = Seq::new(n as nat, |k: int| step_val(outcome(m, streams, st, k)));
        let changed = exists|k: int| 0 <= k < n && step_changed(#[trigger] outcome(m, streams, st, k));
        let all_ended = forall|k: int| 0 <= k < n ==> step_ended(#[trigger] outcome(m, streams, st, k));
        let positions = Seq::new(n as nat, |k: int| advanced(streams, st, k));
        if all_ended {
            (Progress { positions, last: Some(values), emitted: st.emitted }, None)
        } else {
            (
                Progress { positions, last: Some(values), emitted: st.emitted + 1 },
                Some((values, st.emitted, changed)),
            )
        }
    }
}

/// The characters each signal line of a waveform text yields, one per timestep.
pub open spec fn signal_streams(s: Seq<char>) -> Seq<Seq<char>> {
    text_lines(s).map_values(|l: LineView| line_stream(l))
}

/// Iterator over decoded timesteps for `N` signal lines.
/// `N` is the number of output lines, not of input lines: empty and
/// comment-only lines are ignored and lines with the same label are joined.
///
/// Yields one [`Item`] per character position. Typically constructed via
/// [`Builder`](crate::Builder) rather than directly.
pub struct Parser<'a, const N: usize, M: Mapper> {
    streams: Vec<Vec<char>>,
    positions: Vec<usize>,
    index: usize,
    last_values: Option<Vec<MapOut<M>>>,
    mapper: M,
    _phantom: PhantomData<&'a str>,
}

impl<'a, const N: usize, M: Mapper> Parser<'a, N, M> {
    /// The characters of each line.
    pub closed spec fn streams(&self) -> Seq<Seq<char>> {
        self.streams@.map_values(|v: Vec<char>| v@)
    }

    pub closed spec fn progress(&self) -> Progress<MapOut<M>> {
        Progress {
            positions: self.positions@.map_values(|p: usize| p as int),
            last: match self.last_values {
                Some(v) => Some(v@),
                None => None,
            },
            emitted: self.index as nat,
        }
    }

    pub closed spec fn mapper(&self) -> M {
        self.mapper
    }

    /// The parser's internal consistency: one position per line, inside the line;
    /// one last value per line; and every line read at least as far as the number
    /// of timesteps yielded, unless it has ended.
    pub closed spec fn wf(&self) -> bool {
        &&& self.positions.len() == self.streams.len()
        &&& forall|k: int| 0 <= k < self.streams.len() ==> #[trigger] self.positions@[k] <= self.streams@[k].len()
        &&& forall|k: int|
            0 <= k < self.streams.len() ==> #[trigger] self.positions@[k] >= self.index || self.positions@[k]
                == self.streams@[k].len()
        &&& self.last_values matches Some(v) ==> v.len() == self.streams.len()
    }

    /// Creates a parser for the at most `N` signal lines of `string`.
    pub fn new(string: &'a str, mapper: M) -> (r: Result<Self, ParseError>)
        ensures
            text_lines(string@).len() <= N ==> (r matches Ok(p) && {
                &&& p.wf()
                &&& p.streams() == signal_streams(string@)
                &&& p.mapper() == mapper
                &&& p.progress().positions == Seq::new(text_lines(string@).len(), |k: int| 0int)
                &&& p.progress().last is None
                &&& p.progress().emitted == 0
            }),
            text_lines(string@).len() > N ==> r == Err::<Self, ParseError>(ParseError::CapacityFull),
    {
        let lines = match string_to_iters::<N>(string) {
            Ok(lines) => lines,
            Err(e) => return Err(e),
        };
        let ghost views = text_lines(string@);
        let mut streams: Vec<Vec<char>> = Vec::new();
        let mut positions: Vec<usize> = Vec::new();
        let mut i: usize = 0;
        while i < lines.len()
            invariant
                i <= lines.len(),
                views == text_lines(string@),
                views == line_parser::line_views(lines@),
                streams.len() == i,
                positions.len() == i,
                forall|k: int| 0 <= k < i ==> (#[trigger] streams@[k])@ == line_stream(views[k]),
                forall|k: int| 0 <= k < i ==> #[trigger] positions@[k] == 0,
            decreases lines.len() - i,
        {
            let chars = line_chars(&lines[i]);
            streams.push(chars);
            positions.push(0);
            i = i + 1;
        }
        let p = Parser { streams, positions, index: 0, last_values: None, mapper, _phantom: PhantomData };
        assert(p.streams() =~= signal_streams(string@));
        assert(p.progress().positions =~= Seq::new(text_lines(string@).len(), |k: int| 0int));
        Ok(p)
    }

    /// Decodes the next timestep.
    ///
    /// Returns `None` when every line has ended, and also, without yielding
    /// anything, when a line holds a character that the mapper does not know.
    pub fn next(&mut self) -> (r: Option<Item<MapOut<M>, N>>)
        requires
            old(self).wf(),
        ensures
            final(self).wf(),
            final(self).streams() == old(self).streams(),
            final(self).mapper() == old(self).mapper(),
            ({
                let (st, out) = decode_next(old(self).mapper(), old(self).streams(), old(self).progress());
                &&& final(self).progress() == st
                &&& match out {
                    Some(v) => r matches Some(item) && item.values@ == v.0 && item.index == v.1
                        && item.changed == v.2,
                    None => r is None,
                }
            }),
    {
        let ghost m = self.mapper;
        let ghost streams = self.streams();
        let ghost st = self.progress();
        let ghost pre_positions = self.positions@;
        let n = self.streams.len();
        let mut item = Item::<MapOut<M>, N>::new();
        let mut kept: Vec<MapOut<M>> = Vec::new();
        let mut all_ended = true;
        let mut k: usize = 0;
        while k < n
            invariant
                n == self.streams.len(),
                n == streams.len(),
                streams == old(self).streams(),
                m == old(self).mapper(),
                st == old(self).progress(),
                self.streams() == streams,
                self.mapper == m,
                self.index == st.emitted,
                self.last_values matches Some(v) ==> v.len() == n,
                st.last == (match self.last_values {
                    Some(v) => Some(v@),
                    None => None::<Seq<MapOut<M>>>,
                }),
                st.positions == pre_positions.map_values(|p: usize| p as int),
                pre_positions.len() == n,
                forall|j: int| 0 <= j < n ==> #[trigger] pre_positions[j] <= streams[j].len(),
                forall|j: int| 0 <= j < n ==> #[trigger] pre_positions[j] >= st.emitted || pre_positions[j] == streams[j].len(),
                forall|j: int| 0 <= j < n ==> (#[trigger] self.streams@[j])@ == streams[j],
                self.positions.len() == n,
                k <= n,
                forall|j: int| 0 <= j < k ==> #[trigger] self.positions@[j] == advanced(streams, st, j),
                forall|j: int| k <= j < n ==> #[trigger] self.positions@[j] == pre_positions[j],
                forall|j: int| 0 <= j < k ==> !(#[trigger] outcome(m, streams, st, j) is Unknown),
                item.values@ == Seq::new(k as nat, |j: int| step_val(outcome(m, streams, st, j))),
                kept@ == item.values@,
                item.index == 0,
                item.changed == exists|j: int| 0 <= j < k && step_changed(#[trigger] outcome(m, streams, st, j)),
                all_ended == forall|j: int| 0 <= j < k ==> step_ended(#[trigger] outcome(m, streams, st, j)),
            decreases n - k,
        {
            let p = self.positions[k];
            let ghost stream_k = streams[k as int];
            assert(self.streams@[k as int]@ == stream_k);
            let last = match &self.last_values {
                Some(lv) => Some(lv[k]),
                None => None,
            };
            assert(st.positions[k as int] == p);
            assert(last == last_of(st, k as int));
            let step = decode_step(&self.mapper, &self.streams[k], p, last);
            let len = self.streams[k].len();
            let np = if p < len {
                p + 1
            } else {
                p
            };
            self.positions.set(k, np);
            match step {
                Step::Unknown => {
                    proof {
                        lemma_first_unknown_at(m, streams, st, k as int);
                        assert(self.progress().positions =~= decode_next(m, streams, st).0.positions);
                    }
                    return None;
                },
                Step::Level { val, changed, ended } => {
                    item.values.push(val);
                    kept.push(val);
                    assert(item.values@ =~= Seq::new(
                        (k + 1) as nat,
                        |j: int| step_val(outcome(m, streams, st, j)),
                    ));
                    item.changed = item.changed || changed;
                    all_ended = all_ended && ended;
                },
            }
            k = k + 1;
        }
        proof {
            lemma_no_unknown(m, streams, st, 0);
            assert(self.progress().positions =~= decode_next(m, streams, st).0.positions);
        }
        self.last_values = Some(kept);
        if all_ended {
            return None;
        }
        proof {
            let j = choose|j: int| 0 <= j < n && !step_ended(#[trigger] outcome(m, streams, st, j));
            assert(pre_positions[j] < streams[j].len());
        }
        item.index = self.index;
        self.index = self.index + 1;
        Some(item)
    }
}

/// When line `k` is the first to hold an unknown character, decoding stops there.
proof fn lemma_first_unknown_at<M: Mapper>(
    m: M,
    streams: Seq<Seq<char>>,
    st: Progress<MapOut<M>>,
    k: int,
)
    requires
        0 <= k < streams.len(),
        outcome(m, streams, st, k) is Unknown,
        forall|j: int| 0 <= j < k ==> !(#[trigger] outcome(m, streams, st, j) is Unknown),
    ensures
        first_unknown(m, streams, st, 0) == k,
{
    lemma_first_unknown_from(m, streams, st, 0, k);
}

proof fn lemma_first_unknown_from<M: Mapper>(
    m: M,
    streams: Seq<Seq<char>>,
    st: Progress<MapOut<M>>,
    i: int,
    k: int,
)
    requires
        0 <= i <= k < streams.len(),
        outcome(m, streams, st, k) is Unknown,
        forall|j: int| 0 <= j < k ==> !(#[trigger] outcome(m, streams, st, j) is Unknown),
    ensures
        first_unknown(m, streams, st, i) == k,
    decreases k - i,
{
    if i < k {
        assert(!(outcome(m, streams, st, i) is Unknown));
        lemma_first_unknown_from(m, streams, st, i + 1, k);
    }
}

proof fn lemma_first_unknown_bounds<M: Mapper>(
    m: M,
    streams: Seq<Seq<char>>,
    st: Progress<MapOut<M>>,
    i: int,
)
    requires
        0 <= i <= streams.len(),
    ensures
        i <= first_unknown(m, streams, st, i) <= streams.len(),
        first_unknown(m, streams, st, i) < streams.len() ==> outcome(
            m,
            streams,
            st,
            first_unknown(m, streams, st, i),
        ) is Unknown,
        forall|j: int|
            i <= j < first_unknown(m, streams, st, i) ==> !(#[trigger] outcome(m, streams, st, j) is Unknown),
    decreases streams.len() - i,
{
    if i < streams.len() && !(outcome(m, streams, st, i) is Unknown) {
        lemma_first_unknown_bounds(m, streams, st, i + 1);
    }
}

/// What one call yields: nothing, and no new values or count, when some line
/// holds a character that the mapper does not know at its position; nothing when
/// every line has ended; otherwise the next timestep, with the count of
/// timesteps yielded so far as its index and, for each line, the value that the
/// line gives at its position.
pub proof fn lemma_decode_next_yields<M: Mapper>(m: M, streams: Seq<Seq<char>>, st: Progress<MapOut<M>>)
    requires
        st.positions.len() == streams.len(),
    ensures
        (exists|k: int| 0 <= k < streams.len() && #[trigger] outcome(m, streams, st, k) is Unknown) ==> ({
            &&& decode_next(m, streams, st).1 is None
            &&& decode_next(m, streams, st).0.last == st.last
            &&& decode_next(m, streams, st).0.emitted == st.emitted
        }),
        (forall|k: int| 0 <= k < streams.len() ==> #[trigger] outcome(m, streams, st, k) is Level
            && step_ended(outcome(m, streams, st, k))) ==> decode_next(m, streams, st).1 is None,
        (forall|k: int| 0 <= k < streams.len() ==> #[trigger] outcome(m, streams, st, k) is Level) && (exists|
            k: int,
        | 0 <= k < streams.len() && !step_ended(#[trigger] outcome(m, streams, st, k))) ==> ({
            let item = decode_next(m, streams, st).1->0;
            &&& decode_next(m, streams, st).1 is Some
            &&& item.1 == st.emitted
            &&& item.0.len() == streams.len()
            &&& forall|k: int| 0 <= k < streams.len() ==> #[trigger] item.0[k] == step_val(outcome(m, streams, st, k))
            &&& decode_next(m, streams, st).0.emitted == st.emitted + 1
            &&& decode_next(m, streams, st).0.last == Some(item.0)
        }),
{
    lemma_first_unknown_bounds(m, streams, st, 0);
    if forall|k: int| 0 <= k < streams.len() ==> #[trigger] outcome(m, streams, st, k) is Level {
        assert forall|j: int| 0 <= j < streams.len() implies !(#[trigger] outcome(m, streams, st, j) is Unknown) by {
            assert(outcome(m, streams, st, j) is Level);
        }
        lemma_no_unknown(m, streams, st, 0);
    }
}

/// When no line holds an unknown character, decoding runs through every line.
pub proof fn lemma_no_unknown<M: Mapper>(m: M, streams: Seq<Seq<char>>, st: Progress<MapOut<M>>, i: int)
    requires
        0 <= i <= streams.len(),
        forall|j: int| 0 <= j < streams.len() ==> !(#[trigger] outcome(m, streams, st, j) is Unknown),
    ensures
        first_unknown(m, streams, st, i) == streams.len(),
    decreases streams.len() - i,
{
    if i < streams.len() {
        assert(!(outcome(m, streams, st, i) is Unknown));
        lemma_no_unknown(m, streams, st, i + 1);
    }
}

/// Decodes one line's contribution to the next timestep.
fn decode_step<M: Mapper>(m: &M, s: &Vec<char>, p: usize, last: Option<MapOut<M>>) -> (r: Step<MapOut<M>>)
    requires
        p <= s.len(),
    ensures
        r == line_step(*m, s@, p as int, last),
{
    if p < s.len() {
        let c = s[p];
        if m.is_toggle(c) {
            let v = match last {
                Some(l) => Some(m.toggle(l)),
                None => if p + 1 < s.len() {
                    let n = s[p + 1];
                    if m.is_toggle(n) {
                        Some(m.high())
                    } else {
                        m.value(n)
                    }
                } else {
                    Some(m.high())
                },
            };
            match v {
                Some(v) => Step::Level { val: v, changed: true, ended: false },
                None => Step::Unknown,
            }
        } else {
            match m.value(c) {
                Some(v) => {
                    let changed = match last {
                        Some(l) => !l.same(&v),
                        None => false,
                    };
                    Step::Level { val: v, changed, ended: false }
                },
                None => Step::Unknown,
            }
        }
    } else {
        let v = match last {
            Some(l) => l,
            None => m.default(),
        };
        Step::Level { val: v, changed: false, ended: true }
    }
}

} // verus!
