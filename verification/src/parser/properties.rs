//! What decoding promises over whole runs of the parser.
use vstd::prelude::*;
use super::{
    Progress, ItemView, Step, decode_next, outcome, first_unknown, advanced, last_of, step_changed,
    step_ended, step_val, lemma_no_unknown, line_step, signal_streams, Parser,
};
use super::line_parser::{
    LineView, blank_line, lemma_blank_line_inserted, lemma_leading_blanks_inserted, lemma_line_trailer_inserted,
    lemma_terminator_appended, line_start, line_stream, line_trailer, same_streams, terminator, text_lines,
};
use super::scan::{is_blank, is_newline};
use super::mapper::{constant, hash};
use super::mapper::{Entry, Mapper, LookupMap, MapOut, BoolMapper, NumMapper, NumLevel, entry_value, lemma_num_toggle_mirrors};

verus! {

/// Every character of every line is one that the mapper knows.
pub open spec fn all_known<M: Mapper>(m: M, streams: Seq<Seq<char>>) -> bool {
    forall|k: int, p: int|
        0 <= k < streams.len() && 0 <= p < streams[k].len() ==> (#[trigger] m.spec_map().spec_get(
            streams[k][p],
        )) is Some
}

/// The length of the longest line.
pub open spec fn longest(streams: Seq<Seq<char>>) -> nat
    decreases streams.len(),
{
    if streams.len() == 0 {
        0
    } else {
        let rest = longest(streams.drop_last());
        if streams.last().len() > rest {
            streams.last().len()
        } else {
            rest
        }
    }
}

/// The progress of a parser that has not been called yet.
pub open spec fn fresh<T>(n: nat) -> Progress<T> {
    Progress { positions: Seq::new(n, |k: int| 0int), last: None, emitted: 0 }
}

/// The first `calls` calls of a parser from progress `st`: the progress they reach
/// and the timesteps they yield.
pub open spec fn run<M: Mapper>(m: M, streams: Seq<Seq<char>>, st: Progress<MapOut<M>>, calls: nat) -> (
    Progress<MapOut<M>>,
    Seq<ItemView<MapOut<M>>>,
)
    decreases calls,
{
    if calls == 0 {
        (st, Seq::empty())
    } else {
        let (st1, out) = decode_next(m, streams, st);
        let (st2, items) = run(m, streams, st1, (calls - 1) as nat);
        (
            st2,
            match out {
                Some(item) => seq![item] + items,
                None => items,
            },
        )
    }
}

/// `st` is where a parser stands after `t` timesteps over lines it can decode.
pub open spec fn reached<T>(streams: Seq<Seq<char>>, st: Progress<T>, t: nat) -> bool {
    &&& st.positions.len() == streams.len()
    &&& forall|k: int|
        0 <= k < streams.len() ==> #[trigger] st.positions[k] == if t < streams[k].len() {
            t as int
        } else {
            streams[k].len() as int
        }
    &&& st.emitted == t
    &&& (t == 0 <==> st.last is None)
    &&& st.last matches Some(l) ==> l.len() == streams.len()
}

proof fn lemma_longest(streams: Seq<Seq<char>>)
    ensures
        forall|k: int| 0 <= k < streams.len() ==> (#[trigger] streams[k]).len() <= longest(streams),
        streams.len() > 0 ==> exists|k: int|
            0 <= k < streams.len() && (#[trigger] streams[k]).len() == longest(streams),
    decreases streams.len(),
{
    if streams.len() > 0 {
        let rest = streams.drop_last();
        lemma_longest(rest);
        assert forall|k: int| 0 <= k < streams.len() implies (#[trigger] streams[k]).len() <= longest(
            streams,
        ) by {
            if k < rest.len() {
                assert(rest[k] == streams[k]);
            }
        }
        if streams.last().len() <= longest(rest) && rest.len() > 0 {
            let k = choose|k: int| 0 <= k < rest.len() && (#[trigger] rest[k]).len() == longest(rest);
            assert(streams[k] == rest[k]);
        }
    }
}

/// Over known characters, no line stops decoding.
proof fn lemma_known_steps<M: Mapper>(m: M, streams: Seq<Seq<char>>, st: Progress<MapOut<M>>, t: nat)
    requires
        all_known(m, streams),
        reached(streams, st, t),
    ensures
        forall|k: int| 0 <= k < streams.len() ==> !(#[trigger] outcome(m, streams, st, k) is Unknown),
        first_unknown(m, streams, st, 0) == streams.len(),
{
    assert forall|k: int| 0 <= k < streams.len() implies !(#[trigger] outcome(
        m,
        streams,
        st,
        k,
    ) is Unknown) by {
        let s = streams[k];
        let p = st.positions[k];
        if p < s.len() {
            assert(m.spec_map().spec_get(streams[k][p]) is Some);
            if p + 1 < s.len() {
                assert(m.spec_map().spec_get(streams[k][p + 1]) is Some);
            }
        }
    }
    lemma_no_unknown(m, streams, st, 0);
}

/// Over known characters, a parser that has yielded `t` timesteps, fewer than the
/// longest line has characters, yields timestep `t` and moves on by one character.
proof fn lemma_step_yields<M: Mapper>(m: M, streams: Seq<Seq<char>>, st: Progress<MapOut<M>>, t: nat)
    requires
        all_known(m, streams),
        reached(streams, st, t),
        t < longest(streams),
    ensures
        decode_next(m, streams, st).1 matches Some(item) && item.1 == t,
        reached(streams, decode_next(m, streams, st).0, t + 1),
{
    lemma_known_steps(m, streams, st, t);
    lemma_longest(streams);
    let n = streams.len();
    let k = choose|k: int| 0 <= k < n && (#[trigger] streams[k]).len() == longest(streams);
    assert(!step_ended(outcome(m, streams, st, k)));
    let next = decode_next(m, streams, st).0;
    assert forall|j: int| 0 <= j < n implies #[trigger] next.positions[j] == if t + 1 < streams[j].len() {
        (t + 1) as int
    } else {
        streams[j].len() as int
    } by {
        assert(next.positions[j] == advanced(streams, st, j));
    }
}

/// Over known characters, once every line is read to its end, a call yields nothing.
proof fn lemma_step_ends<M: Mapper>(m: M, streams: Seq<Seq<char>>, st: Progress<MapOut<M>>, t: nat)
    requires
        all_known(m, streams),
        reached(streams, st, t),
        t >= longest(streams),
    ensures
        decode_next(m, streams, st).1 is None,
{
    lemma_known_steps(m, streams, st, t);
    lemma_longest(streams);
    assert forall|k: int| 0 <= k < streams.len() implies step_ended(
        #[trigger] outcome(m, streams, st, k),
    ) by {
        assert(streams[k].len() <= longest(streams));
    }
}

proof fn lemma_run_known<M: Mapper>(
    m: M,
    streams: Seq<Seq<char>>,
    st: Progress<MapOut<M>>,
    t: nat,
    calls: nat,
)
    requires
        all_known(m, streams),
        reached(streams, st, t),
        t + calls <= longest(streams),
    ensures
        reached(streams, run(m, streams, st, calls).0, t + calls),
        run(m, streams, st, calls).1.len() == calls,
        forall|i: int| 0 <= i < calls ==> (#[trigger] run(m, streams, st, calls).1[i]).1 == t + i,
    decreases calls,
{
    if calls > 0 {
        lemma_step_yields(m, streams, st, t);
        let (st1, out) = decode_next(m, streams, st);
        lemma_run_known(m, streams, st1, t + 1, (calls - 1) as nat);
        let items = run(m, streams, st1, (calls - 1) as nat).1;
        let all = run(m, streams, st, calls).1;
        assert forall|i: int| 0 <= i < calls implies (#[trigger] all[i]).1 == t + i by {
            if i > 0 {
                assert(all[i] == items[i - 1]);
            }
        }
    }
}

/// One item per character position: when the mapper knows every character, a
/// fresh parser yields exactly as many timesteps as its longest line has
/// characters, with the indices 0, 1, 2, ... in order, and nothing after that.
pub proof fn lemma_one_item_per_position<M: Mapper>(m: M, streams: Seq<Seq<char>>)
    requires
        all_known(m, streams),
    ensures
        run(m, streams, fresh(streams.len()), longest(streams)).1.len() == longest(streams),
        forall|i: int|
            0 <= i < longest(streams) ==> (#[trigger] run(
                m,
                streams,
                fresh(streams.len()),
                longest(streams),
            ).1[i]).1 == i,
        decode_next(m, streams, run(m, streams, fresh(streams.len()), longest(streams)).0).1 is None,
{
    let st0 = fresh::<MapOut<M>>(streams.len());
    assert(reached(streams, st0, 0));
    lemma_run_known(m, streams, st0, 0, longest(streams));
    lemma_step_ends(m, streams, run(m, streams, st0, longest(streams)).0, longest(streams));
}

/// Running `a` calls and then `b` more is running `a + b` calls.
proof fn lemma_run_split<M: Mapper>(
    m: M,
    streams: Seq<Seq<char>>,
    st: Progress<MapOut<M>>,
    a: nat,
    b: nat,
)
    ensures
        run(m, streams, st, a + b).0 == run(m, streams, run(m, streams, st, a).0, b).0,
        run(m, streams, st, a + b).1 == run(m, streams, st, a).1 + run(
            m,
            streams,
            run(m, streams, st, a).0,
            b,
        ).1,
    decreases a,
{
    if a == 0 {
        assert(run(m, streams, st, a).1 + run(m, streams, st, b).1 =~= run(m, streams, st, b).1);
    } else {
        let (st1, out) = decode_next(m, streams, st);
        lemma_run_split(m, streams, st1, (a - 1) as nat, b);
        assert(((a + b) - 1) as nat == ((a - 1) as nat + b) as nat);
        let x = run(m, streams, st1, (a - 1) as nat).1;
        let y = run(m, streams, run(m, streams, st1, (a - 1) as nat).0, b).1;
        match out {
            Some(item) => {
                assert(seq![item] + (x + y) =~= (seq![item] + x) + y);
            },
            None => {},
        }
    }
}

/// The progress a fresh parser reaches after `t` calls.
pub open spec fn state_at<M: Mapper>(m: M, streams: Seq<Seq<char>>, t: nat) -> Progress<MapOut<M>> {
    run(m, streams, fresh(streams.len()), t).0
}

/// Line `l` holds a toggle character at position `k`.
pub open spec fn toggle_at<M: Mapper>(m: M, streams: Seq<Seq<char>>, l: int, k: int) -> bool {
    &&& 0 <= k < streams[l].len()
    &&& m.spec_map().spec_get(streams[l][k]) == Some(Entry::<MapOut<M>>::Toggle)
}

/// Where line `l` stands after `t` timesteps: at `t`, or at its end.
pub open spec fn pos_at(streams: Seq<Seq<char>>, l: int, t: int) -> int {
    if t < streams[l].len() {
        t
    } else {
        streams[l].len() as int
    }
}

/// Over known characters, the `k`-th timestep of a fresh parser is what its
/// `k`-th call yields, from the progress it has reached after `k` calls.
proof fn lemma_item_at<M: Mapper>(m: M, streams: Seq<Seq<char>>, k: nat)
    requires
        all_known(m, streams),
        k < longest(streams),
    ensures
        run(m, streams, fresh(streams.len()), longest(streams)).1.len() == longest(streams),
        reached(streams, state_at(m, streams, k), k),
        decode_next(m, streams, state_at(m, streams, k)).1 is Some,
        run(m, streams, fresh(streams.len()), longest(streams)).1[k as int] == decode_next(
            m,
            streams,
            state_at(m, streams, k),
        ).1->0,
        k > 0 ==> state_at(m, streams, k).last == Some(
            run(m, streams, fresh(streams.len()), longest(streams)).1[k - 1].0,
        ),
    decreases k,
{
    let n = streams.len();
    let len = longest(streams);
    let st0 = fresh::<MapOut<M>>(n);
    assert(reached(streams, st0, 0));
    lemma_run_known(m, streams, st0, 0, len);
    lemma_run_known(m, streams, st0, 0, k);
    let stk = state_at(m, streams, k);
    lemma_step_yields(m, streams, stk, k);
    lemma_run_split(m, streams, st0, k, (len - k) as nat);
    let rest = run(m, streams, stk, (len - k) as nat);
    assert(rest.1[0] == decode_next(m, streams, stk).1->0);
    assert(run(m, streams, st0, len).1[k as int] == rest.1[0]);
    if k > 0 {
        let j = (k - 1) as nat;
        let stj = state_at(m, streams, j);
        lemma_item_at(m, streams, j);
        lemma_run_split(m, streams, st0, j, 1);
        let stj1 = decode_next(m, streams, stj).0;
        assert(run(m, streams, stj1, 0).0 == stj1);
        assert(run(m, streams, stj, 1).0 == stj1);
        lemma_known_steps(m, streams, stj, j);
    }
}

/// Between the timesteps with values `prev` and `cur`, some line's value differs,
/// or some line holds a toggle character at position `k`.
pub open spec fn run_step_changes<M: Mapper>(
    m: M,
    streams: Seq<Seq<char>>,
    prev: Seq<MapOut<M>>,
    cur: Seq<MapOut<M>>,
    k: int,
) -> bool {
    exists|l: int| #![trigger cur[l]] 0 <= l < streams.len() && (cur[l] != prev[l] || toggle_at(m, streams, l, k))
}

/// The timesteps of a whole run of a fresh parser, as many calls as its longest line has characters.
pub open spec fn run_items<M: Mapper>(m: M, streams: Seq<Seq<char>>) -> Seq<ItemView<MapOut<M>>> {
    run(m, streams, fresh(streams.len()), longest(streams)).1
}

/// The values and change flags of a whole run. When the mapper knows every
/// character, the `k`-th timestep of a fresh parser holds, for each line, the
/// value that line decodes at position `k` given its previous value: a value
/// character's value, a toggled previous value, the previous value once the line
/// has ended, and at the first timestep a toggle takes the level of the next
/// character (high when that is a toggle or missing). The first timestep is
/// marked as changed exactly when some line starts with a toggle; every later one
/// exactly when some value differs from the one before or some line has a toggle
/// at that position.
pub proof fn lemma_run_levels<M: Mapper>(m: M, streams: Seq<Seq<char>>)
    requires
        all_known(m, streams),
    ensures
        run_items(m, streams).len() == longest(streams),
        forall|k: int|
            0 <= k < longest(streams) ==> (#[trigger] run_items(m, streams)[k]).0.len() == streams.len(),
        forall|k: int, l: int|
            0 <= k < longest(streams) && 0 <= l < streams.len() ==> (#[trigger] run_items(
                m,
                streams,
            )[k].0[l]) == step_val(
                line_step(
                    m,
                    streams[l],
                    pos_at(streams, l, k),
                    if k == 0 {
                        None
                    } else {
                        Some(run_items(m, streams)[k - 1].0[l])
                    },
                ),
            ),
        longest(streams) > 0 ==> run_items(m, streams)[0].2 == starts_with_toggle(m, streams),
        forall|k: int|
            0 < k < longest(streams) ==> (#[trigger] run_items(m, streams)[k]).2 == run_step_changes(
                m,
                streams,
                run_items(m, streams)[k - 1].0,
                run_items(m, streams)[k].0,
                k,
            ),
{
    let len = longest(streams);
    if len > 0 {
        lemma_item_at(m, streams, 0);
        lemma_first_changed(m, streams);
    } else {
        lemma_run_known(m, streams, fresh(streams.len()), 0, 0);
    }
    assert forall|k: int| 0 <= k < len implies (#[trigger] run_items(m, streams)[k]).0.len()
        == streams.len() by {
        lemma_item_at(m, streams, k as nat);
    }
    assert forall|k: int, l: int| 0 <= k < len && 0 <= l < streams.len() implies (#[trigger] run_items(
        m,
        streams,
    )[k].0[l]) == step_val(
        line_step(
            m,
            streams[l],
            pos_at(streams, l, k),
            if k == 0 {
                None
            } else {
                Some(run_items(m, streams)[k - 1].0[l])
            },
        ),
    ) by {
        lemma_value_at(m, streams, k as nat, l);
    }
    assert forall|k: int| 0 < k < len implies (#[trigger] run_items(m, streams)[k]).2
        == run_step_changes(m, streams, run_items(m, streams)[k - 1].0, run_items(m, streams)[k].0, k) by {
        lemma_changed_at(m, streams, k as nat);
    }
}

proof fn lemma_value_at<M: Mapper>(m: M, streams: Seq<Seq<char>>, k: nat, l: int)
    requires
        all_known(m, streams),
        k < longest(streams),
        0 <= l < streams.len(),
    ensures
        run_items(m, streams)[k as int].0[l] == step_val(
            line_step(
                m,
                streams[l],
                pos_at(streams, l, k as int),
                if k == 0 {
                    None
                } else {
                    Some(run_items(m, streams)[k - 1].0[l])
                },
            ),
        ),
{
    lemma_item_at(m, streams, k);
    let st = state_at(m, streams, k);
    lemma_known_steps(m, streams, st, k);
    if k > 0 {
        lemma_item_at(m, streams, (k - 1) as nat);
    }
}

proof fn lemma_first_changed<M: Mapper>(m: M, streams: Seq<Seq<char>>)
    requires
        all_known(m, streams),
        longest(streams) > 0,
    ensures
        run_items(m, streams)[0].2 == starts_with_toggle(m, streams),
{
    let n = streams.len();
    lemma_item_at(m, streams, 0);
    let st0 = fresh::<MapOut<M>>(n);
    assert(state_at(m, streams, 0) == st0);
    lemma_first_step_changed(m, streams);
}

proof fn lemma_changed_at<M: Mapper>(m: M, streams: Seq<Seq<char>>, k: nat)
    requires
        all_known(m, streams),
        0 < k < longest(streams),
    ensures
        run_items(m, streams)[k as int].2 == run_step_changes(
            m,
            streams,
            run_items(m, streams)[k - 1].0,
            run_items(m, streams)[k as int].0,
            k as int,
        ),
{
    let n = streams.len();
    let items = run_items(m, streams);
    lemma_item_at(m, streams, k);
    let st = state_at(m, streams, k);
    assert(reached(streams, st, k));
    assert(forall|l: int| 0 <= l < n ==> 0 <= #[trigger] st.positions[l]);
    lemma_changed_means_difference(m, streams, st);
    let item = decode_next(m, streams, st).1->0;
    assert(items[k as int] == item);
    let prev = items[k - 1].0;
    assert(st.last->0 == prev);
    assert forall|l: int| 0 <= l < n implies #[trigger] toggles_at(m, streams, st, l) == toggle_at(
        m,
        streams,
        l,
        k as int,
    ) by {
        assert(st.positions[l] == pos_at(streams, l, k as int));
    }
    if !run_step_changes(m, streams, prev, item.0, k as int) {
        assert forall|l: int| 0 <= l < streams.len() implies !(item.0[l] != st.last->0[l]
            || #[trigger] toggles_at(m, streams, st, l)) by {
            assert(st.positions[l] == pos_at(streams, l, k as int));
            assert(!(item.0[l] != prev[l] || toggle_at(m, streams, l, k as int)));
        }
    }
    if !step_changes(m, streams, st, item.0) {
        assert forall|l: int| 0 <= l < streams.len() implies !(item.0[l] != prev[l]
            || #[trigger] toggle_at(m, streams, l, k as int)) by {
            assert(st.positions[l] == pos_at(streams, l, k as int));
            assert(!(item.0[l] != st.last->0[l] || toggles_at(m, streams, st, l)));
        }
    }
}

/// Once every line has been read to its end, every further call yields nothing
/// and changes neither the positions nor the count of yielded timesteps.
pub proof fn lemma_exhausted_stays<M: Mapper>(
    m: M,
    streams: Seq<Seq<char>>,
    st: Progress<MapOut<M>>,
)
    requires
        st.positions.len() == streams.len(),
        forall|k: int| 0 <= k < streams.len() ==> #[trigger] st.positions[k] == streams[k].len(),
    ensures
        decode_next(m, streams, st).1 is None,
        decode_next(m, streams, st).0.positions == st.positions,
        decode_next(m, streams, st).0.emitted == st.emitted,
{
    let n = streams.len();
    assert forall|k: int| 0 <= k < n implies !(#[trigger] outcome(m, streams, st, k) is Unknown)
        && step_ended(outcome(m, streams, st, k)) by {
        assert(st.positions[k] == streams[k].len());
    }
    lemma_no_unknown(m, streams, st, 0);
    assert(decode_next(m, streams, st).0.positions =~= st.positions);
}

/// A toggle character forces a change: when a line holds a toggle at its position
/// and the call yields a timestep, that timestep is marked as changed.
pub proof fn lemma_toggle_marks_change<M: Mapper>(
    m: M,
    streams: Seq<Seq<char>>,
    st: Progress<MapOut<M>>,
    k: int,
)
    requires
        0 <= k < streams.len(),
        st.positions.len() == streams.len(),
        0 <= st.positions[k] < streams[k].len(),
        m.spec_map().spec_get(streams[k][st.positions[k]]) == Some(Entry::<MapOut<M>>::Toggle),
        decode_next(m, streams, st).1 is Some,
    ensures
        decode_next(m, streams, st).1 matches Some(item) && item.2,
{
    if first_unknown(m, streams, st, 0) < streams.len() {
    } else {
        lemma_first_unknown_none(m, streams, st, 0);
        assert(step_changed(outcome(m, streams, st, k)));
    }
}

proof fn lemma_first_unknown_none<M: Mapper>(
    m: M,
    streams: Seq<Seq<char>>,
    st: Progress<MapOut<M>>,
    i: int,
)
    requires
        0 <= i <= streams.len(),
        first_unknown(m, streams, st, i) >= streams.len(),
    ensures
        forall|j: int| i <= j < streams.len() ==> !(#[trigger] outcome(m, streams, st, j) is Unknown),
    decreases streams.len() - i,
{
    if i < streams.len() {
        lemma_first_unknown_none(m, streams, st, i + 1);
    }
}

/// Some line starts with a toggle character.
pub open spec fn starts_with_toggle<M: Mapper>(m: M, streams: Seq<Seq<char>>) -> bool {
    exists|l: int| 0 <= l < streams.len() && #[trigger] toggle_at(m, streams, l, 0)
}

/// The first timestep is marked as changed exactly when some line starts with a
/// toggle character: before it there is no previous value to differ from.
pub proof fn lemma_first_step_changed<M: Mapper>(m: M, streams: Seq<Seq<char>>)
    requires
        decode_next(m, streams, fresh(streams.len())).1 is Some,
    ensures
        (decode_next(m, streams, fresh(streams.len())).1->0).2 == starts_with_toggle(m, streams),
{
    let st = fresh::<MapOut<M>>(streams.len());
    let n = streams.len();
    if first_unknown(m, streams, st, 0) >= n {
        lemma_first_unknown_none(m, streams, st, 0);
        assert forall|k: int| 0 <= k < n implies step_changed(#[trigger] outcome(m, streams, st, k))
            == toggle_at(m, streams, k, 0) by {
            assert(st.positions[k] == 0);
            assert(last_of(st, k) is None);
        }
        let item = decode_next(m, streams, st).1->0;
        if item.2 {
            let k = choose|k: int| 0 <= k < n && step_changed(#[trigger] outcome(m, streams, st, k));
            assert(toggle_at(m, streams, k, 0));
        } else {
            assert forall|k: int| 0 <= k < n implies !#[trigger] toggle_at(m, streams, k, 0) by {
                assert(!step_changed(outcome(m, streams, st, k)));
            }
        }
    }
}

/// Line `k` holds a toggle character at its position.
pub open spec fn toggles_at<M: Mapper>(m: M, streams: Seq<Seq<char>>, st: Progress<MapOut<M>>, k: int) -> bool {
    &&& 0 <= st.positions[k] < streams[k].len()
    &&& m.spec_map().spec_get(streams[k][st.positions[k]]) == Some(Entry::<MapOut<M>>::Toggle)
}

/// Some line's value `values[k]` differs from its previous one, or some line holds
/// a toggle character at its position.
pub open spec fn step_changes<M: Mapper>(
    m: M,
    streams: Seq<Seq<char>>,
    st: Progress<MapOut<M>>,
    values: Seq<MapOut<M>>,
) -> bool {
    exists|k: int|
        #![trigger values[k]]
        0 <= k < streams.len() && (values[k] != st.last->0[k] || toggles_at(m, streams, st, k))
}

/// After the first timestep, a timestep is marked as changed exactly when some line's
/// value differs from its previous value or some line holds a toggle character.
pub proof fn lemma_changed_means_difference<M: Mapper>(
    m: M,
    streams: Seq<Seq<char>>,
    st: Progress<MapOut<M>>,
)
    requires
        st.positions.len() == streams.len(),
        forall|k: int| 0 <= k < streams.len() ==> 0 <= #[trigger] st.positions[k],
        st.last matches Some(l) && l.len() == streams.len(),
        decode_next(m, streams, st).1 is Some,
    ensures
        (decode_next(m, streams, st).1->0).2 == step_changes(
            m,
            streams,
            st,
            (decode_next(m, streams, st).1->0).0,
        ),
{
    let n = streams.len();
    if first_unknown(m, streams, st, 0) >= n {
        lemma_first_unknown_none(m, streams, st, 0);
        let item = decode_next(m, streams, st).1->0;
        let l = st.last->0;
        assert forall|k: int| 0 <= k < n implies step_changed(#[trigger] outcome(m, streams, st, k)) == (
        item.0[k] != l[k] || toggles_at(m, streams, st, k)) by {
            assert(item.0[k] == step_val(outcome(m, streams, st, k)));
            assert(last_of(st, k) == Some(l[k]));
        }
        if item.2 {
            let k = choose|k: int| 0 <= k < n && step_changed(#[trigger] outcome(m, streams, st, k));
            assert(toggles_at(m, streams, st, k) || item.0[k] != l[k]);
        } else {
            assert forall|k: int| 0 <= k < n implies !(item.0[k] != l[k] || #[trigger] toggles_at(
                m,
                streams,
                st,
                k,
            )) by {
                assert(!step_changed(outcome(m, streams, st, k)));
            }
        }
    }
}

/// A line that has ended keeps its previous value in every later timestep.
pub proof fn lemma_ended_line_keeps_value<M: Mapper>(
    m: M,
    streams: Seq<Seq<char>>,
    st: Progress<MapOut<M>>,
    k: int,
)
    requires
        0 <= k < streams.len(),
        st.positions.len() == streams.len(),
        st.positions[k] >= streams[k].len(),
        st.last matches Some(l) && l.len() == streams.len(),
        decode_next(m, streams, st).1 is Some,
    ensures
        decode_next(m, streams, st).1 matches Some(item) && item.0[k] == st.last->0[k],
{
    if first_unknown(m, streams, st, 0) < streams.len() {
    } else {
        assert(step_val(outcome(m, streams, st, k)) == st.last->0[k]);
    }
}

/// Indices count the yielded timesteps: over any number of calls, the timesteps
/// a parser yields carry consecutive indices, starting at the number it had
/// yielded before, whatever characters stop decoding on the way.
pub proof fn lemma_indices_count<M: Mapper>(
    m: M,
    streams: Seq<Seq<char>>,
    st: Progress<MapOut<M>>,
    calls: nat,
)
    ensures
        run(m, streams, st, calls).0.emitted == st.emitted + run(m, streams, st, calls).1.len(),
        forall|i: int|
            0 <= i < run(m, streams, st, calls).1.len() ==> (#[trigger] run(m, streams, st, calls).1[i]).1
                == st.emitted + i,
    decreases calls,
{
    if calls > 0 {
        let (st1, out) = decode_next(m, streams, st);
        lemma_indices_count(m, streams, st1, (calls - 1) as nat);
        let items = run(m, streams, st1, (calls - 1) as nat).1;
        let all = run(m, streams, st, calls).1;
        if out is Some {
            assert forall|i: int| 0 <= i < all.len() implies (#[trigger] all[i]).1 == st.emitted + i by {
                if i > 0 {
                    assert(all[i] == items[i - 1]);
                }
            }
        }
    }
}

/// The lookup's low value is at most its high value, and every value it maps a
/// character to lies between them.
pub open spec fn values_bounded<L: LookupMap>(l: L) -> bool where L::Out: NumLevel {
    &&& l.spec_min().to_int() <= l.spec_max().to_int()
    &&& forall|c: char| #[trigger]
        entry_value(l.spec_get(c)) matches Some(v) ==> l.spec_min().to_int() <= v.to_int()
            <= l.spec_max().to_int()
}

/// All values of line `k`'s last timestep lie between `lo` and `hi`.
pub open spec fn last_between<T: NumLevel>(st: Progress<T>, lo: int, hi: int) -> bool {
    st.last matches Some(l) ==> forall|k: int| 0 <= k < l.len() ==> lo <= (#[trigger] l[k]).to_int() <= hi
}

/// With a numeric mapper whose lookup keeps its values between its extremes, every
/// value the parser decodes stays between them; so every toggle it applies is the
/// exact mirror `min + max - v` and never wraps around.
pub proof fn lemma_num_values_stay_between<L: LookupMap>(
    m: NumMapper<L>,
    streams: Seq<Seq<char>>,
    st: Progress<L::Out>,
)
    where L::Out: NumLevel
    requires
        values_bounded(m.lookup()),
        st.positions.len() == streams.len(),
        st.last matches Some(l) ==> l.len() == streams.len(),
        last_between(st, m.lookup().spec_min().to_int(), m.lookup().spec_max().to_int()),
    ensures
        last_between(
            decode_next(m, streams, st).0,
            m.lookup().spec_min().to_int(),
            m.lookup().spec_max().to_int(),
        ),
        decode_next(m, streams, st).1 matches Some(item) ==> forall|k: int|
            0 <= k < item.0.len() ==> m.lookup().spec_min().to_int() <= (#[trigger] item.0[k]).to_int()
                <= m.lookup().spec_max().to_int(),
{
    let lo = m.lookup().spec_min().to_int();
    let hi = m.lookup().spec_max().to_int();
    let n = streams.len();
    assert forall|k: int| 0 <= k < n && !(outcome(m, streams, st, k) is Unknown) implies lo <= step_val(
        #[trigger] outcome(m, streams, st, k),
    ).to_int() <= hi by {
        let s = streams[k];
        let p = st.positions[k];
        match last_of(st, k) {
            Some(l) => {
                assert(lo <= l.to_int() <= hi);
                if p < s.len() && m.lookup().spec_get(s[p]) == Some(Entry::<L::Out>::Toggle) {
                    lemma_num_toggle_mirrors(m, l);
                }
            },
            None => {
                if p < s.len() {
                    if p + 1 < s.len() {
                        assert(entry_value(m.lookup().spec_get(s[p + 1])) matches Some(v) ==> lo
                            <= v.to_int() <= hi);
                    }
                    assert(entry_value(m.lookup().spec_get(s[p])) matches Some(v) ==> lo <= v.to_int()
                        <= hi);
                }
            },
        }
    }
    if first_unknown(m, streams, st, 0) >= n {
        lemma_first_unknown_none(m, streams, st, 0);
    }
}

/// The built-in numeric lookup keeps its values between zero and one.
pub proof fn lemma_builtin_num_bounded<T: NumLevel>(l: crate::parser::mapper::default::LookupNum<T>)
    ensures
        values_bounded(l),
{
    T::lemma_constants();
}

/// A slice-backed numeric lookup keeps its values between its extremes.
pub proof fn lemma_const_num_bounded<'a, T: NumLevel>(
    l: crate::parser::mapper::constant::LookupNum<'a, T>,
    map: Seq<(char, Entry<T>)>,
)
    requires
        l.describes(map),
    ensures
        values_bounded(l),
{
    if exists|v: T| constant::value_in(map, v) {
        let v = choose|v: T| constant::value_in(map, v);
        constant::lemma_values_between(l, map, v);
    } else {
        T::lemma_constants();
    }
    assert forall|c: char| #[trigger]
        entry_value(l.spec_get(c)) is Some implies l.spec_min().to_int() <= entry_value(
        l.spec_get(c),
    )->0.to_int() <= l.spec_max().to_int() by {
        constant::lemma_found_value(map, 0, c);
        if let Some(v) = entry_value(l.spec_get(c)) {
            constant::lemma_values_between(l, map, v);
        }
    }
}

/// A `HashMap`-backed numeric lookup keeps its values between its extremes.
pub proof fn lemma_hash_num_bounded<'a, T: NumLevel>(
    l: crate::parser::mapper::hash::LookupNum<'a, T>,
    map: Map<char, Entry<T>>,
)
    requires
        l.describes(map),
    ensures
        values_bounded(l),
{
    if exists|v: T| hash::value_in(map, v) {
        let v = choose|v: T| hash::value_in(map, v);
        hash::lemma_values_between(l, map, v);
    } else {
        T::lemma_constants();
    }
    assert forall|c: char| #[trigger]
        entry_value(l.spec_get(c)) is Some implies l.spec_min().to_int() <= entry_value(
        l.spec_get(c),
    )->0.to_int() <= l.spec_max().to_int() by {
        if let Some(v) = entry_value(l.spec_get(c)) {
            assert(map.values().contains(map[c]));
            hash::lemma_values_between(l, map, v);
        }
    }
}

/// The built-in character set knows every character, so a boolean parser over it
/// yields one timestep per character position of its longest line.
pub proof fn lemma_builtin_bool_knows_all(
    m: BoolMapper<crate::parser::mapper::default::LookupBool>,
    streams: Seq<Seq<char>>,
)
    ensures
        all_known(m, streams),
{
}

/// The built-in character set knows every character, so a numeric parser over it
/// yields one timestep per character position of its longest line.
pub proof fn lemma_builtin_num_knows_all<T: NumLevel>(
    m: NumMapper<crate::parser::mapper::default::LookupNum<T>>,
    streams: Seq<Seq<char>>,
)
    ensures
        all_known(m, streams),
{
}

/// Signal lines with the same streams give a parser the same lines to decode.
proof fn lemma_same_streams_decode(a: Seq<LineView>, c: Seq<LineView>)
    requires
        same_streams(a, c),
    ensures
        a.map_values(|l: LineView| line_stream(l)) == c.map_values(|l: LineView| line_stream(l)),
{
    assert(a.map_values(|l: LineView| line_stream(l)) =~= c.map_values(|l: LineView| line_stream(l)));
}

/// A line of blanks or of a comment alone, with or without its terminator, put
/// where a line of a text starts and ending where a line starts, leaves what a
/// parser of the text decodes as it was: as many signal lines, each yielding the
/// same characters. Lines may end in `'\n'`, `'\r'` or `"\r\n"`.
pub proof fn lemma_blank_line_same_streams(p: Seq<char>, b: Seq<char>, q: Seq<char>)
    requires
        blank_line(b),
        line_start(p + q, p.len() as int),
        line_start(p + b + q, p.len() as int),
        line_start(p + b + q, (p.len() + b.len()) as int),
    ensures
        text_lines(p + b + q).len() == text_lines(p + q).len(),
        signal_streams(p + b + q) == signal_streams(p + q),
{
    lemma_blank_line_inserted(p, b, q);
    lemma_same_streams_decode(text_lines(p + b + q), text_lines(p + q));
}

/// Blanks put at the start of any line of a text leave what a parser of the text
/// decodes as it was: as many signal lines, each yielding the same characters.
pub proof fn lemma_leading_blanks_same_streams(p: Seq<char>, x: Seq<char>, q: Seq<char>)
    requires
        line_start(p + q, p.len() as int),
        line_start(p + x + q, p.len() as int),
        forall|j: int| 0 <= j < x.len() ==> is_blank(#[trigger] x[j]),
    ensures
        text_lines(p + x + q).len() == text_lines(p + q).len(),
        signal_streams(p + x + q) == signal_streams(p + q),
{
    lemma_leading_blanks_inserted(p, x, q);
    lemma_same_streams_decode(text_lines(p + x + q), text_lines(p + q));
}

/// Blanks, or a comment, put at the end of any line of a text (before its
/// terminator, or at the end of the text) leave what a parser of the text
/// decodes as it was: as many signal lines, each yielding the same characters.
pub proof fn lemma_line_trailer_same_streams(p: Seq<char>, w: Seq<char>, y: Seq<char>, q: Seq<char>)
    requires
        line_start(p + w + q, p.len() as int),
        line_start(p + w + y + q, p.len() as int),
        forall|j: int| 0 <= j < w.len() ==> !is_newline(#[trigger] w[j]),
        line_trailer(y),
        q.len() == 0 || is_newline(q[0]),
    ensures
        text_lines(p + w + y + q).len() == text_lines(p + w + q).len(),
        signal_streams(p + w + y + q) == signal_streams(p + w + q),
{
    lemma_line_trailer_inserted(p, w, y, q);
    lemma_same_streams_decode(text_lines(p + w + y + q), text_lines(p + w + q));
}

/// A line terminator put after the last line of a text, where it had none,
/// leaves what a parser of the text decodes as it was.
pub proof fn lemma_terminator_same_streams(s: Seq<char>, n: Seq<char>)
    requires
        terminator(n),
        s.len() == 0 || !is_newline(s.last()),
    ensures
        text_lines(s + n).len() == text_lines(s).len(),
        signal_streams(s + n) == signal_streams(s),
{
    lemma_terminator_appended(s, n);
    lemma_same_streams_decode(text_lines(s + n), text_lines(s));
}

/// A line of blanks or of a comment alone, added after the last line of a text
/// that had no terminator (with the terminator that line then needs), leaves
/// what a parser of the text decodes as it was.
pub proof fn lemma_blank_line_appended_same_streams(s: Seq<char>, n: Seq<char>, b: Seq<char>)
    requires
        terminator(n),
        s.len() == 0 || !is_newline(s.last()),
        blank_line(b),
        line_start(s + n + b, (s.len() + n.len()) as int),
    ensures
        text_lines(s + n + b).len() == text_lines(s).len(),
        signal_streams(s + n + b) == signal_streams(s),
{
    let p = s + n;
    let e: Seq<char> = Seq::empty();
    assert(p + e =~= p);
    assert(p + b + e =~= s + n + b);
    assert((s + n + b).len() == p.len() + b.len());
    lemma_blank_line_same_streams(p, b, e);
    lemma_terminator_same_streams(s, n);
}

/// The items among what a series of calls yielded, in order.
pub open spec fn somes<T>(outs: Seq<Option<T>>) -> Seq<T>
    decreases outs.len(),
{
    if outs.len() == 0 {
        Seq::empty()
    } else {
        match outs[0] {
            Some(x) => seq![x] + somes(outs.drop_first()),
            None => somes(outs.drop_first()),
        }
    }
}

/// A series of `next` calls on a parser: `states[i]` is the parser before call
/// `i` and `outs[i]` what that call yielded (the item's values, index and
/// changed flag), each call as `next` promises.
pub open spec fn next_calls<'a, const N: usize, M: Mapper>(
    states: Seq<Parser<'a, N, M>>,
    outs: Seq<Option<ItemView<MapOut<M>>>>,
) -> bool {
    &&& states.len() == outs.len() + 1
    &&& forall|i: int|
        0 <= i < states.len() ==> (#[trigger] states[i]).streams() == states[0].streams() && states[i].mapper()
            == states[0].mapper()
    &&& forall|i: int|
        0 <= i < outs.len() ==> #[trigger] decode_next(states[0].mapper(), states[0].streams(), states[i].progress())
            == (states[i + 1].progress(), outs[i])
}

/// A series of `next` calls does what `run` describes: the parser ends where the
/// run ends, and the calls yield exactly the run's timesteps.
pub proof fn lemma_calls_follow_run<'a, const N: usize, M: Mapper>(
    states: Seq<Parser<'a, N, M>>,
    outs: Seq<Option<ItemView<MapOut<M>>>>,
)
    requires
        next_calls(states, outs),
    ensures
        run(states[0].mapper(), states[0].streams(), states[0].progress(), outs.len())
            == (states.last().progress(), somes(outs)),
    decreases outs.len(),
{
    if outs.len() > 0 {
        let m = states[0].mapper();
        let streams = states[0].streams();
        let rest = states.drop_first();
        assert(states[1].streams() == streams && states[1].mapper() == m);
        assert forall|i: int| 0 <= i < rest.len() implies (#[trigger] rest[i]).streams() == rest[0].streams()
            && rest[i].mapper() == rest[0].mapper() by {
            assert(rest[i] == states[i + 1]);
            assert(states[i + 1].streams() == streams && states[i + 1].mapper() == m);
        }
        assert forall|i: int| 0 <= i < outs.drop_first().len() implies #[trigger] decode_next(
            rest[0].mapper(),
            rest[0].streams(),
            rest[i].progress(),
        ) == (rest[i + 1].progress(), outs.drop_first()[i]) by {
            assert(rest[i] == states[i + 1]);
            assert(rest[i + 1] == states[i + 2]);
            assert(decode_next(m, streams, states[i + 1].progress()) == (states[i + 2].progress(), outs[i + 1]));
        }
        lemma_calls_follow_run(rest, outs.drop_first());
        assert(decode_next(m, streams, states[0].progress()) == (states[1].progress(), outs[0]));
        assert(rest.last() == states.last());
    }
}

/// When the items among `outs` are as many as `outs`, every entry of `outs` is an item.
proof fn lemma_all_somes<T>(outs: Seq<Option<T>>)
    ensures
        somes(outs).len() <= outs.len(),
        somes(outs).len() == outs.len() ==> forall|i: int|
            0 <= i < outs.len() ==> #[trigger] outs[i] == Some(somes(outs)[i]),
    decreases outs.len(),
{
    if outs.len() > 0 {
        let rest = outs.drop_first();
        lemma_all_somes(rest);
        if somes(outs).len() == outs.len() {
            assert(outs[0] is Some);
            assert forall|i: int| 0 <= i < outs.len() implies #[trigger] outs[i] == Some(somes(outs)[i]) by {
                if i > 0 {
                    assert(outs[i] == rest[i - 1]);
                }
            }
        }
    }
}

/// One item per character position, over the calls themselves: when the mapper
/// knows every character, the first `L` calls of `next` on a new parser, `L` the
/// length of its longest line, each yield an item, the `k`-th with index `k` and
/// the values and changed flag that `lemma_run_levels` gives, and the next call
/// yields nothing.
pub proof fn lemma_next_yields_each_position<'a, const N: usize, M: Mapper>(
    states: Seq<Parser<'a, N, M>>,
    outs: Seq<Option<ItemView<MapOut<M>>>>,
)
    requires
        next_calls(states, outs),
        states[0].progress() == fresh::<MapOut<M>>(states[0].streams().len()),
        all_known(states[0].mapper(), states[0].streams()),
        outs.len() == longest(states[0].streams()) + 1,
    ensures
        forall|k: int|
            0 <= k < outs.len() - 1 ==> #[trigger] outs[k] == Some(run_items(states[0].mapper(), states[0].streams())[k])
                && run_items(states[0].mapper(), states[0].streams())[k].1 == k,
        outs.last() is None,
{
    let m = states[0].mapper();
    let streams = states[0].streams();
    let l = longest(streams);
    let pre = states.take((l + 1) as int);
    let pouts = outs.take(l as int);
    assert forall|i: int| 0 <= i < pre.len() implies (#[trigger] pre[i]).streams() == pre[0].streams()
        && pre[i].mapper() == pre[0].mapper() by {
        assert(pre[i] == states[i]);
        assert(states[i].streams() == streams && states[i].mapper() == m);
    }
    assert forall|i: int| 0 <= i < pouts.len() implies #[trigger] decode_next(
        pre[0].mapper(),
        pre[0].streams(),
        pre[i].progress(),
    ) == (pre[i + 1].progress(), pouts[i]) by {
        assert(pre[i] == states[i] && pre[i + 1] == states[i + 1] && pouts[i] == outs[i]);
        assert(decode_next(m, streams, states[i].progress()) == (states[i + 1].progress(), outs[i]));
    }
    lemma_calls_follow_run(pre, pouts);
    lemma_one_item_per_position(m, streams);
    lemma_all_somes(pouts);
    assert(pre.last() == states[l as int]);
    assert forall|k: int| 0 <= k < outs.len() - 1 implies #[trigger] outs[k] == Some(run_items(m, streams)[k])
        && run_items(m, streams)[k].1 == k by {
        assert(outs[k] == pouts[k]);
    }
    assert(decode_next(m, streams, states[l as int].progress()) == (states[(l + 1) as int].progress(), outs[l as int]));
}

} // verus!
