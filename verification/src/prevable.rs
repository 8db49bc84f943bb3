//! An iterator adaptor that remembers the last item it yielded.
use vstd::prelude::*;
use vstd::std_specs::iter::IteratorSpec;

verus! {

/// Wraps an iterator and keeps the last item it yielded.
pub struct Prevable<I: Iterator> {
    inner: I,
    prev: Option<I::Item>,
}

impl<I: Iterator> Prevable<I> {
    /// The wrapped iterator.
    pub closed spec fn inner_iter(&self) -> I {
        self.inner
    }

    /// The last item yielded so far, if any.
    pub closed spec fn last_seen(&self) -> Option<I::Item> {
        self.prev
    }

    pub fn new(iter: I) -> (r: Self)
        ensures
            r.inner_iter() == iter,
            r.last_seen() is None,
    {
        Self { inner: iter, prev: None }
    }

    /// The last item yielded so far, if any; it stays available after the end.
    pub fn prev(&self) -> (r: Option<I::Item>)
        where I::Item: Copy,
        ensures
            r == self.last_seen(),
    {
        self.prev
    }

    /// Yields the wrapped iterator's next item and remembers it; at the end,
    /// the last item stays remembered.
    pub fn next(&mut self) -> (r: Option<I::Item>)
        where I::Item: Copy,
        ensures
            final(self).last_seen() == (if r is Some {
                r
            } else {
                old(self).last_seen()
            }),
            final(self).inner_iter().obeys_prophetic_iter_laws() == old(
                self,
            ).inner_iter().obeys_prophetic_iter_laws(),
            old(self).inner_iter().obeys_prophetic_iter_laws() ==> ({
                if old(self).inner_iter().remaining().len() > 0 {
                    &&& r == Some(old(self).inner_iter().remaining()[0])
                    &&& final(self).inner_iter().remaining() == old(
                        self,
                    ).inner_iter().remaining().drop_first()
                } else {
                    &&& r is None
                    &&& final(self).inner_iter().remaining() == old(self).inner_iter().remaining()
                }
            }),
    {
        let current = self.inner.next();
        if current.is_some() {
            self.prev = current;
        }
        current
    }
}

/// The last `Some` among `results`, or `before` when none of them is `Some`.
pub open spec fn latest<T>(before: Option<T>, results: Seq<Option<T>>) -> Option<T>
    decreases results.len(),
{
    if results.len() == 0 {
        before
    } else if results.last() is Some {
        results.last()
    } else {
        latest(before, results.drop_last())
    }
}

/// After any series of `next` calls from a new `Prevable`, with `states[i]` the
/// adaptor before call `i` and `results[i]` what that call returned, `prev` gives
/// the last item that was returned, or `None` if there was none.
pub proof fn lemma_prev_after_calls<I: Iterator>(states: Seq<Prevable<I>>, results: Seq<Option<I::Item>>)
    requires
        states.len() == results.len() + 1,
        states[0].last_seen() is None,
        forall|i: int|
            0 <= i < results.len() ==> (#[trigger] states[i + 1]).last_seen() == (if results[i] is Some {
                results[i]
            } else {
                states[i].last_seen()
            }),
    ensures
        states.last().last_seen() == latest(None, results),
    decreases results.len(),
{
    if results.len() > 0 {
        let k = results.len() - 1;
        lemma_prev_after_calls(states.drop_last(), results.drop_last());
        assert(states.drop_last().last() == states[k]);
        assert(states.last() == states[k + 1]);
    }
}

/// What the `i`-th call of `next` returns on an iterator that will yield `items`:
/// the `i`-th item, or `None` past the last one.
pub open spec fn nth_result<T>(items: Seq<T>, i: int) -> Option<T> {
    if 0 <= i < items.len() {
        Some(items[i])
    } else {
        None
    }
}

proof fn lemma_remaining_after_calls<I: Iterator>(states: Seq<Prevable<I>>, results: Seq<Option<I::Item>>)
    requires
        states.len() == results.len() + 1,
        states[0].inner_iter().obeys_prophetic_iter_laws(),
        forall|i: int|
            0 <= i < results.len() ==> (#[trigger] states[i + 1]).inner_iter().obeys_prophetic_iter_laws()
                == states[i].inner_iter().obeys_prophetic_iter_laws(),
        forall|i: int|
            0 <= i < results.len() && states[i].inner_iter().obeys_prophetic_iter_laws()
                && states[i].inner_iter().remaining().len() > 0 ==> #[trigger] results[i] == Some(
                states[i].inner_iter().remaining()[0],
            ),
        forall|i: int|
            #![trigger states[i + 1]]
            0 <= i < results.len() && states[i].inner_iter().obeys_prophetic_iter_laws()
                && states[i].inner_iter().remaining().len() > 0 ==> states[i + 1].inner_iter().remaining()
                =~= states[i].inner_iter().remaining().drop_first(),
        forall|i: int|
            0 <= i < results.len() && states[i].inner_iter().obeys_prophetic_iter_laws()
                && states[i].inner_iter().remaining().len() == 0 ==> #[trigger] results[i] is None,
        forall|i: int|
            #![trigger states[i + 1]]
            0 <= i < results.len() && states[i].inner_iter().obeys_prophetic_iter_laws()
                && states[i].inner_iter().remaining().len() == 0 ==> states[i + 1].inner_iter().remaining()
                == states[i].inner_iter().remaining(),
    ensures
        states.last().inner_iter().obeys_prophetic_iter_laws(),
        states.last().inner_iter().remaining() == (if results.len() <= states[0].inner_iter().remaining().len() {
            states[0].inner_iter().remaining().skip(results.len() as int)
        } else {
            Seq::empty()
        }),
        forall|i: int|
            0 <= i < results.len() ==> #[trigger] results[i] == nth_result(
                states[0].inner_iter().remaining(),
                i,
            ),
    decreases results.len(),
{
    let items = states[0].inner_iter().remaining();
    if results.len() == 0 {
        assert(items.skip(0) =~= items);
    } else {
        let k = results.len() - 1;
        assert forall|i: int| 0 <= i < k + 1 implies #[trigger] states.drop_last()[i] == states[i] by {}
        assert forall|i: int| 0 <= i < k implies #[trigger] results.drop_last()[i] == results[i] by {}
        lemma_remaining_after_calls(states.drop_last(), results.drop_last());
        assert(states.drop_last().last() == states[k]);
        assert(states.last() == states[k + 1]);
        assert(states.drop_last()[0] == states[0]);
        assert forall|i: int| 0 <= i < k implies #[trigger] results[i] == nth_result(items, i) by {
            assert(results[i] == results.drop_last()[i]);
        }
        if k < items.len() {
            assert(items.skip(k).drop_first() =~= items.skip(k + 1));
        } else if k == items.len() {
            assert(items.skip(k) =~= Seq::<I::Item>::empty());
        }
    }
}

/// A `Prevable` passes its iterator's items on unchanged: over any series of
/// `next` calls from an adaptor made by `new` or `prevable` over an iterator that
/// follows vstd's iterator laws, with `states[i]` the adaptor before call `i` and
/// `results[i]` what that call returned, call `i` returns the `i`-th item that
/// the iterator itself would have returned, or `None` past its last item.
pub proof fn lemma_next_after_calls<I: Iterator>(states: Seq<Prevable<I>>, results: Seq<Option<I::Item>>)
    requires
        states.len() == results.len() + 1,
        states[0].inner_iter().obeys_prophetic_iter_laws(),
        forall|i: int|
            0 <= i < results.len() ==> (#[trigger] states[i + 1]).inner_iter().obeys_prophetic_iter_laws()
                == states[i].inner_iter().obeys_prophetic_iter_laws(),
        forall|i: int|
            0 <= i < results.len() && states[i].inner_iter().obeys_prophetic_iter_laws()
                && states[i].inner_iter().remaining().len() > 0 ==> #[trigger] results[i] == Some(
                states[i].inner_iter().remaining()[0],
            ),
        forall|i: int|
            #![trigger states[i + 1]]
            0 <= i < results.len() && states[i].inner_iter().obeys_prophetic_iter_laws()
                && states[i].inner_iter().remaining().len() > 0 ==> states[i + 1].inner_iter().remaining()
                =~= states[i].inner_iter().remaining().drop_first(),
        forall|i: int|
            0 <= i < results.len() && states[i].inner_iter().obeys_prophetic_iter_laws()
                && states[i].inner_iter().remaining().len() == 0 ==> #[trigger] results[i] is None,
        forall|i: int|
            #![trigger states[i + 1]]
            0 <= i < results.len() && states[i].inner_iter().obeys_prophetic_iter_laws()
                && states[i].inner_iter().remaining().len() == 0 ==> states[i + 1].inner_iter().remaining()
                == states[i].inner_iter().remaining(),
    ensures
        forall|i: int|
            0 <= i < results.len() ==> #[trigger] results[i] == nth_result(
                states[0].inner_iter().remaining(),
                i,
            ),
{
    lemma_remaining_after_calls(states, results);
}

/// Wraps any iterator in a [`Prevable`].
pub trait PrevableExt: Iterator {
    fn prevable(self) -> (r: Prevable<Self>)
        where Self: Sized,
        ensures
            r.inner_iter() == self,
            r.last_seen() is None,
    {
        Prevable::new(self)
    }
}

impl<T: Iterator> PrevableExt for T {

}

} // verus!
