//! Lookups backed by a `HashMap` from characters to entries.
use vstd::prelude::*;
use std::collections::HashMap;
use super::{Entry, LookupMap, NumLevel};

verus! {

/// The entry that `map` holds for `c`.
pub open spec fn table_entry<T>(map: Map<char, Entry<T>>, c: char) -> Option<Entry<T>> {
    if map.contains_key(c) {
        Some(map[c])
    } else {
        None
    }
}

/// Calls `HashMap::get`, which returns the value stored under the key `c`, if any,
/// and copies it. The contract states this over the map's view, as vstd does for
/// keys that follow its hash-table key model (`char`'s `Hash` and `Eq` are std's own).
#[verifier::external_body]
fn table_get<T: Copy>(map: &HashMap<char, Entry<T>>, c: char) -> (r: Option<Entry<T>>)
    ensures
        r == table_entry(map@, c),
{
    map.get(&c).copied()
}

/// Calls `HashMap::values`, which walks every value of the map once, in an order
/// that depends on the map's hasher, and collects copies of them. The contract
/// states which values the result holds, not in which order.
#[verifier::external_body]
fn table_values<T: Copy>(map: &HashMap<char, Entry<T>>) -> (r: Vec<Entry<T>>)
    ensures
        r@.to_set() == map@.values(),
{
    map.values().copied().collect()
}

/// `v` is the value of one of the entries of `map`.
pub open spec fn value_in<T>(map: Map<char, Entry<T>>, v: T) -> bool {
    map.values().contains(Entry::Value(v))
}

/// `x` is the lowest value among the entries of `map`.
pub open spec fn lowest_in<T: NumLevel>(map: Map<char, Entry<T>>, x: T) -> bool {
    &&& value_in(map, x)
    &&& forall|v: T| #[trigger] value_in(map, v) ==> x.to_int() <= v.to_int()
}

/// `x` is the highest value among the entries of `map`.
pub open spec fn highest_in<T: NumLevel>(map: Map<char, Entry<T>>, x: T) -> bool {
    &&& value_in(map, x)
    &&& forall|v: T| #[trigger] value_in(map, v) ==> v.to_int() <= x.to_int()
}

/// The lowest and the highest value among `entries`, or zero and one when there is none.
fn entry_bounds<T: NumLevel>(entries: &Vec<Entry<T>>) -> (r: (T, T))
    ensures
        (exists|v: T| entries@.contains(Entry::Value(v))) ==> {
            &&& entries@.contains(Entry::Value(r.0))
            &&& entries@.contains(Entry::Value(r.1))
            &&& forall|v: T| #[trigger]
                entries@.contains(Entry::Value(v)) ==> r.0.to_int() <= v.to_int() <= r.1.to_int()
        },
        !(exists|v: T| entries@.contains(Entry::Value(v))) ==> r.0 == T::spec_zero() && r.1
            == T::spec_one(),
{
    let mut lo: Option<T> = None;
    let mut hi: Option<T> = None;
    let mut i: usize = 0;
    while i < entries.len()
        invariant
            i <= entries@.len(),
            lo is Some <==> hi is Some,
            lo is None ==> forall|j: int| 0 <= j < i ==> (#[trigger] entries@[j]) is Toggle,
            lo matches Some(x) ==> exists|j: int|
                0 <= j < i && #[trigger] entries@[j] == Entry::Value(x),
            hi matches Some(x) ==> exists|j: int|
                0 <= j < i && #[trigger] entries@[j] == Entry::Value(x),
            lo matches Some(x) ==> forall|j: int|
                0 <= j < i && (#[trigger] entries@[j]) is Value ==> x.to_int() <= entries@[j]->0.to_int(),
            hi matches Some(x) ==> forall|j: int|
                0 <= j < i && (#[trigger] entries@[j]) is Value ==> entries@[j]->0.to_int() <= x.to_int(),
        decreases entries.len() - i,
    {
        match entries[i] {
            Entry::Value(v) => {
                lo = match lo {
                    None => Some(v),
                    Some(x) => if v.less(&x) {
                        Some(v)
                    } else {
                        Some(x)
                    },
                };
                hi = match hi {
                    None => Some(v),
                    Some(x) => if x.less(&v) {
                        Some(v)
                    } else {
                        Some(x)
                    },
                };
            },
            Entry::Toggle => {},
        }
        i = i + 1;
    }
    match (lo, hi) {
        (Some(x), Some(y)) => {
            assert forall|v: T| #[trigger]
                entries@.contains(Entry::Value(v)) implies x.to_int() <= v.to_int() <= y.to_int() by {
                let j = choose|j: int| 0 <= j < entries@.len() && entries@[j] == Entry::Value(v);
                assert(entries@[j] is Value);
            }
            (x, y)
        },
        _ => {
            assert forall|v: T| !entries@.contains(Entry::Value(v)) by {
                if entries@.contains(Entry::Value(v)) {
                    let j = choose|j: int| 0 <= j < entries@.len() && entries@[j] == Entry::Value(v);
                    assert(entries@[j] is Toggle);
                }
            }
            (T::zero(), T::one())
        },
    }
}

/// A `bool` lookup backed by a `HashMap`.
pub struct LookupBool<'a> {
    map: &'a HashMap<char, Entry<bool>>,
}

impl<'a> LookupBool<'a> {
    pub closed spec fn table(&self) -> Map<char, Entry<bool>> {
        self.map@
    }

    pub fn new(map: &'a HashMap<char, Entry<bool>>) -> (r: Self)
        ensures
            r.table() == map@,
    {
        Self { map }
    }
}

impl LookupMap for LookupBool<'_> {
    type Out = bool;

    open spec fn spec_get(&self, c: char) -> Option<Entry<bool>> {
        table_entry(self.table(), c)
    }

    open spec fn spec_min(&self) -> bool {
        false
    }

    open spec fn spec_max(&self) -> bool {
        true
    }

    fn get(&self, c: char) -> (r: Option<Entry<bool>>) {
        table_get(self.map, c)
    }

    fn min(&self) -> (r: bool) {
        false
    }

    fn max(&self) -> (r: bool) {
        true
    }
}

/// An integer lookup backed by a `HashMap`. Its low and high values are the lowest
/// and the highest value in the map (zero and one when it holds no value).
pub struct LookupNum<'a, T: NumLevel> {
    map: &'a HashMap<char, Entry<T>>,
    min: T,
    max: T,
}

impl<'a, T: NumLevel> LookupNum<'a, T> {
    pub closed spec fn table(&self) -> Map<char, Entry<T>> {
        self.map@
    }

    pub closed spec fn low_value(&self) -> T {
        self.min
    }

    pub closed spec fn high_value(&self) -> T {
        self.max
    }

    /// This lookup holds the entries of `map`, with their lowest and highest value as
    /// its low and high values (zero and one when the map holds no value).
    pub open spec fn describes(&self, map: Map<char, Entry<T>>) -> bool {
        &&& self.table() == map
        &&& (exists|v: T| value_in(map, v)) ==> lowest_in(map, self.low_value()) && highest_in(
            map,
            self.high_value(),
        )
        &&& !(exists|v: T| value_in(map, v)) ==> self.low_value() == T::spec_zero()
            && self.high_value() == T::spec_one()
    }

    pub fn new(map: &'a HashMap<char, Entry<T>>) -> (r: Self)
        ensures
            r.describes(map@),
    {
        let entries = table_values(map);
        let (min, max) = entry_bounds(&entries);
        proof {
            assert forall|v: T| value_in(map@, v) <==> entries@.contains(Entry::Value(v)) by {
                assert(entries@.to_set().contains(Entry::Value(v)) == entries@.contains(
                    Entry::Value(v),
                ));
            }
            if exists|v: T| entries@.contains(Entry::Value(v)) {
                let v = choose|v: T| entries@.contains(Entry::Value(v));
                assert(value_in(map@, v));
            }
        }
        Self { map, min, max }
    }
}

impl<'a, T: NumLevel> LookupMap for LookupNum<'a, T> {
    type Out = T;

    open spec fn spec_get(&self, c: char) -> Option<Entry<T>> {
        table_entry(self.table(), c)
    }

    open spec fn spec_min(&self) -> T {
        self.low_value()
    }

    open spec fn spec_max(&self) -> T {
        self.high_value()
    }

    fn get(&self, c: char) -> (r: Option<Entry<T>>) {
        table_get(self.map, c)
    }

    fn min(&self) -> (r: T) {
        self.min
    }

    fn max(&self) -> (r: T) {
        self.max
    }
}

/// Every value of the lookup's table lies between its low and its high value.
pub proof fn lemma_values_between<'a, T: NumLevel>(l: LookupNum<'a, T>, map: Map<char, Entry<T>>, v: T)
    requires
        l.describes(map),
        value_in(map, v),
    ensures
        l.spec_min().to_int() <= v.to_int() <= l.spec_max().to_int(),
{
}

} // verus!
