//! Lookups backed by a slice of `(char, Entry<T>)` pairs.
use vstd::prelude::*;
use super::{Entry, LookupMap, NumLevel};

verus! {

/// The entry of the first pair, from position `from` on, whose character is `c`.
pub open spec fn find_entry<T>(map: Seq<(char, Entry<T>)>, from: int, c: char) -> Option<Entry<T>>
    decreases map.len() - from,
{
    if from >= map.len() {
        None
    } else if map[from].0 == c {
        Some(map[from].1)
    } else {
        find_entry(map, from + 1, c)
    }
}

/// The lookup in a list of pairs finds the entry of the first pair whose
/// character is `c`, whatever the entries of the pairs before it are, and finds
/// nothing exactly when no pair has the character `c`.
pub proof fn lemma_find_entry_first<T>(map: Seq<(char, Entry<T>)>, c: char, j: int)
    requires
        0 <= j < map.len(),
        map[j].0 == c,
        forall|k: int| 0 <= k < j ==> (#[trigger] map[k]).0 != c,
    ensures
        find_entry(map, 0, c) == Some(map[j].1),
{
    lemma_find_entry_from(map, c, j, 0);
}

proof fn lemma_find_entry_from<T>(map: Seq<(char, Entry<T>)>, c: char, j: int, from: int)
    requires
        0 <= from <= j < map.len(),
        map[j].0 == c,
        forall|k: int| 0 <= k < j ==> (#[trigger] map[k]).0 != c,
    ensures
        find_entry(map, from, c) == Some(map[j].1),
    decreases j - from,
{
    if from < j {
        assert(map[from].0 != c);
        lemma_find_entry_from(map, c, j, from + 1);
    }
}

/// The lookup finds nothing when no pair, from `from` on, has the character `c`.
pub proof fn lemma_find_entry_absent<T>(map: Seq<(char, Entry<T>)>, c: char, from: int)
    requires
        0 <= from,
        forall|k: int| from <= k < map.len() ==> (#[trigger] map[k]).0 != c,
    ensures
        find_entry(map, from, c) is None,
    decreases map.len() - from,
{
    if from < map.len() {
        assert(map[from].0 != c);
        lemma_find_entry_absent(map, c, from + 1);
    }
}

/// The entry of the first pair in `map` whose character is `c`.
pub fn lookup_entry<T: Copy>(map: &[(char, Entry<T>)], c: char) -> (r: Option<Entry<T>>)
    ensures
        r == find_entry(map@, 0, c),
        forall|j: int|
            0 <= j < map@.len() && (#[trigger] map@[j]).0 == c && (forall|k: int|
                0 <= k < j ==> map@[k].0 != c) ==> r == Some(map@[j].1),
        (forall|k: int| 0 <= k < map@.len() ==> (#[trigger] map@[k]).0 != c) ==> r is None,
{
    proof {
        assert forall|j: int|
            0 <= j < map@.len() && (#[trigger] map@[j]).0 == c && (forall|k: int|
                0 <= k < j ==> map@[k].0 != c) implies find_entry(map@, 0, c) == Some(map@[j].1) by {
            lemma_find_entry_first(map@, c, j);
        }
        if forall|k: int| 0 <= k < map@.len() ==> (#[trigger] map@[k]).0 != c {
            lemma_find_entry_absent(map@, c, 0);
        }
    }
    let mut i: usize = 0;
    while i < map.len()
        invariant
            i <= map@.len(),
            find_entry(map@, 0, c) == find_entry(map@, i as int, c),
            forall|j: int|
                0 <= j < map@.len() && (#[trigger] map@[j]).0 == c && (forall|k: int|
                    0 <= k < j ==> map@[k].0 != c) ==> find_entry(map@, 0, c) == Some(map@[j].1),
            (forall|k: int| 0 <= k < map@.len() ==> (#[trigger] map@[k]).0 != c) ==> find_entry(
                map@,
                0,
                c,
            ) is None,
        decreases map.len() - i,
    {
        if map[i].0 == c {
            return Some(map[i].1);
        }
        i = i + 1;
    }
    None
}

/// `v` is the value of one of the pairs of `map`.
pub open spec fn value_in<T>(map: Seq<(char, Entry<T>)>, v: T) -> bool {
    exists|i: int| 0 <= i < map.len() && (#[trigger] map[i]).1 == Entry::Value(v)
}

/// A value that the lookup finds is the value of one of the pairs.
pub proof fn lemma_found_value<T>(map: Seq<(char, Entry<T>)>, from: int, c: char)
    requires
        0 <= from,
    ensures
        find_entry(map, from, c) matches Some(Entry::Value(v)) ==> value_in(map, v),
    decreases map.len() - from,
{
    if from < map.len() && map[from].0 != c {
        lemma_found_value(map, from + 1, c);
    }
}

/// `x` is the lowest value among the pairs of `map`.
pub open spec fn lowest_in<T: NumLevel>(map: Seq<(char, Entry<T>)>, x: T) -> bool {
    &&& value_in(map, x)
    &&& forall|v: T| #[trigger] value_in(map, v) ==> x.to_int() <= v.to_int()
}

/// `x` is the highest value among the pairs of `map`.
pub open spec fn highest_in<T: NumLevel>(map: Seq<(char, Entry<T>)>, x: T) -> bool {
    &&& value_in(map, x)
    &&& forall|v: T| #[trigger] value_in(map, v) ==> v.to_int() <= x.to_int()
}

/// The lowest and the highest value among the pairs of `map`, or zero and one when it holds no value.
pub fn value_bounds<T: NumLevel>(map: &[(char, Entry<T>)]) -> (r: (T, T))
    ensures
        (exists|v: T| value_in(map@, v)) ==> lowest_in(map@, r.0) && highest_in(map@, r.1),
        !(exists|v: T| value_in(map@, v)) ==> r.0 == T::spec_zero() && r.1 == T::spec_one(),
{
    let mut lo: Option<T> = None;
    let mut hi: Option<T> = None;
    let mut i: usize = 0;
    while i < map.len()
        invariant
            i <= map@.len(),
            lo is Some <==> hi is Some,
            lo is None ==> forall|j: int| 0 <= j < i ==> (#[trigger] map@[j]).1 is Toggle,
            lo matches Some(x) ==> exists|j: int|
                0 <= j < i && (#[trigger] map@[j]).1 == Entry::Value(x),
            hi matches Some(x) ==> exists|j: int|
                0 <= j < i && (#[trigger] map@[j]).1 == Entry::Value(x),
            lo matches Some(x) ==> forall|j: int|
                0 <= j < i && (#[trigger] map@[j]).1 is Value ==> x.to_int() <= map@[j].1->0.to_int(),
            hi matches Some(x) ==> forall|j: int|
                0 <= j < i && (#[trigger] map@[j]).1 is Value ==> map@[j].1->0.to_int() <= x.to_int(),
        decreases map.len() - i,
    {
        match map[i].1 {
            Entry::Value(v) => {
                lo = match lo {
                    None => Some(v),
                    Some(x) => if v.less(&x) {
                        Some(v)
                    } else {
                        Some(x)
                    },
                };
                hi = match hi {
                    None => Some(v),
                    Some(x) => if x.less(&v) {
                        Some(v)
                    } else {
                        Some(x)
                    },
                };
            },
            Entry::Toggle => {},
        }
        i = i + 1;
    }
    match (lo, hi) {
        (Some(x), Some(y)) => {
            assert forall|v: T| #[trigger] value_in(map@, v) implies x.to_int() <= v.to_int()
                && v.to_int() <= y.to_int() by {
                let j = choose|j: int| 0 <= j < map@.len() && (#[trigger] map@[j]).1 == Entry::Value(v);
                assert(map@[j].1 is Value);
            }
            (x, y)
        },
        _ => {
            assert forall|v: T| !value_in(map@, v) by {
                if value_in(map@, v) {
                    let j = choose|j: int| 0 <= j < map@.len() && (#[trigger] map@[j]).1 == Entry::Value(v);
                    assert(map@[j].1 is Toggle);
                }
            }
            (T::zero(), T::one())
        },
    }
}

/// A `bool` lookup backed by a slice of pairs; the first pair of a character decides.
pub struct LookupBool<'a> {
    map: &'a [(char, Entry<bool>)],
}

impl<'a> LookupBool<'a> {
    pub closed spec fn pairs(&self) -> Seq<(char, Entry<bool>)> {
        self.map@
    }

    pub fn new(map: &'a [(char, Entry<bool>)]) -> (r: Self)
        ensures
            r.pairs() == map@,
    {
        Self { map }
    }
}

impl LookupMap for LookupBool<'_> {
    type Out = bool;

    open spec fn spec_get(&self, c: char) -> Option<Entry<bool>> {
        find_entry(self.pairs(), 0, c)
    }

    open spec fn spec_min(&self) -> bool {
        false
    }

    open spec fn spec_max(&self) -> bool {
        true
    }

    fn get(&self, c: char) -> (r: Option<Entry<bool>>) {
        lookup_entry(self.map, c)
    }

    fn min(&self) -> (r: bool) {
        false
    }

    fn max(&self) -> (r: bool) {
        true
    }
}

/// An integer lookup backed by a slice of pairs. Its low and high values are the
/// lowest and the highest value among the pairs (zero and one when there is none).
pub struct LookupNum<'a, T: NumLevel> {
    map: &'a [(char, Entry<T>)],
    min: T,
    max: T,
}

impl<'a, T: NumLevel> LookupNum<'a, T> {
    pub closed spec fn pairs(&self) -> Seq<(char, Entry<T>)> {
        self.map@
    }

    pub closed spec fn low_value(&self) -> T {
        self.min
    }

    pub closed spec fn high_value(&self) -> T {
        self.max
    }

    /// This lookup holds the pairs `map`, with their lowest and highest value as its
    /// low and high values (zero and one when the pairs hold no value).
    pub open spec fn describes(&self, map: Seq<(char, Entry<T>)>) -> bool {
        &&& self.pairs() == map
        &&& (exists|v: T| value_in(map, v)) ==> lowest_in(map, self.low_value()) && highest_in(
            map,
            self.high_value(),
        )
        &&& !(exists|v: T| value_in(map, v)) ==> self.low_value() == T::spec_zero()
            && self.high_value() == T::spec_one()
    }

    pub fn new(map: &'a [(char, Entry<T>)]) -> (r: Self)
        ensures
            r.describes(map@),
    {
        let (min, max) = value_bounds(map);
        Self { map, min, max }
    }
}

impl<'a, T: NumLevel> LookupMap for LookupNum<'a, T> {
    type Out = T;

    open spec fn spec_get(&self, c: char) -> Option<Entry<T>> {
        find_entry(self.pairs(), 0, c)
    }

    open spec fn spec_min(&self) -> T {
        self.low_value()
    }

    open spec fn spec_max(&self) -> T {
        self.high_value()
    }

    fn get(&self, c: char) -> (r: Option<Entry<T>>) {
        lookup_entry(self.map, c)
    }

    fn min(&self) -> (r: T) {
        self.min
    }

    fn max(&self) -> (r: T) {
        self.max
    }
}

/// Every value of the lookup's table lies between its low and its high value.
pub proof fn lemma_values_between<'a, T: NumLevel>(l: LookupNum<'a, T>, map: Seq<(char, Entry<T>)>, v: T)
    requires
        l.describes(map),
        value_in(map, v),
    ensures
        l.spec_min().to_int() <= v.to_int() <= l.spec_max().to_int(),
{
}

} // verus!
