//! How characters decode into values, and how a toggle character flips a value.
pub mod level;
pub mod default;
pub mod hash;
pub mod constant;

use vstd::prelude::*;
pub use self::level::{Level, NumLevel};

verus! {

/// A character's decoded meaning: either a concrete value or a toggle marker.
#[derive(Clone, Copy, Debug, PartialEq, Eq, Structural)]
pub enum Entry<T> {
    /// The character maps directly to this value.
    Value(T),
    /// The character is an edge marker: toggles the previous value.
    Toggle,
}

impl<T> Entry<T> {
    /// The value of a `Value` entry; `None` for a toggle.
    pub fn value(&self) -> (r: Option<&T>)
        ensures
            r == (match self {
                Entry::Value(v) => Some(v),
                Entry::Toggle => None::<&T>,
            }),
    {
        match self {
            Entry::Value(v) => Some(v),
            _ => None,
        }
    }
}

/// The value a lookup result stands for: `Some` only for a `Value` entry.
pub open spec fn entry_value<T>(e: Option<Entry<T>>) -> Option<T> {
    match e {
        Some(Entry::Value(v)) => Some(v),
        _ => None,
    }
}

/// A lookup result stands for a value only when it is a `Value` entry, and then for its value.
pub proof fn lemma_entry_value<T>(v: T)
    ensures
        entry_value(Some(Entry::Value(v))) == Some(v),
        entry_value(Some(Entry::<T>::Toggle)) is None,
        entry_value(None::<Entry<T>>) is None,
{
}

/// Maps characters to [`Entry`] values and defines the low/high bounds.
pub trait LookupMap {
    /// The output value type (e.g. `bool`, `u8`, `i16`).
    type Out: Level;

    spec fn spec_get(&self, c: char) -> Option<Entry<Self::Out>>;

    spec fn spec_min(&self) -> Self::Out;

    spec fn spec_max(&self) -> Self::Out;

    /// Returns the [`Entry`] for `c`, or `None` if `c` is unknown.
    fn get(&self, c: char) -> (r: Option<Entry<Self::Out>>)
        ensures
            r == self.spec_get(c),
    ;

    /// The minimum (low) value; used as the default and the `false`/`0` state.
    fn min(&self) -> (r: Self::Out)
        ensures
            r == self.spec_min(),
    ;

    /// The maximum (high) value; used as the `true`/`1` state.
    fn max(&self) -> (r: Self::Out)
        ensures
            r == self.spec_max(),
    ;
}

/// The value type of a mapper.
pub type MapOut<M> = <<M as Mapper>::Map as LookupMap>::Out;

/// Drives the parser's character decoding and toggle logic.
pub trait Mapper {
    /// The [`LookupMap`] used to decode individual characters.
    type Map: LookupMap;

    spec fn spec_map(&self) -> Self::Map;

    /// What a toggle makes of the value `v`.
    spec fn spec_toggle(&self, v: <Self::Map as LookupMap>::Out) -> <Self::Map as LookupMap>::Out;

    /// Returns a reference to the underlying [`LookupMap`].
    fn map(&self) -> (r: &Self::Map)
        ensures
            *r == self.spec_map(),
    ;

    /// The low (minimum) value; delegates to [`LookupMap::min`].
    fn low(&self) -> (r: <Self::Map as LookupMap>::Out)
        ensures
            r == self.spec_map().spec_min(),
    {
        self.map().min()
    }

    /// The high (maximum) value; delegates to [`LookupMap::max`].
    fn high(&self) -> (r: <Self::Map as LookupMap>::Out)
        ensures
            r == self.spec_map().spec_max(),
    {
        self.map().max()
    }

    /// Returns the concrete value for `c`, or `None` if `c` maps to [`Entry::Toggle`] or is unknown.
    fn value(&self, c: char) -> (r: Option<<Self::Map as LookupMap>::Out>)
        ensures
            r == entry_value(self.spec_map().spec_get(c)),
    {
        match self.map().get(c) {
            Some(Entry::Value(v)) => Some(v),
            _ => None,
        }
    }

    /// Returns `true` if `c` is a toggle character according to the [`LookupMap`].
    fn is_toggle(&self, c: char) -> (r: bool)
        ensures
            r == (self.spec_map().spec_get(c) == Some(Entry::<<Self::Map as LookupMap>::Out>::Toggle)),
    {
        match self.map().get(c) {
            Some(Entry::Toggle) => true,
            _ => false,
        }
    }

    /// Returns the toggled counterpart of `v`.
    /// [`swap_extremes`] is the usual choice for a mapper of its own.
    fn toggle(&self, v: <Self::Map as LookupMap>::Out) -> (r: <Self::Map as LookupMap>::Out)
        ensures
            r == self.spec_toggle(v),
    ;

    /// The value used when a line has no previous state; defaults to `low`.
    fn default(&self) -> (r: <Self::Map as LookupMap>::Out)
        ensures
            r == self.spec_map().spec_min(),
    {
        self.low()
    }
}

/// `low` switched to `high`, anything else to `low`.
pub open spec fn swapped<M: Mapper>(m: M, v: MapOut<M>) -> MapOut<M> {
    if v == m.spec_map().spec_min() {
        m.spec_map().spec_max()
    } else {
        m.spec_map().spec_min()
    }
}

/// Switches between `low` and `high`: `low` becomes `high`, anything else becomes `low`.
pub fn swap_extremes<M: Mapper>(m: &M, v: MapOut<M>) -> (r: MapOut<M>)
    ensures
        r == swapped(*m, v),
{
    let low = m.low();
    if v.same(&low) {
        m.high()
    } else {
        low
    }
}

/// A [`Mapper`] for `bool` output values; a toggle negates the value.
pub struct BoolMapper<L: LookupMap> {
    map: L,
}

impl<L: LookupMap> BoolMapper<L> {
    pub closed spec fn lookup(&self) -> L {
        self.map
    }

    /// Creates a `BoolMapper` wrapping the given [`LookupMap`].
    pub fn new(map: L) -> (r: Self)
        ensures
            r.lookup() == map,
    {
        Self { map }
    }
}

impl<L: LookupMap<Out = bool>> Mapper for BoolMapper<L> {
    type Map = L;

    open spec fn spec_map(&self) -> L {
        self.lookup()
    }

    open spec fn spec_toggle(&self, v: bool) -> bool {
        !v
    }

    fn map(&self) -> (r: &L) {
        &self.map
    }

    fn toggle(&self, v: bool) -> (r: bool) {
        !v
    }
}

/// A [`Mapper`] for numeric output values.
///
/// Toggle computes `min + max - v` (in the value type's wrapping arithmetic),
/// which mirrors any value between the two extremes defined by the [`LookupMap`].
pub struct NumMapper<L: LookupMap> {
    map: L,
}

impl<L: LookupMap> NumMapper<L> {
    pub closed spec fn lookup(&self) -> L {
        self.map
    }

    /// Creates a `NumMapper` wrapping the given [`LookupMap`].
    pub fn new(map: L) -> (r: Self)
        ensures
            r.lookup() == map,
    {
        Self { map }
    }
}

impl<L: LookupMap> Mapper for NumMapper<L> where L::Out: NumLevel {
    type Map = L;

    open spec fn spec_map(&self) -> L {
        self.lookup()
    }

    open spec fn spec_toggle(&self, v: L::Out) -> L::Out {
        L::Out::spec_mirror(self.spec_map().spec_min(), self.spec_map().spec_max(), v)
    }

    fn map(&self) -> (r: &L) {
        &self.map
    }

    fn toggle(&self, v: L::Out) -> (r: L::Out) {
        L::Out::mirror(self.low(), self.high(), v)
    }
}

/// Switching between distinct extremes twice gives back the extreme one started from.
pub proof fn lemma_swap_twice<M: Mapper>(m: M, v: MapOut<M>)
    requires
        m.spec_map().spec_min() != m.spec_map().spec_max(),
        v == m.spec_map().spec_min() || v == m.spec_map().spec_max(),
    ensures
        swapped(m, swapped(m, v)) == v,
{
}

/// A mapper whose toggle trades `low` and `high`, as [`swap_extremes`] does,
/// gives back the extreme it started from after toggling twice, when the two
/// extremes differ.
pub proof fn lemma_swapping_toggle_twice<M: Mapper>(m: M, v: MapOut<M>)
    requires
        forall|x: MapOut<M>| #[trigger] m.spec_toggle(x) == swapped(m, x),
        m.spec_map().spec_min() != m.spec_map().spec_max(),
        v == m.spec_map().spec_min() || v == m.spec_map().spec_max(),
    ensures
        m.spec_toggle(m.spec_toggle(v)) == v,
{
    lemma_swap_twice(m, v);
}

/// Toggling a boolean line twice gives back the value it had.
pub proof fn lemma_bool_toggle_twice<L: LookupMap<Out = bool>>(m: BoolMapper<L>, v: bool)
    ensures
        m.spec_toggle(v) != v,
        m.spec_toggle(m.spec_toggle(v)) == v,
{
}

/// For a value between the extremes, a numeric toggle gives `min + max - v`, which
/// lies between the extremes too, and toggling it again gives back `v`.
pub proof fn lemma_num_toggle_mirrors<L: LookupMap>(m: NumMapper<L>, v: L::Out)
    where L::Out: NumLevel
    requires
        m.spec_map().spec_min().to_int() <= v.to_int() <= m.spec_map().spec_max().to_int(),
    ensures
        m.spec_toggle(v).to_int() == m.spec_map().spec_min().to_int() + m.spec_map().spec_max().to_int()
            - v.to_int(),
        m.spec_map().spec_min().to_int() <= m.spec_toggle(v).to_int() <= m.spec_map().spec_max().to_int(),
        m.spec_toggle(m.spec_toggle(v)) == v,
{
    let lo = m.spec_map().spec_min();
    let hi = m.spec_map().spec_max();
    L::Out::lemma_mirror(lo, hi, v);
    let w = m.spec_toggle(v);
    L::Out::lemma_mirror(lo, hi, w);
    L::Out::lemma_to_int_injective(m.spec_toggle(w), v);
}

} // verus!
