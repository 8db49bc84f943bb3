//! The built-in character set: `'_'` is low, `'|'` toggles, anything else is high.
use vstd::prelude::*;
use core::marker::PhantomData;
use super::{Entry, LookupMap, NumLevel};

verus! {

/// The built-in mapping of `c`, with the given low and high values.
pub open spec fn builtin_entry<T>(c: char, low: T, high: T) -> Option<Entry<T>> {
    Some(
        if c == '_' {
            Entry::Value(low)
        } else if c == '|' {
            Entry::Toggle
        } else {
            Entry::Value(high)
        },
    )
}

/// The built-in mapping sends `'_'` to the low value, `'|'` to a toggle and
/// every other character to the high value; it knows every character.
pub proof fn lemma_builtin_entry<T>(c: char, low: T, high: T)
    ensures
        c == '_' ==> builtin_entry(c, low, high) == Some(Entry::Value(low)),
        c == '|' ==> builtin_entry(c, low, high) == Some(Entry::<T>::Toggle),
        c != '_' && c != '|' ==> builtin_entry(c, low, high) == Some(Entry::Value(high)),
{
}

/// The built-in character set over `bool`: `'_'` is `false`, `'|'` a toggle, and
/// every other character `true`.
pub proof fn lemma_builtin_bool(l: LookupBool, c: char)
    ensures
        c == '_' ==> l.spec_get(c) == Some(Entry::Value(false)),
        c == '|' ==> l.spec_get(c) == Some(Entry::<bool>::Toggle),
        c != '_' && c != '|' ==> l.spec_get(c) == Some(Entry::Value(true)),
        l.spec_min() == false && l.spec_max() == true,
{
}

/// The built-in character set over an integer type: `'_'` is zero, `'|'` a
/// toggle, and every other character one.
pub proof fn lemma_builtin_num<T: NumLevel>(l: LookupNum<T>, c: char)
    ensures
        c == '_' ==> l.spec_get(c) == Some(Entry::Value(T::spec_zero())),
        c == '|' ==> l.spec_get(c) == Some(Entry::<T>::Toggle),
        c != '_' && c != '|' ==> l.spec_get(c) == Some(Entry::Value(T::spec_one())),
        l.spec_min() == T::spec_zero() && l.spec_max() == T::spec_one(),
{
}

/// The built-in character set over `bool`.
pub struct LookupBool;

impl LookupBool {
    pub fn new() -> (r: Self) {
        Self {  }
    }
}

impl LookupMap for LookupBool {
    type Out = bool;

    open spec fn spec_get(&self, c: char) -> Option<Entry<bool>> {
        builtin_entry(c, false, true)
    }

    open spec fn spec_min(&self) -> bool {
        false
    }

    open spec fn spec_max(&self) -> bool {
        true
    }

    fn get(&self, c: char) -> (r: Option<Entry<bool>>)
        ensures
            c == '_' ==> r == Some(Entry::Value(false)),
            c == '|' ==> r == Some(Entry::<bool>::Toggle),
            c != '_' && c != '|' ==> r == Some(Entry::Value(true)),
    {
        Some(
            match c {
                '_' => Entry::Value(self.min()),
                '|' => Entry::Toggle,
                _ => Entry::Value(self.max()),
            },
        )
    }

    fn min(&self) -> (r: bool) {
        false
    }

    fn max(&self) -> (r: bool) {
        true
    }
}

/// The built-in character set over an integer type: low is zero, high is one.
pub struct LookupNum<T: NumLevel> {
    _phantom: PhantomData<T>,
}

impl<T: NumLevel> LookupNum<T> {
    pub fn new() -> (r: Self) {
        Self { _phantom: PhantomData }
    }
}

impl<T: NumLevel> LookupMap for LookupNum<T> {
    type Out = T;

    open spec fn spec_get(&self, c: char) -> Option<Entry<T>> {
        builtin_entry(c, T::spec_zero(), T::spec_one())
    }

    open spec fn spec_min(&self) -> T {
        T::spec_zero()
    }

    open spec fn spec_max(&self) -> T {
        T::spec_one()
    }

    fn get(&self, c: char) -> (r: Option<Entry<T>>)
        ensures
            c == '_' ==> r == Some(Entry::Value(T::spec_zero())),
            c == '|' ==> r == Some(Entry::<T>::Toggle),
            c != '_' && c != '|' ==> r == Some(Entry::Value(T::spec_one())),
    {
        Some(
            match c {
                '_' => Entry::Value(self.min()),
                '|' => Entry::Toggle,
                _ => Entry::Value(self.max()),
            },
        )
    }

    fn min(&self) -> (r: T) {
        T::zero()
    }

    fn max(&self) -> (r: T) {
        T::one()
    }
}

} // verus!
