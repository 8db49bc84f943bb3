//! Building a [`Parser`] from a waveform text and a choice of character mapping.
use vstd::prelude::*;
use std::collections::HashMap;
use super::{Parser, Mapper, BoolMapper, NumMapper, ParseError, text_lines, signal_streams};
use super::mapper::{Entry, LookupMap, NumLevel, hash, constant};
use super::mapper::default::builtin_entry;

verus! {

/// The mapping of a [`Builder`] that has not been given one yet.
pub struct NoMapper;

/// Builder for constructing a [`Parser`].
///
/// `N` is the number of output values (channels) the parser needs to produce.
/// Start with [`new_from_string`](Builder::new_from_string), chain a mapper
/// method to select the character-to-value mapping, then call
/// [`build`](Builder::build) to obtain the parser.
pub struct Builder<'a, const N: usize, M = NoMapper> {
    string: &'a str,
    mapper: M,
}

impl<'a, const N: usize, M> Builder<'a, N, M> {
    /// The waveform text.
    pub closed spec fn source(&self) -> &'a str {
        self.string
    }

    /// The chosen mapping.
    pub closed spec fn chosen(&self) -> M {
        self.mapper
    }
}

impl<'a, const N: usize> Builder<'a, N> {
    /// Creates a new `Builder` from a waveform string.
    ///
    /// Multiple lines are separated by `\n`. Leading and trailing whitespace
    /// per line is ignored, as are lines that are empty or consist only of
    /// a `#` comment. A line may carry a label prefix (`Name: content`) to
    /// allow non-contiguous continuation across blocks.
    pub fn new_from_string(string: &'a str) -> (r: Self)
        ensures
            r.source() == string,
    {
        Self { string, mapper: NoMapper }
    }

    /// Uses the default boolean mapper.
    ///
    /// Character mapping: `'_'` → `false`, `'|'` → toggle, any other character → `true`.
    pub fn with_def_bool_mapper(self) -> (r: Builder<'a, N, BoolMapper<crate::parser::mapper::default::LookupBool>>)
        ensures
            r.source() == self.source(),
            r.chosen().lookup() == crate::parser::mapper::default::LookupBool,
            forall|c: char| #[trigger]
                r.chosen().lookup().spec_get(c) == builtin_entry(c, false, true),
    {
        let lookup = crate::parser::mapper::default::LookupBool::new();
        let mapper = BoolMapper::new(lookup);
        Builder { string: self.string, mapper }
    }

    /// Uses the default numeric mapper with output type `T`.
    ///
    /// Character mapping: `'_'` → zero, `'|'` → toggle, any other character → one.
    pub fn with_def_num_mapper<T: NumLevel>(self) -> (r: Builder<'a, N, NumMapper<crate::parser::mapper::default::LookupNum<T>>>)
        ensures
            r.source() == self.source(),
            forall|c: char| #[trigger]
                r.chosen().lookup().spec_get(c) == builtin_entry(c, T::spec_zero(), T::spec_one()),
            r.chosen().lookup().spec_min() == T::spec_zero(),
            r.chosen().lookup().spec_max() == T::spec_one(),
    {
        let lookup = crate::parser::mapper::default::LookupNum::<T>::new();
        let mapper = NumMapper::new(lookup);
        Builder { string: self.string, mapper }
    }

    /// Uses a boolean mapper backed by a `HashMap`.
    ///
    /// Characters not present in `map` are treated as unknown and will stop
    /// the parser when encountered.
    pub fn with_hash_bool_mapper<'b>(self, map: &'b HashMap<char, Entry<bool>>) -> (r: Builder<
        'a,
        N,
        BoolMapper<hash::LookupBool<'b>>,
    >)
        ensures
            r.source() == self.source(),
            r.chosen().lookup().table() == map@,
    {
        let lookup = hash::LookupBool::new(map);
        let mapper = BoolMapper::new(lookup);
        Builder { string: self.string, mapper }
    }

    /// Uses a numeric mapper with output type `T` backed by a `HashMap`.
    ///
    /// `min` and `max` are the smallest and largest values in `map`.
    /// Characters not present in `map` are treated as unknown and will stop
    /// the parser when encountered.
    pub fn with_hash_num_mapper<'b, T: NumLevel>(self, map: &'b HashMap<char, Entry<T>>) -> (r: Builder<
        'a,
        N,
        NumMapper<hash::LookupNum<'b, T>>,
    >)
        ensures
            r.source() == self.source(),
            r.chosen().lookup().describes(map@),
    {
        let lookup = hash::LookupNum::<T>::new(map);
        let mapper = NumMapper::new(lookup);
        Builder { string: self.string, mapper }
    }

    /// Uses a boolean mapper backed by a slice of `(char, Entry<bool>)` pairs.
    ///
    /// Characters not present in `map` are treated as unknown and will stop
    /// the parser when encountered.
    pub fn with_const_bool_map<'b>(self, map: &'b [(char, Entry<bool>)]) -> (r: Builder<
        'a,
        N,
        BoolMapper<constant::LookupBool<'b>>,
    >)
        ensures
            r.source() == self.source(),
            r.chosen().lookup().pairs() == map@,
    {
        let lookup = constant::LookupBool::new(map);
        let mapper = BoolMapper::new(lookup);
        Builder { string: self.string, mapper }
    }

    /// Uses a numeric mapper with output type `T` backed by a slice of
    /// `(char, Entry<T>)` pairs. This mapper allows any number of values, for
    /// example for tri-state logic.
    ///
    /// `min` and `max` are the smallest and largest values in `map`.
    /// Characters not present in `map` are treated as unknown and will stop
    /// the parser when encountered.
    pub fn with_const_num_mapper<'b, T: NumLevel>(self, map: &'b [(char, Entry<T>)]) -> (r: Builder<
        'a,
        N,
        NumMapper<constant::LookupNum<'b, T>>,
    >)
        ensures
            r.source() == self.source(),
            r.chosen().lookup().describes(map@),
    {
        let lookup = constant::LookupNum::<T>::new(map);
        let mapper = NumMapper::new(lookup);
        Builder { string: self.string, mapper }
    }
}

impl<'a, const N: usize, M: Mapper> Builder<'a, N, M> {
    /// Builds the parser, returning an error if the input cannot be parsed
    /// (the number of output lines exceeds `N`).
    pub fn try_build(self) -> (r: Result<Parser<'a, N, M>, ParseError>)
        ensures
            text_lines(self.source()@).len() <= N ==> (r matches Ok(p) && {
                &&& p.wf()
                &&& p.streams() == signal_streams(self.source()@)
                &&& p.mapper() == self.chosen()
                &&& p.progress().positions == Seq::new(
                    text_lines(self.source()@).len(),
                    |k: int| 0int,
                )
                &&& p.progress().last is None
                &&& p.progress().emitted == 0
            }),
            text_lines(self.source()@).len() > N ==> r == Err::<Parser<'a, N, M>, ParseError>(
                ParseError::CapacityFull,
            ),
    {
        Parser::new(self.string, self.mapper)
    }

    /// Builds the parser, for a text with at most `N` signal lines.
    ///
    /// Use [`try_build`](Builder::try_build) to handle errors explicitly.
    pub fn build(self) -> (p: Parser<'a, N, M>)
        requires
            text_lines(self.source()@).len() <= N,
        ensures
            p.wf(),
            p.streams() == signal_streams(self.source()@),
            p.mapper() == self.chosen(),
            p.progress().positions == Seq::new(text_lines(self.source()@).len(), |k: int| 0int),
            p.progress().last is None,
            p.progress().emitted == 0,
    {
        match self.try_build() {
            Ok(p) => p,
            Err(_) => vstd::pervasive::unreached(),
        }
    }
}

} // verus!
