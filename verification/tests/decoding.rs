use std::collections::HashMap;
use wobblechar::mapper::constant;
use wobblechar::mapper::hash;
use wobblechar::mapper::{swap_extremes, NumLevel};
use wobblechar::parser::MapOut;
use wobblechar::{Builder, BoolMapper, Entry, Item, LookupMap, Mapper, NumMapper, ParseError, Parser};

fn items<'a, const N: usize, M: Mapper>(mut parser: Parser<'a, N, M>) -> Vec<Item<MapOut<M>, N>> {
    let mut out = Vec::new();
    while let Some(item) = parser.next() {
        out.push(item);
    }
    out
}

fn bools(items: &[Item<bool, 1>]) -> Vec<(usize, bool, bool)> {
    items.iter().map(|i| (i.index, i.values[0], i.changed)).collect()
}

#[test]
fn one_item_per_position_of_longest_line() {
    let parser = Builder::<3>::new_from_string("_|\n‾‾‾‾\n|").with_def_bool_mapper().build();
    let out = items(parser);
    assert_eq!(out.len(), 4);
    for (i, item) in out.iter().enumerate() {
        assert_eq!(item.index, i);
        assert_eq!(item.values.len(), 3);
    }
}

#[test]
fn exhausted_parser_stays_exhausted() {
    let mut parser = Builder::<1>::new_from_string("_‾").with_def_bool_mapper().build();
    assert!(parser.next().is_some());
    assert!(parser.next().is_some());
    assert!(parser.next().is_none());
    assert!(parser.next().is_none());
    assert!(parser.next().is_none());
}

#[test]
fn ended_line_keeps_its_last_value() {
    let out = items(Builder::<2>::new_from_string("‾\n___").with_def_bool_mapper().build());
    assert_eq!(out.len(), 3);
    assert_eq!(out[1].values, vec![true, false]);
    assert_eq!(out[2].values, vec![true, false]);
    assert!(!out[1].changed);
}

#[test]
fn leading_toggle_takes_the_next_level() {
    let out = items(Builder::<1>::new_from_string("|_").with_def_bool_mapper().build());
    assert_eq!(bools(&out), vec![(0, false, true), (1, false, false)]);
    let out = items(Builder::<1>::new_from_string("|‾").with_def_bool_mapper().build());
    assert_eq!(bools(&out), vec![(0, true, true), (1, true, false)]);
}

#[test]
fn first_step_unchanged_without_toggle() {
    let out = items(Builder::<2>::new_from_string("‾\n_").with_def_bool_mapper().build());
    assert_eq!(out.len(), 1);
    assert!(!out[0].changed);
}

#[test]
fn toggle_marks_change_even_when_value_is_kept() {
    const MAP: [(char, Entry<i8>); 4] = [
        ('_', Entry::Value(0)),
        ('X', Entry::Value(4)),
        ('M', Entry::Value(2)),
        ('|', Entry::Toggle),
    ];
    let out = items(Builder::<1>::new_from_string("M|").with_const_num_mapper::<i8>(&MAP).build());
    assert_eq!(out.len(), 2);
    assert_eq!(out[0].values, vec![2]);
    assert!(!out[0].changed);
    assert_eq!(out[1].values, vec![2]);
    assert!(out[1].changed);
}

#[test]
fn unknown_character_stops_then_resumes() {
    const MAP: [(char, Entry<bool>); 3] = [
        ('H', Entry::Value(true)),
        ('L', Entry::Value(false)),
        ('|', Entry::Toggle),
    ];
    let mut parser = Builder::<1>::new_from_string("LZL").with_const_bool_map(&MAP).build();
    let first = parser.next().unwrap();
    assert_eq!((first.index, first.values[0], first.changed), (0, false, false));
    assert!(parser.next().is_none());
    let third = parser.next().unwrap();
    assert_eq!((third.index, third.values[0], third.changed), (1, false, false));
    assert!(parser.next().is_none());
}

#[test]
fn too_many_lines_is_capacity_full() {
    let r = Builder::<2>::new_from_string("_\n_\n_").with_def_bool_mapper().try_build();
    assert!(matches!(r, Err(ParseError::CapacityFull)));
    let r = Builder::<3>::new_from_string("_\n_\n_").with_def_bool_mapper().try_build();
    assert!(r.is_ok());
    let r = Parser::<2, _>::new("A:_\nB:_\nA:_", BoolMapper::new(constant::LookupBool::new(&[])));
    assert!(r.is_ok());
}

#[test]
fn labeled_lines_are_joined() {
    let out = items(
        Builder::<2>::new_from_string("A: _‾  # a\nB: ‾‾\nA: ‾_\n# only a comment\nB:_‾\n")
            .with_def_bool_mapper()
            .build(),
    );
    let values: Vec<Vec<bool>> = out.iter().map(|i| i.values.clone()).collect();
    assert_eq!(
        values,
        vec![vec![false, true], vec![true, true], vec![true, false], vec![false, true]]
    );
}

#[test]
fn bool_toggle_negates() {
    let m = BoolMapper::new(constant::LookupBool::new(&[]));
    assert_eq!(m.toggle(true), false);
    assert_eq!(m.toggle(m.toggle(true)), true);
}

#[test]
fn num_toggle_mirrors_between_extremes() {
    let pairs = [('a', Entry::Value(0i16)), ('b', Entry::Value(5i16)), ('|', Entry::Toggle)];
    let m = NumMapper::new(constant::LookupNum::new(&pairs));
    assert_eq!(m.low(), 0);
    assert_eq!(m.high(), 5);
    assert_eq!(m.toggle(1), 4);
    assert_eq!(m.toggle(m.toggle(1)), 1);
}

#[test]
fn num_toggle_wraps_like_the_value_type() {
    let pairs = [('a', Entry::Value(200u8)), ('b', Entry::Value(250u8))];
    let m = NumMapper::new(constant::LookupNum::new(&pairs));
    assert_eq!(m.toggle(200), 250);
    assert_eq!(m.toggle(250), 200);
    assert_eq!(<u8 as NumLevel>::mirror(200, 250, 10), 184);
}

#[test]
fn const_num_bounds_come_from_values() {
    let pairs = [('x', Entry::Value(3i32)), ('y', Entry::Value(-2)), ('|', Entry::Toggle), ('z', Entry::Value(7))];
    let l = constant::LookupNum::new(&pairs);
    assert_eq!((l.min(), l.max()), (-2, 7));
    let none: [(char, Entry<i32>); 1] = [('|', Entry::Toggle)];
    let l = constant::LookupNum::new(&none);
    assert_eq!((l.min(), l.max()), (0, 1));
}

#[test]
fn const_lookup_takes_the_first_pair() {
    let pairs = [('x', Entry::Value(true)), ('x', Entry::Value(false)), ('|', Entry::Toggle)];
    let l = constant::LookupBool::new(&pairs);
    assert_eq!(l.get('x'), Some(Entry::Value(true)));
    assert_eq!(l.get('|'), Some(Entry::Toggle));
    assert_eq!(l.get('q'), None);
}

#[test]
fn hash_num_bounds_come_from_values() {
    let map: HashMap<char, Entry<i64>> =
        [('x', Entry::Value(3)), ('y', Entry::Value(-2)), ('z', Entry::Value(7)), ('|', Entry::Toggle)].into();
    let l = hash::LookupNum::new(&map);
    assert_eq!((l.min(), l.max()), (-2, 7));
    assert_eq!(l.get('y'), Some(Entry::Value(-2)));
    assert_eq!(l.get('q'), None);
    let empty: HashMap<char, Entry<i64>> = HashMap::new();
    let l = hash::LookupNum::new(&empty);
    assert_eq!((l.min(), l.max()), (0, 1));
}

#[test]
fn hash_bool_lookup_reads_the_map() {
    let map: HashMap<char, Entry<bool>> = [('H', Entry::Value(true)), ('|', Entry::Toggle)].into();
    let l = hash::LookupBool::new(&map);
    assert_eq!(l.get('H'), Some(Entry::Value(true)));
    assert_eq!(l.get('|'), Some(Entry::Toggle));
    assert_eq!(l.get('L'), None);
}

#[test]
fn builtin_lookup_maps_every_character() {
    let l = wobblechar::mapper::default::LookupBool::new();
    assert_eq!(l.get('_'), Some(Entry::Value(false)));
    assert_eq!(l.get('|'), Some(Entry::Toggle));
    assert_eq!(l.get('x'), Some(Entry::Value(true)));
    let n = wobblechar::mapper::default::LookupNum::<u32>::new();
    assert_eq!(n.get('_'), Some(Entry::Value(0)));
    assert_eq!(n.get('#'), Some(Entry::Value(1)));
}

#[test]
fn mapper_defaults() {
    let m = BoolMapper::new(wobblechar::mapper::default::LookupBool::new());
    assert_eq!(m.value('_'), Some(false));
    assert_eq!(m.value('|'), None);
    assert!(m.is_toggle('|'));
    assert!(!m.is_toggle('_'));
    assert_eq!(m.default(), false);
    assert_eq!(swap_extremes(&m, false), true);
    assert_eq!(swap_extremes(&m, true), false);
}

#[test]
fn entry_value() {
    assert_eq!(Entry::Value(3u8).value(), Some(&3));
    assert_eq!(Entry::<u8>::Toggle.value(), None);
}

// The outputs documented in the crate's usage example.

#[test]
fn example_bool_mapper() {
    let out = items(Builder::<1>::new_from_string("_|‾|_").with_def_bool_mapper().build());
    assert_eq!(
        bools(&out),
        vec![(0, false, false), (1, true, true), (2, true, false), (3, false, true), (4, false, false)]
    );
}

#[test]
fn example_num_mapper() {
    let out = items(
        Builder::<2>::new_from_string("\n        _|‾|_\n        ‾|_|‾\n    ")
            .with_def_num_mapper::<u8>()
            .build(),
    );
    let got: Vec<(usize, Vec<u8>, bool)> = out.iter().map(|i| (i.index, i.values.clone(), i.changed)).collect();
    assert_eq!(
        got,
        vec![
            (0, vec![0, 1], false),
            (1, vec![1, 0], true),
            (2, vec![1, 0], false),
            (3, vec![0, 1], true),
            (4, vec![0, 1], false),
        ]
    );
}

#[test]
fn example_multi_line_labeled() {
    let out = items(
        Builder::<2>::new_from_string(
            "
        CLK: _|‾|_|‾|_   # first block
        DAT: ___|‾‾‾|_

        CLK: ‾|_|‾|_|‾   # continuation
        DAT: |‾‾‾|__|‾
    ",
        )
        .with_def_bool_mapper()
        .build(),
    );
    let clk = [false, true, true, false, false, true, true, false, false, true, false, false, true, true, false, false, true, true];
    let dat = [false, false, false, true, true, true, true, false, false, true, true, true, true, false, false, false, true, true];
    let changed = [false, true, false, true, false, true, false, true, false, true, true, false, true, true, true, false, true, false];
    assert_eq!(out.len(), 18);
    for (t, item) in out.iter().enumerate() {
        assert_eq!(item.index, t);
        assert_eq!(item.values, vec![clk[t], dat[t]], "values at {}", t);
        assert_eq!(item.changed, changed[t], "changed at {}", t);
    }
}

#[test]
fn example_custom_const_map() {
    const MAP: &[(char, Entry<bool>)] = &[('H', Entry::Value(true)), ('L', Entry::Value(false)), ('|', Entry::Toggle)];
    let out = items(Builder::<1>::new_from_string("LHL|H|L").with_const_bool_map(MAP).build());
    assert_eq!(
        bools(&out),
        vec![
            (0, false, false),
            (1, true, true),
            (2, false, true),
            (3, true, true),
            (4, true, false),
            (5, false, true),
            (6, false, false),
        ]
    );
}

#[test]
fn swap_extremes_twice_gives_the_value_back() {
    let pairs = [('a', Entry::Value(2i32)), ('b', Entry::Value(9i32))];
    let m = NumMapper::new(constant::LookupNum::new(&pairs));
    assert_eq!(swap_extremes(&m, 2), 9);
    assert_eq!(swap_extremes(&m, swap_extremes(&m, 2)), 2);
    assert_eq!(swap_extremes(&m, swap_extremes(&m, 9)), 9);
    assert_eq!(swap_extremes(&m, 5), 2);
}

#[test]
fn wide_levels_mirror() {
    let pairs = [('a', Entry::Value(-3i128)), ('b', Entry::Value(10i128))];
    let m = NumMapper::new(constant::LookupNum::new(&pairs));
    assert_eq!(m.toggle(0), 7);
    assert_eq!(<u128 as NumLevel>::mirror(1, 5, 2), 4);
    assert_eq!(<u128 as NumLevel>::mirror(u128::MAX - 1, u128::MAX, u128::MAX), u128::MAX - 1);
}

fn decoded<const N: usize>(text: &str) -> Vec<Item<bool, N>> {
    items(Builder::<N>::new_from_string(text).with_def_bool_mapper().build())
}

#[test]
fn blank_and_comment_lines_change_nothing() {
    let plain = decoded::<2>("A:_|‾\nB:‾_\nA:|_");
    assert_eq!(plain.len(), 5);
    assert_eq!(decoded::<2>("A:_|‾\n\n  # note\nB:‾_\n\t\nA:|_"), plain);
    assert_eq!(decoded::<2>("# head\nA:_|‾\nB:‾_\nA:|_"), plain);
}

#[test]
fn leading_blanks_change_nothing() {
    let plain = decoded::<2>("A:_|‾\nB:‾_\nA:|_");
    assert_eq!(decoded::<2>("  A:_|‾\n\tB:‾_\n \t A:|_"), plain);
}

#[test]
fn trailing_blanks_and_comments_change_nothing() {
    let plain = decoded::<2>("A:_|‾\nB:‾_\nA:|_");
    assert_eq!(decoded::<2>("A:_|‾  \nB:‾_ # low first\nA:|_\t"), plain);
    assert_eq!(decoded::<2>("A:_|‾# x\r\nB:‾_\r\nA:|_  #"), plain);
}

#[test]
fn blank_lines_with_any_terminator_change_nothing() {
    let plain = decoded::<2>("A:_|‾\nB:‾_\nA:|_");
    assert_eq!(decoded::<2>("A:_|‾\r\r  # c\rB:‾_\rA:|_"), plain);
    assert_eq!(decoded::<2>("A:_|‾\r\n  # c\r\n\r\nB:‾_\r\nA:|_"), plain);
    assert_eq!(decoded::<2>("\t\r\nA:_|‾\nB:‾_\n  \rA:|_"), plain);
}

#[test]
fn comment_line_after_unterminated_last_line_changes_nothing() {
    let plain = decoded::<2>("A:_|‾\nB:‾_\nA:|_");
    assert_eq!(decoded::<2>("A:_|‾\nB:‾_\nA:|_\n# end"), plain);
    assert_eq!(decoded::<2>("A:_|‾\nB:‾_\nA:|_\r  "), plain);
    assert_eq!(decoded::<2>("A:_|‾\nB:‾_\nA:|_\r\n"), plain);
}
