use wobblechar::prevable::{Prevable, PrevableExt};

#[test]
fn prevable_remembers_the_last_item() {
    let mut p = Prevable::new(vec![1u8, 2, 3].into_iter());
    assert_eq!(p.prev(), None);
    assert_eq!(p.next(), Some(1));
    assert_eq!(p.prev(), Some(1));
    assert_eq!(p.next(), Some(2));
    assert_eq!(p.next(), Some(3));
    assert_eq!(p.prev(), Some(3));
    assert_eq!(p.next(), None);
    assert_eq!(p.prev(), Some(3));
}

#[test]
fn prevable_from_extension() {
    let mut p = "ab".chars().prevable();
    assert_eq!(p.prev(), None);
    assert_eq!(p.next(), Some('a'));
    assert_eq!(p.prev(), Some('a'));
}

#[test]
fn prevable_passes_the_items_on() {
    let mut p = vec![4u8, 5].into_iter().prevable();
    let mut plain = vec![4u8, 5].into_iter();
    for _ in 0..4 {
        assert_eq!(p.next(), plain.next());
    }
    assert_eq!(p.prev(), Some(5));
}
