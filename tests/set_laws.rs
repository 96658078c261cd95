use enum_set::{format_entries, CLike, EnumSet};

#[derive(Copy, Clone, PartialEq, Eq, PartialOrd, Ord, Debug)]
struct Pos(u32);

impl CLike for Pos {
    fn spec_index(&self) -> u32 {
        self.0
    }

    fn to_u32(&self) -> u32 {
        self.0
    }

    fn from_u32(v: u32) -> Pos {
        Pos(v)
    }
}

fn set_of(positions: &[u32]) -> EnumSet<Pos> {
    let mut s = EnumSet::new();
    for p in positions {
        s.insert(Pos(*p));
    }
    s
}

fn members(s: &EnumSet<Pos>) -> Vec<u32> {
    s.iter().collect().into_iter().map(|p| p.0).collect()
}

#[test]
fn union_and_intersection_commute() {
    let a = set_of(&[0, 3, 31]);
    let b = set_of(&[3, 7]);
    assert!(a.union(b) == b.union(a));
    assert!(a.intersection(b) == b.intersection(a));
    assert_eq!(members(&a.union(b)), vec![0, 3, 7, 31]);
    assert_eq!(members(&a.intersection(b)), vec![3]);
}

#[test]
fn union_and_intersection_with_self() {
    let a = set_of(&[1, 2, 30]);
    assert!(a.union(a) == a);
    assert!(a.intersection(a) == a);
}

#[test]
fn difference_is_disjoint_from_subtrahend() {
    let a = set_of(&[0, 1, 2, 5]);
    let b = set_of(&[1, 5, 9]);
    assert!(a.difference(b).is_disjoint(&b));
    assert_eq!(members(&a.difference(b)), vec![0, 2]);
}

#[test]
fn intersection_as_double_difference() {
    let a = set_of(&[0, 1, 2, 5]);
    let b = set_of(&[1, 5, 9]);
    assert!(a.intersection(b) == a.difference(a.difference(b)));
}

#[test]
fn symmetric_difference_forms() {
    let a = set_of(&[0, 1, 2, 5]);
    let b = set_of(&[1, 5, 9]);
    let x = a.symmetric_difference(b);
    assert!(x == a.difference(b).union(b.difference(a)));
    assert!(x == a.union(b).difference(a.intersection(b)));
    assert_eq!(members(&x), vec![0, 2, 9]);
}

#[test]
fn len_matches_iteration() {
    let a = set_of(&[0, 4, 8, 16, 31]);
    assert_eq!(a.len(), 5);
    assert_eq!(a.iter().collect().len(), a.len());
    let it = a.iter();
    assert_eq!(it.size_hint(), (5, Some(5)));
}

#[test]
fn insert_remove_round_trip() {
    let mut a: EnumSet<Pos> = EnumSet::new();
    assert!(a.insert(Pos(6)));
    assert!(a.contains(&Pos(6)));
    assert!(!a.insert(Pos(6)));
    assert!(a.contains(&Pos(6)));
    assert!(a.remove(&Pos(6)));
    assert!(!a.contains(&Pos(6)));
    assert!(!a.remove(&Pos(6)));
}

#[test]
fn empty_set_scenario() {
    let a: EnumSet<Pos> = EnumSet::new();
    assert!(a.is_empty());
    assert_eq!(a.len(), 0);
    assert!(a.iter().collect().is_empty());
    assert_eq!(a.debug_string(), "{}");
    let d: EnumSet<Pos> = EnumSet::default();
    assert!(d == a);
}

#[test]
fn highest_position_is_held() {
    let mut a: EnumSet<Pos> = EnumSet::new();
    a.insert(Pos(31));
    a.insert(Pos(0));
    assert_eq!(a.len(), 2);
    assert_eq!(members(&a), vec![0, 31]);
    assert!(a.contains(&Pos(31)));
}

#[test]
fn iterator_ends_and_stays_ended() {
    let a = set_of(&[2]);
    let mut it = a.iter();
    assert_eq!(it.next(), Some(Pos(2)));
    assert_eq!(it.next(), None);
    assert_eq!(it.next(), None);
    assert_eq!(it.size_hint(), (0, Some(0)));
}

#[test]
fn iterator_is_a_snapshot() {
    let mut a = set_of(&[1, 4]);
    let it = a.iter();
    a.insert(Pos(2));
    a.remove(&Pos(1));
    assert_eq!(it.collect(), vec![Pos(1), Pos(4)]);
}

#[test]
fn bulk_construction() {
    let a = EnumSet::from_iter(vec![Pos(9), Pos(3), Pos(9), Pos(0)]);
    assert_eq!(members(&a), vec![0, 3, 9]);
    let mut b = set_of(&[1]);
    b.extend(vec![Pos(3), Pos(1)]);
    assert_eq!(members(&b), vec![1, 3]);
}

#[test]
fn subset_and_superset() {
    let a = set_of(&[1, 2]);
    let b = set_of(&[1, 2, 3]);
    assert!(a.is_subset(&b));
    assert!(!b.is_subset(&a));
    assert!(b.is_superset(&a));
    assert!(a.is_subset(&a));
}

#[test]
fn ordering_follows_the_mask() {
    let a = set_of(&[0, 1]);
    let b = set_of(&[2]);
    assert!(a < b);
    assert!(a != b);
}

#[test]
fn entries_are_joined_in_braces() {
    assert_eq!(format_entries(&vec![]), "{}");
    assert_eq!(format_entries(&vec!["x".to_string()]), "{x}");
    assert_eq!(
        format_entries(&vec!["A".to_string(), "B".to_string(), "C".to_string()]),
        "{A, B, C}"
    );
}

#[test]
fn debug_text_of_members() {
    let a = set_of(&[3, 1]);
    assert_eq!(a.debug_string(), "{Pos(1), Pos(3)}");
}
