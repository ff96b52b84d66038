use city_links::{City, Links, MAX_SIZE};
use std::collections::HashSet;

fn set(items: &[usize]) -> HashSet<usize> {
    items.iter().copied().collect()
}

#[test]
fn add_edge_is_symmetric() {
    let mut city: City<MAX_SIZE> = City::new(4);
    city.add_edge(1, 3);
    assert!(city.are_friends(1, 3));
    assert!(city.are_friends(3, 1));
    assert!(!city.are_friends(1, 2));
}

#[test]
fn add_cycle_builds_a_ring() {
    let mut city: City<MAX_SIZE> = City::new(5);
    city.add_cycle(0, 5);
    for i in 0..5 {
        let next = (i + 1) % 5;
        assert!(city.are_friends(i, next));
        assert!(city.are_friends(next, i));
    }
    assert!(!city.are_friends(0, 2));
    assert!(!city.are_friends(1, 3));
    assert_eq!(city.get_friends(0), set(&[1, 4]));
    assert_eq!(city.get_friends(2), set(&[1, 3]));
}

#[test]
fn add_cycle_on_a_sub_range() {
    let mut city: City<MAX_SIZE> = City::new(6);
    city.add_cycle(2, 5).add_edge(0, 1);
    assert_eq!(city.get_friends(2), set(&[3, 4]));
    assert_eq!(city.get_friends(3), set(&[2, 4]));
    assert_eq!(city.get_friends(4), set(&[2, 3]));
    assert_eq!(city.get_friends(0), set(&[1]));
    assert_eq!(city.get_friends(5), set(&[]));
}

#[test]
fn self_edge_is_not_a_friend() {
    let mut city: City<MAX_SIZE> = City::new(2);
    city.add_edge(1, 1);
    assert!(city.are_friends(1, 1));
    assert_eq!(city.get_friends(1), set(&[]));
}

#[test]
fn friends_only_after_precalculation() {
    let mut city: City<MAX_SIZE> = City::new(3);
    city.add_cycle(0, 3);
    assert!(city.get_precalculated_friends(0).is_none());
    city.precalculate_friends();
    assert_eq!(city.get_precalculated_friends(0), Some(&set(&[1, 2])));
    assert!(city.get_precalculated_friends(3).is_none());
    assert_eq!(city.get_population(), 3);
}

#[test]
fn precalculated_friends_are_symmetric() {
    let mut city: City<MAX_SIZE> = City::new(6);
    city.add_cycle(0, 6);
    city.add_edge(0, 3);
    city.precalculate_friends();
    for i in 0..6 {
        for j in 0..6 {
            let ij = city.get_precalculated_friends(i).unwrap().contains(&j);
            let ji = city.get_precalculated_friends(j).unwrap().contains(&i);
            assert_eq!(ij, ji);
            assert_eq!(city.are_friends(i, j), city.are_friends(j, i));
        }
    }
}

#[test]
fn incompatible_link_is_reported_and_kept() {
    let mut a: City<MAX_SIZE> = City::new(3);
    a.add_cycle(0, 3);
    a.precalculate_friends();
    let mut b: City<MAX_SIZE> = City::new(3);
    b.precalculate_friends();
    let mut links = Links::new(a, b);
    assert!(links.checked_add_link(0, 0));
    assert!(!links.checked_add_link(1, 1));
    assert_eq!(links.get_neighbor(1, false), Some(1));
    assert_eq!(links.get_neighbor(1, true), Some(1));
    links.remove_link(1, 1);
    assert_eq!(links.get_neighbor(1, false), None);
    assert_eq!(links.get_neighbor(1, true), None);
    assert_eq!(links.get_neighbor(0, false), Some(0));
}

#[test]
fn incompatible_link_seen_from_second_city() {
    let mut a: City<MAX_SIZE> = City::new(2);
    a.precalculate_friends();
    let mut b: City<MAX_SIZE> = City::new(2);
    b.add_edge(0, 1);
    b.precalculate_friends();
    let mut links = Links::new(a, b);
    assert!(links.checked_add_link(0, 0));
    assert!(!links.checked_add_link(1, 1));
}

#[test]
fn compatible_links_along_rings() {
    let mut a: City<MAX_SIZE> = City::new(4);
    a.add_cycle(0, 4);
    a.precalculate_friends();
    let mut b: City<MAX_SIZE> = City::new(4);
    b.add_cycle(0, 4);
    b.precalculate_friends();
    let mut links = Links::new(a, b);
    assert!(links.checked_add_link(0, 1));
    assert!(links.checked_add_link(1, 2));
    assert!(!links.checked_add_link(2, 0));
}
