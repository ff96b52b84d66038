use city_links::{explore, City, Links, MAX_SIZE};
use std::collections::VecDeque;

fn ring(population: usize) -> City<MAX_SIZE> {
    let mut city: City<MAX_SIZE> = City::new(population);
    if population > 0 {
        city.add_cycle(0, population);
    }
    city.precalculate_friends();
    city
}

fn isolated(population: usize) -> City<MAX_SIZE> {
    let mut city: City<MAX_SIZE> = City::new(population);
    city.precalculate_friends();
    city
}

fn queue(population: usize) -> VecDeque<usize> {
    let mut q = VecDeque::with_capacity(MAX_SIZE);
    for i in 0..population {
        q.push_back(i);
    }
    q
}

fn run(a: City<MAX_SIZE>, b: City<MAX_SIZE>) -> (usize, usize) {
    let mut qa = queue(a.get_population());
    let mut qb = queue(b.get_population());
    let mut links = Links::new(a, b);
    let mut calls = 0usize;
    let depth = explore(&mut links, &mut qa, &mut qb, &mut calls);
    (depth, calls)
}

#[test]
fn five_ring_against_five_ring() {
    let (depth, calls) = run(ring(5), ring(5));
    assert_eq!(depth, 5);
    assert_eq!(calls, 3226);
}

#[test]
fn six_ring_against_four_ring() {
    let (depth, calls) = run(ring(6), ring(4));
    assert!(depth <= 4);
    assert_eq!(depth, 2);
    assert_eq!(calls, 481);
}

#[test]
fn four_ring_against_four_ring() {
    let (depth, _) = run(ring(4), ring(4));
    assert_eq!(depth, 4);
}

#[test]
fn four_ring_against_three_ring() {
    let (depth, calls) = run(ring(4), ring(3));
    assert_eq!(depth, 1);
    assert_eq!(calls, 61);
}

#[test]
fn three_ring_against_three_ring() {
    let (depth, calls) = run(ring(3), ring(3));
    assert_eq!(depth, 3);
    assert_eq!(calls, 82);
}

#[test]
fn single_members_without_edges() {
    let mut links = Links::new(isolated(1), isolated(1));
    assert!(links.checked_add_link(0, 0));
    assert_eq!(links.get_neighbor(0, false), Some(0));
    assert_eq!(links.get_neighbor(0, true), Some(0));
    links.remove_link(0, 0);
    let mut qa = queue(1);
    let mut qb = queue(1);
    let mut calls = 0usize;
    assert_eq!(explore(&mut links, &mut qa, &mut qb, &mut calls), 1);
    assert_eq!(calls, 2);
}

#[test]
fn two_isolated_against_two_isolated() {
    let (depth, calls) = run(isolated(2), isolated(2));
    assert_eq!(depth, 2);
    assert_eq!(calls, 9);
}

#[test]
fn empty_first_population() {
    let (depth, calls) = run(isolated(0), ring(3));
    assert_eq!(depth, 0);
    assert_eq!(calls, 1);
}

#[test]
fn empty_second_population() {
    let (depth, calls) = run(ring(3), isolated(0));
    assert_eq!(depth, 0);
    assert_eq!(calls, 1);
}

#[test]
fn search_restores_state_and_repeats() {
    let mut qa = queue(5);
    let mut qb = queue(5);
    let mut links = Links::new(ring(5), ring(5));
    let mut calls = 0usize;
    let first = explore(&mut links, &mut qa, &mut qb, &mut calls);
    assert_eq!(qa, queue(5));
    assert_eq!(qb, queue(5));
    for i in 0..MAX_SIZE {
        assert_eq!(links.get_neighbor(i, false), None);
        assert_eq!(links.get_neighbor(i, true), None);
    }
    let second = explore(&mut links, &mut qa, &mut qb, &mut calls);
    assert_eq!(first, second);
    assert_eq!(calls, 2 * 3226);
}

#[test]
fn depth_stays_within_capacity() {
    let (depth, _) = run(isolated(3), isolated(5));
    assert_eq!(depth, 3);
    assert!(depth <= MAX_SIZE);
}
