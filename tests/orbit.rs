use spacebuild::orbit::{find_body, plan_tick, satellites, OrbitLink};

fn link(id: u32, gravity_center: u32) -> OrbitLink {
    OrbitLink { id, gravity_center }
}

fn sorted(mut v: Vec<usize>) -> Vec<usize> {
    v.sort();
    v
}

#[test]
fn find_body_returns_first_match_below_bound() {
    let links = vec![link(4, 4), link(7, 4), link(7, 7), link(9, 7)];
    assert_eq!(find_body(&links, 4, 7), Some(1));
    assert_eq!(find_body(&links, 1, 7), None);
    assert_eq!(find_body(&links, 4, 5), None);
    assert_eq!(find_body(&links, 0, 4), None);
}

#[test]
fn satellites_follow_chains_of_any_depth() {
    // 1 orbits 0, 2 orbits 1, 3 orbits 2, 4 is fixed, 5 orbits 4.
    let links = vec![link(1, 0), link(2, 1), link(3, 2), link(4, 4), link(5, 4)];
    assert_eq!(sorted(satellites(&links, 5, 0)), vec![0, 1, 2]);
    assert_eq!(sorted(satellites(&links, 5, 2)), vec![2]);
    assert_eq!(sorted(satellites(&links, 5, 4)), vec![3, 4]);
    assert_eq!(sorted(satellites(&links, 2, 0)), vec![0, 1]);
    assert_eq!(satellites(&links, 5, 99), Vec::<usize>::new());
}

#[test]
fn satellites_stop_at_the_bound() {
    // 0 orbits 10, 1 orbits 0, but only index 0 is below the bound.
    let links = vec![link(20, 10), link(30, 20)];
    assert_eq!(satellites(&links, 1, 10), vec![0]);
    assert_eq!(sorted(satellites(&links, 2, 10)), vec![0, 1]);
}

#[test]
fn satellites_terminate_on_cycles() {
    let links = vec![link(1, 2), link(2, 1), link(3, 1)];
    assert_eq!(sorted(satellites(&links, 3, 1)), vec![0, 1, 2]);
}

#[test]
fn plan_tick_with_fewer_than_two_bodies_is_empty() {
    assert!(plan_tick(&vec![]).is_empty());
    assert!(plan_tick(&vec![link(1, 0)]).is_empty());
}

#[test]
fn plan_tick_takes_the_last_body_first() {
    // Sun 1 is fixed; planet 2 orbits it; moon 3 orbits the planet.
    let links = vec![link(1, 1), link(3, 2), link(2, 1)];
    let plan = plan_tick(&links);
    assert_eq!(plan.len(), 3);

    // The planet is taken first: it moves about the sun and carries the moon.
    assert_eq!(plan[0].body, 2);
    assert_eq!(plan[0].center, Some(0));
    assert_eq!(plan[0].satellites, vec![1]);

    // The moon's center has already left the working list.
    assert_eq!(plan[1].body, 1);
    assert_eq!(plan[1].center, None);
    assert!(plan[1].satellites.is_empty());

    // The sun is its own center.
    assert_eq!(plan[2].body, 0);
    assert_eq!(plan[2].center, None);
}

#[test]
fn plan_tick_moon_taken_before_its_planet_still_follows_it() {
    // Sun 1 fixed, planet 2 orbits it, moon 3 orbits the planet; the moon is
    // taken first and rotates about the planet, then the planet carries it.
    let links = vec![link(1, 1), link(2, 1), link(3, 2)];
    let plan = plan_tick(&links);
    assert_eq!(plan[0].body, 2);
    assert_eq!(plan[0].center, Some(1));
    assert!(plan[0].satellites.is_empty());
    assert_eq!(plan[1].body, 1);
    assert_eq!(plan[1].center, Some(0));
    assert_eq!(plan[1].satellites, vec![2]);
}

#[test]
fn plan_tick_carries_a_subtree_taken_in_any_order() {
    // A fixed; B orbits A; C orbits B; D orbits C. D and C are taken before B.
    let links = vec![link(10, 10), link(20, 10), link(30, 20), link(40, 30)];
    let plan = plan_tick(&links);
    assert_eq!(plan[0].body, 3);
    assert_eq!(plan[0].center, Some(2));
    assert!(plan[0].satellites.is_empty());
    assert_eq!(plan[1].body, 2);
    assert_eq!(plan[1].center, Some(1));
    assert_eq!(plan[1].satellites, vec![3]);
    assert_eq!(plan[2].body, 1);
    assert_eq!(plan[2].center, Some(0));
    assert_eq!(sorted(plan[2].satellites.clone()), vec![2, 3]);
    assert_eq!(plan[3].center, None);
    assert!(plan[3].satellites.is_empty());
}

#[test]
fn plan_tick_dangling_center_leaves_body_unmoved() {
    let links = vec![link(1, 1), link(2, 42)];
    let plan = plan_tick(&links);
    assert_eq!(plan[0].body, 1);
    assert_eq!(plan[0].center, None);
    assert!(plan[0].satellites.is_empty());
}

#[test]
fn plan_tick_propagates_through_a_three_level_chain() {
    // A fixed at 0; D orbits C, C orbits B, B orbits A; B is taken first.
    let links = vec![link(10, 10), link(40, 30), link(30, 20), link(20, 10)];
    let plan = plan_tick(&links);
    assert_eq!(plan[0].body, 3);
    assert_eq!(plan[0].center, Some(0));
    assert_eq!(sorted(plan[0].satellites.clone()), vec![1, 2]);
    assert_eq!(plan[1].body, 2);
    assert_eq!(plan[1].center, None);
}
