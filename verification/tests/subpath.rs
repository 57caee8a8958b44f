use soco::cache::PathCache;
use soco::config::{copy_config, copy_schedule, same_config, zero_config, Config, Path};
use soco::problem::Problem;
use soco::result::Failure;
use soco::subpath::{find_shortest_subpath, first_power_down, record_subpath, update_paths};
use soco::vertice::{Phase, Vertice};

fn problem() -> Problem {
    let configs: Vec<Config> = vec![vec![0], vec![1], vec![2]];
    Problem {
        d: 1,
        t_end: 2,
        bounds: vec![2],
        switching_cost: vec![5],
        hitting_cost: (1..=2)
            .map(|_| configs.iter().map(|x| (x.clone(), [50, 9, 2][x[0] as usize])).collect())
            .collect(),
    }
}

fn up(t: i32, x: i32) -> Vertice {
    Vertice::new(t, vec![x], Phase::PoweringUp)
}

fn down(t: i32, x: i32) -> Vertice {
    Vertice::new(t, vec![x], Phase::PoweringDown)
}

fn started() -> PathCache {
    let mut paths = PathCache::new();
    paths.put(up(1, 0), Path::empty());
    paths
}

#[test]
fn subpath_raises_pays_and_relaxes() {
    let p = problem();
    let values = vec![vec![0, 1, 2]];
    let mut paths = started();
    // to level 2 at 5 each, hitting cost 2, down to 1 for free: 12;
    // staying at 1 would cost 5 + 9
    find_shortest_subpath(&p, &values, &mut paths, &up(1, 0), &up(2, 1)).unwrap();
    let path = paths.get(&up(2, 1)).unwrap();
    assert_eq!(path.schedule, vec![vec![2]]);
    assert_eq!(path.cost, 12);
    assert!(paths.get(&up(2, 2)).is_none());
}

#[test]
fn subpath_to_the_terminal_powers_down_to_zero() {
    let p = problem();
    let values = vec![vec![0, 1, 2]];
    let mut paths = PathCache::new();
    paths.put(up(2, 1), Path { schedule: vec![vec![2]], cost: 12 });
    find_shortest_subpath(&p, &values, &mut paths, &up(2, 1), &down(3, 0)).unwrap();
    let path = paths.get(&down(3, 0)).unwrap();
    assert_eq!(path.schedule, vec![vec![2], vec![2]]);
    assert_eq!(path.cost, 12 + 5 + 2);
}

#[test]
fn subpath_from_an_uncached_vertice_fails() {
    let p = problem();
    let values = vec![vec![0, 1, 2]];
    let mut paths = started();
    assert_eq!(
        find_shortest_subpath(&p, &values, &mut paths, &up(1, 1), &up(2, 1)),
        Err(Failure::PathsShouldBeCached)
    );
    assert!(paths.get(&up(2, 1)).is_none());
}

#[test]
fn subpath_without_hitting_cost_is_missing() {
    let mut p = problem();
    p.hitting_cost[0].clear();
    let values = vec![vec![0, 1, 2]];
    let mut paths = started();
    assert_eq!(
        find_shortest_subpath(&p, &values, &mut paths, &up(1, 0), &up(2, 1)),
        Err(Failure::SubpathShouldBePresent)
    );
}

#[test]
fn first_power_down_is_the_choice() {
    let path = vec![up(1, 0), up(1, 1), down(1, 1), down(1, 0), up(2, 0)];
    assert_eq!(first_power_down(&path), Some(vec![1]));
    assert_eq!(first_power_down(&vec![up(1, 0), up(1, 1)]), None);
    assert_eq!(first_power_down(&vec![]), None);
}

#[test]
fn recording_keeps_the_cheaper_path() {
    let mut paths = started();
    paths.put(up(1, 1), Path { schedule: vec![], cost: 0 });
    update_paths(&mut paths, &up(1, 0), &up(2, 1), vec![2], 12).unwrap();
    update_paths(&mut paths, &up(1, 1), &up(2, 1), vec![1], 14).unwrap();
    assert_eq!(paths.get(&up(2, 1)).unwrap().schedule, vec![vec![2]]);
    assert_eq!(paths.get(&up(2, 1)).unwrap().cost, 12);
    update_paths(&mut paths, &up(1, 1), &up(2, 1), vec![1], 12).unwrap();
    assert_eq!(paths.get(&up(2, 1)).unwrap().schedule, vec![vec![2]]);
    update_paths(&mut paths, &up(1, 1), &up(2, 1), vec![1], 11).unwrap();
    assert_eq!(paths.get(&up(2, 1)).unwrap().schedule, vec![vec![1]]);
    assert_eq!(paths.get(&up(2, 1)).unwrap().cost, 11);
    assert_eq!(
        update_paths(&mut paths, &up(1, 2), &up(2, 1), vec![2], 1),
        Err(Failure::PathsShouldBeCached)
    );
}

#[test]
fn recording_adds_to_the_cost_so_far() {
    let mut paths = PathCache::new();
    paths.put(up(2, 1), Path { schedule: vec![vec![2]], cost: 12 });
    let outcome = Some((vec![up(2, 1), up(2, 2), down(2, 2), down(2, 1), up(3, 1)], 7));
    record_subpath(&mut paths, &up(2, 1), &up(3, 1), outcome).unwrap();
    let path = paths.get(&up(3, 1)).unwrap();
    assert_eq!(path.schedule, vec![vec![2], vec![2]]);
    assert_eq!(path.cost, 19);
}

#[test]
fn recording_nothing_fails() {
    let mut paths = started();
    assert_eq!(
        record_subpath(&mut paths, &up(1, 0), &up(2, 1), None),
        Err(Failure::SubpathShouldBePresent)
    );
    assert_eq!(
        record_subpath(&mut paths, &up(1, 0), &up(2, 1), Some((vec![up(1, 0), up(2, 1)], 3))),
        Err(Failure::SubpathShouldBePresent)
    );
    assert!(!paths.contains(&up(2, 1)));
}

#[test]
fn subpath_from_a_vertice_that_is_above_pays_nothing_for_it() {
    let p = problem();
    let values = vec![vec![0, 1, 2]];
    let mut paths = PathCache::new();
    paths.put(up(1, 2), Path { schedule: vec![], cost: 0 });
    find_shortest_subpath(&p, &values, &mut paths, &up(1, 2), &up(2, 0)).unwrap();
    let path = paths.get(&up(2, 0)).unwrap();
    assert_eq!(path.schedule, vec![vec![2]]);
    assert_eq!(path.cost, 2);
}

#[test]
fn cache_replaces_in_place() {
    let mut paths = PathCache::new();
    assert!(!paths.contains(&up(1, 0)));
    paths.put(up(1, 0), Path::empty());
    paths.put(up(1, 1), Path { schedule: vec![vec![1]], cost: 4 });
    paths.put(up(1, 0), Path { schedule: vec![vec![0]], cost: 3 });
    assert!(paths.contains(&up(1, 0)));
    assert_eq!(paths.get(&up(1, 0)).unwrap().cost, 3);
    assert_eq!(paths.get(&up(1, 1)).unwrap().cost, 4);
    assert!(paths.get(&down(1, 0)).is_none());
}

#[test]
fn configurations_are_copied_and_compared() {
    assert_eq!(zero_config(3), vec![0, 0, 0]);
    assert_eq!(copy_config(&vec![1, 2]), vec![1, 2]);
    assert_eq!(copy_schedule(&vec![vec![1], vec![2]]), vec![vec![1], vec![2]]);
    assert!(same_config(&vec![1, 2], &vec![1, 2]));
    assert!(!same_config(&vec![1, 2], &vec![1, 3]));
    assert!(!same_config(&vec![1, 2], &vec![1]));
    let path = Path { schedule: vec![vec![1]], cost: 4 };
    let copy = path.duplicate();
    assert_eq!(copy.schedule, path.schedule);
    assert_eq!(copy.cost, path.cost);
}
