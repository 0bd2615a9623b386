use ballot_box::graph::LockGraph;
use ballot_box::pairwise::{check_ballots, tabulate_pairwise_results, TallyError};
use ballot_box::tally::{lock_in, rank_victories, tally};

#[test]
fn three_way_cycle_is_broken_at_its_last_pair() {
    // Each candidate beats the next by two ballots to one, so the three
    // victories have the same margin and are proposed in the order of their
    // numbers; the third would close the cycle.
    let ballots = vec![vec![0, 1, 2], vec![1, 2, 0], vec![2, 0, 1]];
    let result = tally(&ballots, 3).unwrap();
    assert_eq!(result.locked, vec![(0, 1), (1, 2)]);
    assert_eq!(result.winners, vec![0]);
}

#[test]
fn tied_pairs_lock_nothing() {
    let ballots = vec![vec![0, 1, 2], vec![2, 1, 0]];
    let result = tally(&ballots, 3).unwrap();
    assert_eq!(result.locked, Vec::<(usize, usize)>::new());
    assert_eq!(result.winners, vec![0, 1, 2]);
}

#[test]
fn condorcet_winner_wins_alone() {
    let mut ballots: Vec<Vec<usize>> = Vec::new();
    for _ in 0..3 {
        ballots.push(vec![0, 1, 2]);
    }
    for _ in 0..2 {
        ballots.push(vec![1, 2, 0]);
    }
    ballots.push(vec![2, 0, 1]);
    let result = tally(&ballots, 3).unwrap();
    assert_eq!(result.locked, vec![(1, 2), (0, 1)]);
    assert_eq!(result.winners, vec![0]);
}

#[test]
fn tally_refuses_a_stranger() {
    let ballots = vec![vec![0, 3]];
    assert_eq!(tally(&ballots, 3).err(), Some(TallyError::InvalidCandidate));
}

#[test]
fn tally_refuses_a_repeated_candidate() {
    let ballots = vec![vec![0, 1, 0]];
    assert_eq!(tally(&ballots, 3).err(), Some(TallyError::InvalidBallot));
}

#[test]
fn no_candidates_no_winners() {
    let result = tally(&Vec::new(), 0).unwrap();
    assert!(result.locked.is_empty());
    assert!(result.winners.is_empty());
}

#[test]
fn one_candidate_wins() {
    let result = tally(&vec![vec![0], vec![]], 1).unwrap();
    assert!(result.locked.is_empty());
    assert_eq!(result.winners, vec![0]);
}

#[test]
fn larger_margins_are_locked_first() {
    // 1 over 2 by 3 ballots to none, 0 over 1 by 1 ballot to none.
    let ballots = vec![vec![1, 2], vec![1, 2], vec![1, 2], vec![0, 1]];
    let result = tally(&ballots, 3).unwrap();
    assert_eq!(result.locked, vec![(1, 2), (0, 1)]);
    assert_eq!(result.winners, vec![0]);
}

#[test]
fn stranger_is_reported_before_a_repeat() {
    let ballots = vec![vec![0, 0], vec![5]];
    assert_eq!(tally(&ballots, 3).err(), Some(TallyError::InvalidCandidate));
}

#[test]
fn smaller_victory_that_closes_a_cycle_is_dropped() {
    // 0 over 1 by 3 to 1, 1 over 2 by 3 to 1, 2 over 0 by 3 to 2.
    let ballots = vec![
        vec![0, 1, 2],
        vec![0, 1, 2],
        vec![1, 2, 0],
        vec![2, 0, 1],
        vec![2, 0],
    ];
    let result = tally(&ballots, 3).unwrap();
    assert_eq!(result.locked, vec![(0, 1), (1, 2)]);
    assert_eq!(result.winners, vec![0]);
}

#[test]
fn pairs_are_counted_by_place() {
    let ballots = vec![vec![0, 1, 2], vec![1, 0, 2], vec![1, 2, 0], vec![1], vec![4]];
    assert_eq!(check_ballots(&ballots, 6), Ok(()));
    let table = tabulate_pairwise_results(&ballots, 6);
    assert_eq!(table.candidate_count(), 6);
    assert_eq!(table.count(0, 1), 1);
    assert_eq!(table.count(1, 0), 2);
    assert_eq!(table.count(0, 2), 2);
    assert_eq!(table.count(2, 0), 1);
    assert_eq!(table.count(1, 2), 3);
    assert_eq!(table.count(2, 1), 0);
    assert_eq!(table.count(1, 1), 0);
    for other in 0..6 {
        assert_eq!(table.count(4, other), 0);
        assert_eq!(table.count(other, 4), 0);
        assert_eq!(table.count(3, other), 0);
        assert_eq!(table.count(other, 5), 0);
    }
    assert_eq!(rank_victories(&table), vec![(1, 2), (0, 2), (1, 0)]);
}

#[test]
fn ballots_are_checked() {
    assert_eq!(check_ballots(&Vec::new(), 0), Ok(()));
    assert_eq!(check_ballots(&vec![vec![]], 0), Ok(()));
    assert_eq!(check_ballots(&vec![vec![0]], 0), Err(TallyError::InvalidCandidate));
    assert_eq!(check_ballots(&vec![vec![2, 1, 0]], 3), Ok(()));
    assert_eq!(check_ballots(&vec![vec![2, 1, 2]], 3), Err(TallyError::InvalidBallot));
    assert_eq!(check_ballots(&vec![vec![2, 2], vec![3]], 3), Err(TallyError::InvalidCandidate));
}

#[test]
fn graph_refuses_what_closes_a_cycle() {
    let mut graph = LockGraph::new(4);
    assert_eq!(graph.node_count(), 4);
    assert_eq!(graph.roots(), vec![0, 1, 2, 3]);
    assert!(graph.try_add_edge(0, 1));
    assert!(graph.try_add_edge(1, 2));
    assert!(!graph.try_add_edge(2, 0));
    assert!(!graph.try_add_edge(1, 0));
    assert!(!graph.try_add_edge(0, 1));
    assert!(!graph.try_add_edge(3, 3));
    assert!(graph.try_add_edge(0, 2));
    assert!(graph.try_add_edge(3, 0));
    assert!(!graph.try_add_edge(2, 3));
    assert_eq!(graph.edges(), &vec![(0, 1), (1, 2), (0, 2), (3, 0)]);
    assert!(graph.has_path(3, 2));
    assert!(graph.has_path(0, 2));
    assert!(!graph.has_path(2, 0));
    assert!(!graph.has_path(0, 0));
    assert!(!graph.has_path(1, 3));
    assert!(graph.has_edge(3, 0));
    assert!(!graph.has_edge(3, 1));
    assert_eq!(graph.roots(), vec![3]);
    assert_eq!(graph.into_edges(), vec![(0, 1), (1, 2), (0, 2), (3, 0)]);
}

#[test]
fn proposals_are_locked_in_their_order() {
    let graph = lock_in(&vec![(2, 0), (0, 1), (1, 2), (1, 3)], 4);
    assert_eq!(graph.edges(), &vec![(2, 0), (0, 1), (1, 3)]);
    assert_eq!(graph.roots(), vec![2]);
}

#[test]
fn condorcet_winner_wins_whatever_the_margins() {
    // 2 beats 0 by 3 to 2 and 1 by 3 to 2, while 0 beats 1 by 5 to 0.
    let ballots = vec![
        vec![2, 0, 1],
        vec![2, 0, 1],
        vec![2, 0, 1],
        vec![0, 1, 2],
        vec![0, 1, 2],
    ];
    let result = tally(&ballots, 3).unwrap();
    assert_eq!(result.locked, vec![(0, 1), (2, 0), (2, 1)]);
    assert_eq!(result.winners, vec![2]);
}
