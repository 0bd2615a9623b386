use ballot_box::admin::{collect_contenders, get_results, ElectionResults};
use ballot_box::pairwise::TallyError;
use ballot_box::state::{ApplicationState, Data};

fn names(list: &[&str]) -> Vec<String> {
    list.iter().map(|s| s.to_string()).collect()
}

fn pair(winner: &str, loser: &str) -> (String, String) {
    (winner.to_string(), loser.to_string())
}

fn election(roster: &[&str], rankings: &[(&[&str], usize)]) -> ApplicationState {
    let mut state = ApplicationState::new("secret".to_string());
    state.set_candidates(names(roster));
    let mut voter = 0;
    for (ranking, times) in rankings {
        for _ in 0..*times {
            assert_eq!(state.add_ballot(format!("KD9{:03}", voter), names(ranking)), Ok(()));
            voter += 1;
        }
    }
    state
}

#[test]
fn three_way_cycle_of_names() {
    let mut state = election(
        &["A", "B", "C"],
        &[(&["A", "B", "C"], 1), (&["B", "C", "A"], 1), (&["C", "A", "B"], 1)],
    );
    let results = ElectionResults::from_election_data(&mut state);
    assert_eq!(results.candidates, names(&["A", "B", "C"]));
    assert_eq!(results.votes.len(), 3);
    assert_eq!(results.locked, vec![pair("A", "B"), pair("B", "C")]);
    assert_eq!(results.winners, names(&["A"]));
}

#[test]
fn all_pairs_tied_means_all_win() {
    let mut state = election(&["A", "B", "C"], &[(&["A", "B", "C"], 1), (&["C", "B", "A"], 1)]);
    let results = ElectionResults::from_election_data(&mut state);
    assert!(results.locked.is_empty());
    assert_eq!(results.winners, names(&["A", "B", "C"]));
}

#[test]
fn condorcet_winner_of_names() {
    let mut state = election(
        &["A", "B", "C"],
        &[(&["A", "B", "C"], 3), (&["B", "C", "A"], 2), (&["C", "A", "B"], 1)],
    );
    let results = ElectionResults::from_election_data(&mut state);
    assert_eq!(results.votes.len(), 6);
    assert_eq!(results.locked, vec![pair("B", "C"), pair("A", "B")]);
    assert_eq!(results.winners, names(&["A"]));
}

#[test]
fn results_do_not_depend_on_the_shuffle() {
    let mut seen: Vec<(Vec<(String, String)>, Vec<String>)> = Vec::new();
    for _ in 0..25 {
        let mut state = election(
            &["A", "B", "C", "D"],
            &[
                (&["A", "B", "C", "D"], 2),
                (&["D", "C"], 2),
                (&["B", "D", "A"], 1),
                (&["C", "A", "B"], 2),
                (&["D"], 1),
            ],
        );
        let results = ElectionResults::from_election_data(&mut state);
        let outcome = (results.locked, results.winners);
        if !seen.contains(&outcome) {
            seen.push(outcome);
        }
    }
    assert_eq!(seen.len(), 1);
}

#[test]
fn results_do_not_depend_on_the_order_of_admission() {
    let one = ElectionResults::from_data(Data {
        candidates: names(&["A", "B", "C"]),
        ballots: vec![names(&["A", "B"]), names(&["C", "B", "A"]), names(&["B"]), names(&["A", "C"])],
    })
    .unwrap();
    let other = ElectionResults::from_data(Data {
        candidates: names(&["A", "B", "C"]),
        ballots: vec![names(&["A", "C"]), names(&["B"]), names(&["A", "B"]), names(&["C", "B", "A"])],
    })
    .unwrap();
    assert_eq!(one.locked, other.locked);
    assert_eq!(one.winners, other.winners);
}

#[test]
fn second_count_finds_no_ballots() {
    let mut state = election(&["A", "B"], &[(&["A", "B"], 2), (&["B"], 1)]);
    let first = ElectionResults::from_election_data(&mut state);
    assert_eq!(first.votes.len(), 3);
    assert_eq!(first.candidates, names(&["A", "B"]));
    assert_eq!(first.winners, names(&["A"]));
    let second = ElectionResults::from_election_data(&mut state);
    assert!(second.votes.is_empty());
    assert_eq!(second.candidates, names(&["A", "B"]));
    assert!(second.locked.is_empty());
    assert!(second.winners.is_empty());
    assert_eq!(state.add_ballot("W9YB".to_string(), names(&["B"])), Ok(()));
    let third = ElectionResults::from_election_data(&mut state);
    assert_eq!(third.votes, vec![names(&["B"])]);
    assert_eq!(third.winners, names(&["B"]));
}

#[test]
fn omitted_candidates_are_not_compared() {
    // Two ballots name A alone and one ranks B above A: B beats A by one
    // ballot to none, since naming A alone says nothing of B.
    let mut state = election(&["A", "B"], &[(&["A"], 2), (&["B", "A"], 1)]);
    let results = ElectionResults::from_election_data(&mut state);
    assert_eq!(results.locked, vec![pair("B", "A")]);
    assert_eq!(results.winners, names(&["B"]));
}

#[test]
fn candidates_without_a_mention_take_no_part() {
    let mut state = election(&["A", "B", "C", "D"], &[(&["C", "B"], 1)]);
    let results = ElectionResults::from_election_data(&mut state);
    assert_eq!(results.candidates, names(&["A", "B", "C", "D"]));
    assert_eq!(results.locked, vec![pair("C", "B")]);
    assert_eq!(results.winners, names(&["C"]));
}

#[test]
fn equal_margins_are_taken_in_the_order_of_the_names() {
    // A over B, B over C and C over A by one ballot each, and D below all.
    let results = ElectionResults::from_data(Data {
        candidates: names(&["D", "C", "B", "A"]),
        ballots: vec![
            names(&["A", "B", "C", "D"]),
            names(&["B", "C", "A", "D"]),
            names(&["C", "A", "B", "D"]),
        ],
    })
    .unwrap();
    assert_eq!(
        results.locked,
        vec![
            pair("A", "D"),
            pair("B", "D"),
            pair("C", "D"),
            pair("A", "B"),
            pair("B", "C"),
        ]
    );
    assert_eq!(results.winners, names(&["A"]));
    assert_eq!(results.candidates, names(&["D", "C", "B", "A"]));
}

#[test]
fn snapshot_with_a_stranger_is_refused() {
    let results = ElectionResults::from_data(Data {
        candidates: names(&["A", "B"]),
        ballots: vec![names(&["A", "B"]), names(&["B", "C"])],
    });
    assert_eq!(results.err(), Some(TallyError::InvalidCandidate));
}

#[test]
fn snapshot_with_a_repeated_candidate_is_refused() {
    let results = ElectionResults::from_data(Data {
        candidates: names(&["A", "B"]),
        ballots: vec![names(&["A", "B", "A"])],
    });
    assert_eq!(results.err(), Some(TallyError::InvalidBallot));
}

#[test]
fn stranger_is_reported_before_a_repeated_candidate() {
    let results = ElectionResults::from_data(Data {
        candidates: names(&["A", "B"]),
        ballots: vec![names(&["A", "A"]), names(&["C"])],
    });
    assert_eq!(results.err(), Some(TallyError::InvalidCandidate));
}

#[test]
fn contenders_are_collected_in_order() {
    let votes = vec![names(&["C", "A"]), names(&[]), names(&["B", "C"]), names(&["A"])];
    assert_eq!(collect_contenders(&votes), names(&["A", "B", "C"]));
    assert!(collect_contenders(&Vec::new()).is_empty());
}

#[test]
fn results_hold_no_voter() {
    let mut state = election(&["A", "B"], &[(&["A", "B"], 1), (&["B", "A"], 1), (&["A"], 1)]);
    let results = get_results(&mut state, "secret").unwrap();
    let shown = format!("{:?}", results);
    assert!(!shown.contains("KD9"));
    let mut votes = results.votes;
    votes.sort();
    assert_eq!(votes, vec![names(&["A"]), names(&["A", "B"]), names(&["B", "A"])]);
}
