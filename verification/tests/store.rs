use ballot_box::admin::{check_ballots, check_candidates, get_results, set_candidates};
use ballot_box::ballot::{ballot_submission, error_text};
use ballot_box::data::{AdmissionError, Ballot};
use ballot_box::state::ApplicationState;

fn names(list: &[&str]) -> Vec<String> {
    list.iter().map(|s| s.to_string()).collect()
}

fn state_with(roster: &[&str]) -> ApplicationState {
    let mut state = ApplicationState::new("secret".to_string());
    state.set_candidates(names(roster));
    state
}

#[test]
fn new_box_is_empty() {
    let state = ApplicationState::new("secret".to_string());
    assert!(state.list_candidates().is_empty());
    assert!(state.list_ballots().is_empty());
}

#[test]
fn key_is_checked() {
    let state = ApplicationState::new("secret".to_string());
    assert!(state.check_key("secret"));
    assert!(!state.check_key("Secret"));
    assert!(!state.check_key("secre"));
    assert!(!state.check_key(""));
}

#[test]
fn roster_is_listed_in_order_without_repeats() {
    let state = state_with(&["C", "A", "B", "A", "AB", ""]);
    assert_eq!(state.list_candidates(), names(&["", "A", "AB", "B", "C"]));
}

#[test]
fn second_ballot_of_a_voter_is_refused() {
    let mut state = state_with(&["A", "B", "C"]);
    assert_eq!(state.add_ballot("W9YB".to_string(), names(&["A", "B"])), Ok(()));
    assert_eq!(
        state.add_ballot("W9YB".to_string(), names(&["C", "B"])),
        Err(AdmissionError::DuplicateBallot)
    );
    assert_eq!(state.list_ballots(), names(&["W9YB"]));
    let data = state.take_data();
    assert_eq!(data.ballots, vec![names(&["A", "B"])]);
}

#[test]
fn second_ballot_in_other_case_is_refused() {
    let mut state = state_with(&["A", "B", "C"]);
    assert_eq!(state.add_ballot("w9yb".to_string(), names(&["A"])), Ok(()));
    assert_eq!(
        state.add_ballot("W9yB".to_string(), names(&["B"])),
        Err(AdmissionError::DuplicateBallot)
    );
    assert_eq!(state.list_ballots(), names(&["W9YB"]));
}

#[test]
fn ranking_with_a_stranger_is_refused_whole() {
    let mut state = state_with(&["A", "B", "C"]);
    assert_eq!(
        state.add_ballot("W9YB".to_string(), names(&["A", "B", "D"])),
        Err(AdmissionError::UnknownCandidate)
    );
    assert!(state.list_ballots().is_empty());
    assert!(state.take_data().ballots.is_empty());
}

#[test]
fn admission_reports_errors_in_their_order() {
    let mut state = state_with(&["A", "B"]);
    assert_eq!(
        state.add_ballot("bad".to_string(), names(&["X", "X"])),
        Err(AdmissionError::InvalidIdentity)
    );
    assert_eq!(
        state.add_ballot("W9YB".to_string(), names(&["X", "X"])),
        Err(AdmissionError::DuplicateCandidateInRanking)
    );
    assert_eq!(state.add_ballot("W9YB".to_string(), names(&["A"])), Ok(()));
    assert_eq!(
        state.add_ballot("W9YB".to_string(), names(&["X"])),
        Err(AdmissionError::UnknownCandidate)
    );
    assert_eq!(state.list_ballots(), names(&["W9YB"]));
}

#[test]
fn empty_entries_are_no_candidates() {
    let mut state = state_with(&["A", "B"]);
    assert_eq!(state.add_ballot("W9YB".to_string(), names(&["", "B", ""])), Ok(()));
    assert_eq!(state.take_data().ballots, vec![names(&["B"])]);
}

#[test]
fn voters_are_listed_in_order() {
    let mut state = state_with(&["A", "B"]);
    for voter in ["W9YB", "KD9ZZZ", "AA1A", "W9YA", "N0CALL"] {
        assert_eq!(state.add_ballot(voter.to_string(), names(&["A"])), Ok(()));
    }
    assert_eq!(state.list_ballots(), names(&["AA1A", "KD9ZZZ", "N0CALL", "W9YA", "W9YB"]));
}

#[test]
fn new_roster_clears_the_ballots() {
    let mut state = state_with(&["A", "B"]);
    assert_eq!(state.add_ballot("W9YB".to_string(), names(&["A", "B"])), Ok(()));
    state.set_candidates(names(&["X", "Y"]));
    assert!(state.list_ballots().is_empty());
    assert_eq!(state.list_candidates(), names(&["X", "Y"]));
    assert!(state.take_data().ballots.is_empty());
    assert_eq!(state.add_ballot("W9YB".to_string(), names(&["Y"])), Ok(()));
    assert_eq!(
        state.add_ballot("KD9AAA".to_string(), names(&["A"])),
        Err(AdmissionError::UnknownCandidate)
    );
}

#[test]
fn snapshot_empties_the_box_and_keeps_the_roster() {
    let mut state = state_with(&["A", "B"]);
    assert_eq!(state.add_ballot("W9YB".to_string(), names(&["A", "B"])), Ok(()));
    assert_eq!(state.add_ballot("W9YA".to_string(), names(&["B"])), Ok(()));
    let first = state.take_data();
    assert_eq!(first.candidates, names(&["A", "B"]));
    assert_eq!(first.ballots.len(), 2);
    let second = state.take_data();
    assert_eq!(second.candidates, names(&["A", "B"]));
    assert!(second.ballots.is_empty());
    assert!(state.list_ballots().is_empty());
    assert_eq!(state.list_candidates(), names(&["A", "B"]));
    assert_eq!(state.add_ballot("W9YB".to_string(), names(&["B"])), Ok(()));
    assert_eq!(state.take_data().ballots, vec![names(&["B"])]);
}

#[test]
fn snapshot_holds_every_ranking_once() {
    let mut state = state_with(&["A", "B", "C"]);
    let rankings = [
        names(&["A", "B", "C"]),
        names(&["B"]),
        names(&["C", "A"]),
        names(&[]),
        names(&["B", "A"]),
    ];
    for (n, ranking) in rankings.iter().enumerate() {
        assert_eq!(state.add_ballot(format!("KD9AA{}", n), ranking.clone()), Ok(()));
    }
    let mut taken = state.take_data().ballots;
    let mut given = rankings.to_vec();
    taken.sort();
    given.sort();
    assert_eq!(taken, given);
}

#[test]
fn snapshot_order_is_shuffled() {
    let mut orders: Vec<Vec<Vec<String>>> = Vec::new();
    for _ in 0..40 {
        let mut state = state_with(&["A", "B", "C", "D", "E", "F", "G", "H"]);
        for (n, c) in ["A", "B", "C", "D", "E", "F", "G", "H"].iter().enumerate() {
            assert_eq!(state.add_ballot(format!("KD9AA{}", n), names(&[c])), Ok(()));
        }
        let order = state.take_data().ballots;
        if !orders.contains(&order) {
            orders.push(order);
        }
    }
    assert!(orders.len() > 1);
}

#[test]
fn officers_need_the_key() {
    let mut state = state_with(&["A", "B"]);
    assert_eq!(state.add_ballot("W9YB".to_string(), names(&["A"])), Ok(()));
    assert_eq!(check_ballots(&state, "wrong"), None);
    assert_eq!(check_candidates(&state, "wrong"), None);
    assert!(!set_candidates(&mut state, "wrong", "X,Y"));
    assert!(get_results(&mut state, "wrong").is_none());
    assert_eq!(check_ballots(&state, "secret"), Some(names(&["W9YB"])));
    assert_eq!(check_candidates(&state, "secret"), Some(names(&["A", "B"])));
}

#[test]
fn officers_replace_the_roster() {
    let mut state = state_with(&["A", "B"]);
    assert_eq!(state.add_ballot("W9YB".to_string(), names(&["A"])), Ok(()));
    assert!(set_candidates(&mut state, "secret", "KD9CCC,KD9AAA,KD9BBB,KD9AAA"));
    assert_eq!(check_candidates(&state, "secret"), Some(names(&["KD9AAA", "KD9BBB", "KD9CCC"])));
    assert_eq!(check_ballots(&state, "secret"), Some(Vec::new()));
}

#[test]
fn empty_list_of_candidates_is_one_empty_name() {
    let mut state = state_with(&["A"]);
    assert!(set_candidates(&mut state, "secret", ""));
    assert_eq!(check_candidates(&state, "secret"), Some(names(&[""])));
}

#[test]
fn submission_sends_the_voter_on() {
    let mut state = state_with(&["KD9AAA", "KD9BBB"]);
    let ballot = Ballot::validate("w9yb".to_string(), names(&["KD9AAA"])).unwrap();
    assert_eq!(ballot_submission(&mut state, ballot), "/done");
    let ballot = Ballot::validate("W9YB".to_string(), names(&["KD9BBB"])).unwrap();
    assert_eq!(ballot_submission(&mut state, ballot), "/error?error=duplicate_ballot");
    let ballot = Ballot::validate("W9YA".to_string(), names(&["KD9CCC"])).unwrap();
    assert_eq!(ballot_submission(&mut state, ballot), "/error?error=invalid_candidate");
    assert_eq!(state.list_ballots(), names(&["W9YB"]));
}

#[test]
fn error_page_has_a_text() {
    assert_eq!(error_text(Some("duplicate_ballot".to_string())), "duplicate_ballot");
    assert_eq!(error_text(None), "No additional information.");
}
