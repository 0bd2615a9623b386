use ballot_box::data::{AdmissionError, Ballot, FormReader};

fn field(key: &str, value: &str) -> (String, String) {
    (key.to_string(), value.to_string())
}

fn names(list: &[&str]) -> Vec<String> {
    list.iter().map(|s| s.to_string()).collect()
}

#[test]
fn validate_puts_the_call_sign_in_upper_case() {
    let ballot = Ballot::validate("w9yb".to_string(), names(&["A", "B"])).unwrap();
    assert_eq!(ballot.callsign, "W9YB");
    assert_eq!(ballot.ranking, names(&["A", "B"]));
}

#[test]
fn validate_drops_empty_entries() {
    let ballot = Ballot::validate("W9YB".to_string(), names(&["", "B", "", "A", ""])).unwrap();
    assert_eq!(ballot.ranking, names(&["B", "A"]));
}

#[test]
fn validate_accepts_an_empty_ranking() {
    let ballot = Ballot::validate("KD9ABC".to_string(), Vec::new()).unwrap();
    assert_eq!(ballot.callsign, "KD9ABC");
    assert!(ballot.ranking.is_empty());
}

#[test]
fn validate_refuses_a_short_call_sign() {
    assert_eq!(
        Ballot::validate("W9Y".to_string(), names(&["A"])).err(),
        Some(AdmissionError::InvalidIdentity)
    );
}

#[test]
fn validate_refuses_a_long_call_sign() {
    assert_eq!(
        Ballot::validate("W9YBABC".to_string(), names(&["A"])).err(),
        Some(AdmissionError::InvalidIdentity)
    );
}

#[test]
fn validate_accepts_four_and_six_characters() {
    assert!(Ballot::validate("W9YB".to_string(), Vec::new()).is_ok());
    assert!(Ballot::validate("W9YBAB".to_string(), Vec::new()).is_ok());
}

#[test]
fn validate_refuses_other_characters() {
    assert_eq!(
        Ballot::validate("W9-YB".to_string(), Vec::new()).err(),
        Some(AdmissionError::InvalidIdentity)
    );
    assert_eq!(
        Ballot::validate("W9YÉ".to_string(), Vec::new()).err(),
        Some(AdmissionError::InvalidIdentity)
    );
    assert_eq!(
        Ballot::validate("".to_string(), Vec::new()).err(),
        Some(AdmissionError::InvalidIdentity)
    );
}

#[test]
fn validate_refuses_a_repeated_candidate() {
    assert_eq!(
        Ballot::validate("W9YB".to_string(), names(&["A", "B", "A"])).err(),
        Some(AdmissionError::DuplicateCandidateInRanking)
    );
}

#[test]
fn validate_reports_the_call_sign_before_the_ranking() {
    assert_eq!(
        Ballot::validate("no".to_string(), names(&["A", "A"])).err(),
        Some(AdmissionError::InvalidIdentity)
    );
}

#[test]
fn form_gives_the_ranking_by_rank() {
    let fields = vec![
        field("rank3", "kd9ccc"),
        field("callsign", "w9yb"),
        field("rank1", "KD9AAA"),
        field("rank2", "kd9bbb"),
    ];
    let ballot = Ballot::from_fields(&fields).unwrap();
    assert_eq!(ballot.callsign, "W9YB");
    assert_eq!(ballot.ranking, names(&["KD9AAA", "KD9BBB", "KD9CCC"]));
}

#[test]
fn form_skips_empty_values_and_closes_the_gaps() {
    let fields = vec![
        field("callsign", "W9YB"),
        field("rank1", ""),
        field("rank2", "KD9BBB"),
        field("rank3", ""),
        field("rank7", "KD9AAA"),
    ];
    let ballot = Ballot::from_fields(&fields).unwrap();
    assert_eq!(ballot.ranking, names(&["KD9BBB", "KD9AAA"]));
}

#[test]
fn form_takes_the_last_value_of_a_rank() {
    let fields = vec![
        field("callsign", "W9YB"),
        field("rank1", "KD9AAA"),
        field("rank01", "KD9BBB"),
        field("rank+1", "KD9CCC"),
    ];
    let ballot = Ballot::from_fields(&fields).unwrap();
    assert_eq!(ballot.ranking, names(&["KD9CCC"]));
}

#[test]
fn form_accepts_the_ranks_from_0_to_255() {
    let fields = vec![
        field("callsign", "W9YB"),
        field("rank255", "KD9BBB"),
        field("rank0", "KD9AAA"),
    ];
    let ballot = Ballot::from_fields(&fields).unwrap();
    assert_eq!(ballot.ranking, names(&["KD9AAA", "KD9BBB"]));
}

#[test]
fn form_refuses_a_rank_above_255() {
    let fields = vec![field("callsign", "W9YB"), field("rank256", "KD9AAA")];
    assert_eq!(Ballot::from_fields(&fields).err(), Some(AdmissionError::InvalidRank));
}

#[test]
fn form_refuses_a_rank_that_is_no_number() {
    for key in ["rank", "rank+", "rank-1", "rank1a", "rank 1", "rankone", "rank1_0"] {
        let fields = vec![field("callsign", "W9YB"), field(key, "KD9AAA")];
        assert_eq!(Ballot::from_fields(&fields).err(), Some(AdmissionError::InvalidRank));
    }
}

#[test]
fn form_skips_a_bad_rank_key_with_an_empty_value() {
    let fields = vec![field("callsign", "W9YB"), field("rankone", "")];
    let ballot = Ballot::from_fields(&fields).unwrap();
    assert!(ballot.ranking.is_empty());
}

#[test]
fn form_skips_other_keys() {
    let fields = vec![field("callsign", "W9YB"), field("note", "KD9AAA"), field("Rank1", "KD9BBB")];
    let ballot = Ballot::from_fields(&fields).unwrap();
    assert!(ballot.ranking.is_empty());
}

#[test]
fn form_puts_the_grammar_on_the_call_sign_alone() {
    let fields = vec![
        field("callsign", "W9YB"),
        field("rank1", "A"),
        field("rank2", "B"),
        field("rank3", "C"),
    ];
    let ballot = Ballot::from_fields(&fields).unwrap();
    assert_eq!(ballot.callsign, "W9YB");
    assert_eq!(ballot.ranking, names(&["A", "B", "C"]));
    let fields = vec![field("callsign", "W9YB"), field("rank1", "a rather long name")];
    let ballot = Ballot::from_fields(&fields).unwrap();
    assert_eq!(ballot.ranking, names(&["A RATHER LONG NAME"]));
}

#[test]
fn form_refuses_a_call_sign_that_is_none() {
    for bad in ["W9Y", "W9YBABC", "W9-YB", "W9YÉ", "hello world"] {
        let fields = vec![field("callsign", bad), field("rank1", "A")];
        assert_eq!(Ballot::from_fields(&fields).err(), Some(AdmissionError::InvalidIdentity));
    }
    for good in ["W9YB", "w9yb", "kd9abc", "0000"] {
        let fields = vec![field("callsign", good), field("rank1", "A")];
        assert_eq!(Ballot::from_fields(&fields).unwrap().callsign, good.to_ascii_uppercase());
    }
}

#[test]
fn form_puts_candidates_in_upper_case() {
    let fields = vec![field("callsign", "W9YB"), field("rank2", "kd9bbb"), field("rank1", "émile")];
    let ballot = Ballot::from_fields(&fields).unwrap();
    assert_eq!(ballot.ranking, names(&["éMILE", "KD9BBB"]));
}

#[test]
fn form_does_not_look_at_the_value_of_another_key() {
    let fields = vec![field("callsign", "W9YB"), field("note", "hello world")];
    let ballot = Ballot::from_fields(&fields).unwrap();
    assert_eq!(ballot.callsign, "W9YB");
    assert!(ballot.ranking.is_empty());
}

#[test]
fn form_is_read_field_by_field() {
    let mut reader = FormReader::new();
    assert_eq!(reader.read("rank2", "b".to_string()), Ok(()));
    assert_eq!(reader.read("rankx", "c".to_string()), Err(AdmissionError::InvalidRank));
    assert_eq!(reader.read("callsign", "no".to_string()), Err(AdmissionError::InvalidIdentity));
    assert_eq!(reader.read("callsign", "w9yb".to_string()), Ok(()));
    assert_eq!(reader.read("callsign", "w9ya".to_string()), Err(AdmissionError::DuplicateIdentity));
    assert_eq!(reader.read("callsign", "".to_string()), Ok(()));
    assert_eq!(reader.read("rank1", "a".to_string()), Ok(()));
    assert_eq!(reader.read("rank2", "".to_string()), Ok(()));
    let ballot = reader.finish().unwrap();
    assert_eq!(ballot.callsign, "W9YB");
    assert_eq!(ballot.ranking, names(&["A", "B"]));
}

#[test]
fn form_without_fields_has_no_call_sign() {
    assert_eq!(FormReader::new().finish().err(), Some(AdmissionError::MissingIdentity));
}

#[test]
fn form_refuses_a_second_call_sign() {
    let fields = vec![field("callsign", "W9YB"), field("callsign", "W9YB")];
    assert_eq!(Ballot::from_fields(&fields).err(), Some(AdmissionError::DuplicateIdentity));
}

#[test]
fn form_refuses_a_repeated_candidate() {
    let fields = vec![
        field("callsign", "W9YB"),
        field("rank1", "KD9AAA"),
        field("rank2", "kd9aaa"),
    ];
    assert_eq!(
        Ballot::from_fields(&fields).err(),
        Some(AdmissionError::DuplicateCandidateInRanking)
    );
}

#[test]
fn form_needs_the_call_sign() {
    let fields = vec![field("rank1", "KD9AAA")];
    assert_eq!(Ballot::from_fields(&fields).err(), Some(AdmissionError::MissingIdentity));
    assert_eq!(Ballot::from_fields(&Vec::new()).err(), Some(AdmissionError::MissingIdentity));
}

#[test]
fn form_reports_a_repeated_candidate_before_a_missing_call_sign() {
    let fields = vec![field("rank1", "KD9AAA"), field("rank2", "KD9AAA")];
    assert_eq!(
        Ballot::from_fields(&fields).err(),
        Some(AdmissionError::DuplicateCandidateInRanking)
    );
}

#[test]
fn form_reports_the_first_field_that_is_refused() {
    let fields = vec![field("rankx", "KD9AAA"), field("callsign", "no")];
    assert_eq!(Ballot::from_fields(&fields).err(), Some(AdmissionError::InvalidRank));
    let fields = vec![field("callsign", "no"), field("rankx", "KD9AAA")];
    assert_eq!(Ballot::from_fields(&fields).err(), Some(AdmissionError::InvalidIdentity));
}

#[test]
fn errors_have_their_messages() {
    assert_eq!(AdmissionError::UnknownCandidate.message(), "invalid_candidate");
    assert_eq!(AdmissionError::DuplicateBallot.message(), "duplicate_ballot");
    assert_eq!(AdmissionError::InvalidIdentity.message(), "invalid callsign");
    assert_eq!(
        AdmissionError::DuplicateCandidateInRanking.message(),
        "multiple votes for same candidate"
    );
    assert_eq!(AdmissionError::DuplicateIdentity.message(), "duplicate field `callsign`");
    assert_eq!(AdmissionError::InvalidRank.message(), "invalid key");
    assert_eq!(AdmissionError::MissingIdentity.message(), "missing field `callsign`");
}
