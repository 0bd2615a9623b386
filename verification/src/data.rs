//! Ballots, and the two ways in which one is made: from a voter's call sign
//! and ranking, or from the fields of a submitted form.
use vstd::prelude::*;
use vstd::seq_lib::*;
use crate::lists::{has_repeat, views};
use crate::text::{
    is_callsign, is_callsign_text, make_ascii_uppercase, rank_key, read_rank_key, text_equal,
    upper_text,
};

verus! {

/// Why a ballot is refused.
#[derive(Clone, Copy, Debug, PartialEq, Eq, Structural)]
pub enum AdmissionError {
    /// The ranking names a candidate that is not on the roster.
    UnknownCandidate,
    /// The voter has a ballot in the box already.
    DuplicateBallot,
    /// A call sign is not four to six upper-case letters or digits.
    InvalidIdentity,
    /// The ranking names a candidate twice.
    DuplicateCandidateInRanking,
    /// The form gives the voter's call sign twice.
    DuplicateIdentity,
    /// A rank field of the form has no rank from 0 to 255 in its name.
    InvalidRank,
    /// The form does not give the voter's call sign.
    MissingIdentity,
}

/// The short text that names an error.
pub open spec fn message_of(e: AdmissionError) -> Seq<char> {
    match e {
        AdmissionError::UnknownCandidate => "invalid_candidate"@,
        AdmissionError::DuplicateBallot => "duplicate_ballot"@,
        AdmissionError::InvalidIdentity => "invalid callsign"@,
        AdmissionError::DuplicateCandidateInRanking => "multiple votes for same candidate"@,
        AdmissionError::DuplicateIdentity => "duplicate field `callsign`"@,
        AdmissionError::InvalidRank => "invalid key"@,
        AdmissionError::MissingIdentity => "missing field `callsign`"@,
    }
}

impl AdmissionError {
    /// A short text that names the error.
    pub fn message(&self) -> (text: &'static str)
        ensures
            text@ == message_of(*self),
    {
        match self {
            AdmissionError::UnknownCandidate => "invalid_candidate",
            AdmissionError::DuplicateBallot => "duplicate_ballot",
            AdmissionError::InvalidIdentity => "invalid callsign",
            AdmissionError::DuplicateCandidateInRanking => "multiple votes for same candidate",
            AdmissionError::DuplicateIdentity => "duplicate field `callsign`",
            AdmissionError::InvalidRank => "invalid key",
            AdmissionError::MissingIdentity => "missing field `callsign`",
        }
    }
}

/// A voter's ballot: the voter's call sign and the candidates in the order
/// of the voter's preference, the most preferred first.
#[derive(Debug)]
pub struct Ballot {
    pub callsign: String,
    pub ranking: Vec<String>,
}

/// What a ballot says.
pub struct BallotView {
    pub callsign: Seq<char>,
    pub ranking: Seq<Seq<char>>,
}

impl View for Ballot {
    type V = BallotView;

    open spec fn view(&self) -> BallotView {
        BallotView { callsign: self.callsign@, ranking: self.ranking.deep_view() }
    }
}

/// Picks the entries of a ranking that express a preference: those that are
/// not empty.
pub open spec fn is_filled() -> spec_fn(Seq<char>) -> bool {
    |entry: Seq<char>| entry.len() > 0
}

/// The ballot that a call sign and a ranking make. The call sign is put in
/// upper case and must then be four to six letters or digits. Empty entries
/// of the ranking express no preference and are dropped; of the others none
/// may occur twice.
pub open spec fn validated(callsign: Seq<char>, ranking: Seq<Seq<char>>) -> Result<
    BallotView,
    AdmissionError,
> {
    let entries = ranking.filter(is_filled());
    if !is_callsign(upper_text(callsign)) {
        Err(AdmissionError::InvalidIdentity)
    } else if !entries.no_duplicates() {
        Err(AdmissionError::DuplicateCandidateInRanking)
    } else {
        Ok(BallotView { callsign: upper_text(callsign), ranking: entries })
    }
}

/// What has been read of a form: the call sign, if it was given, and for
/// each rank from 0 to 255 the candidate that was last given for it.
pub struct FormState {
    pub callsign: Option<Seq<char>>,
    pub ranks: Seq<Option<Seq<char>>>,
}

/// Nothing read yet.
pub open spec fn blank_form() -> FormState {
    FormState { callsign: None, ranks: Seq::new(256, |k: int| None::<Seq<char>>) }
}

/// Reads one field. A field with an empty value is skipped, whatever its
/// key. The key "callsign" gives the voter: its value is put in upper case,
/// must then be a call sign, and may be given once. A key "rank" and a number
/// gives the candidate of that rank: its value is put in upper case and kept
/// as it then is, whatever it holds, and a later field replaces an earlier
/// one of the same rank. A field with another key is skipped.
pub open spec fn read_field(state: FormState, key: Seq<char>, value: Seq<char>) -> Result<
    FormState,
    AdmissionError,
> {
    if value.len() == 0 {
        Ok(state)
    } else if key == "callsign"@ {
        if !is_callsign(upper_text(value)) {
            Err(AdmissionError::InvalidIdentity)
        } else if state.callsign is Some {
            Err(AdmissionError::DuplicateIdentity)
        } else {
            Ok(FormState { callsign: Some(upper_text(value)), ranks: state.ranks })
        }
    } else {
        match rank_key(key) {
            None => Ok(state),
            Some(None) => Err(AdmissionError::InvalidRank),
            Some(Some(rank)) => Ok(
                FormState {
                    callsign: state.callsign,
                    ranks: state.ranks.update(rank as int, Some(upper_text(value))),
                },
            ),
        }
    }
}

/// The grammar of call signs binds the voter's call sign alone: a field that
/// gives the candidate of a rank is read whatever its value holds.
pub proof fn lemma_candidates_are_free(state: FormState, key: Seq<char>, value: Seq<char>)
    requires
        rank_key(key) matches Some(Some(_)),
    ensures
        read_field(state, key, value) is Ok,
        key != "callsign"@,
{
    reveal_strlit("callsign");
    assert(key[0] == 'r');
}

/// Reads the fields of a form in their order, up to the first that is
/// refused.
pub open spec fn read_fields(fields: Seq<(Seq<char>, Seq<char>)>) -> Result<FormState, AdmissionError>
    decreases fields.len(),
{
    if fields.len() == 0 {
        Ok(blank_form())
    } else {
        match read_fields(fields.drop_last()) {
            Err(e) => Err(e),
            Ok(state) => read_field(state, fields.last().0, fields.last().1),
        }
    }
}

/// The candidates that were given for some rank, by ascending rank.
pub open spec fn given_ranks(ranks: Seq<Option<Seq<char>>>) -> Seq<Seq<char>>
    decreases ranks.len(),
{
    if ranks.len() == 0 {
        Seq::empty()
    } else {
        match ranks.last() {
            Some(candidate) => given_ranks(ranks.drop_last()).push(candidate),
            None => given_ranks(ranks.drop_last()),
        }
    }
}

/// Whether the field gives the voter: its key is "callsign" and its value is
/// not empty.
pub open spec fn gives_voter(f: (Seq<char>, Seq<char>)) -> bool {
    f.1.len() > 0 && f.0 == "callsign"@
}

/// Whether the field gives the candidate of the rank `rank`.
pub open spec fn gives_rank(f: (Seq<char>, Seq<char>), rank: int) -> bool {
    f.1.len() > 0 && f.0 != "callsign"@ && rank_key(f.0) == Some(Some(rank as u8)) && 0 <= rank < 256
}

/// Whether the field gives a candidate, of whatever rank.
pub open spec fn gives_candidate(f: (Seq<char>, Seq<char>)) -> bool {
    f.1.len() > 0 && f.0 != "callsign"@ && rank_key(f.0) matches Some(Some(_))
}

/// Whether the field has a value for a rank, but no rank in its key.
pub open spec fn lacks_rank(f: (Seq<char>, Seq<char>)) -> bool {
    f.1.len() > 0 && f.0 != "callsign"@ && rank_key(f.0) == Some(None::<u8>)
}

/// Whether no field of the form is refused: every rank field with a value
/// has its rank, the voter is given at most once, and what is given for the
/// voter is a call sign once it is in upper case.
pub open spec fn readable(fields: Seq<(Seq<char>, Seq<char>)>) -> bool {
    &&& forall|k: int| 0 <= k < fields.len() ==> !lacks_rank(#[trigger] fields[k])
    &&& forall|k: int|
        0 <= k < fields.len() && gives_voter(#[trigger] fields[k]) ==> is_callsign(
            upper_text(fields[k].1),
        )
    &&& forall|i: int, j: int|
        0 <= i < j < fields.len() ==> !(gives_voter(#[trigger] fields[i]) && gives_voter(
            #[trigger] fields[j],
        ))
}

/// What reading the fields comes to. They are all read exactly if the form
/// is readable. The voter is then the one that was given, in upper case, and
/// each candidate is one that some field gave for its rank, in upper case.
pub proof fn lemma_read_fields(fields: Seq<(Seq<char>, Seq<char>)>)
    ensures
        read_fields(fields) is Ok <==> readable(fields),
        match read_fields(fields) {
            Ok(state) => {
                &&& state.ranks.len() == 256
                &&& forall|k: int|
                    0 <= k < fields.len() && gives_voter(#[trigger] fields[k]) ==> state.callsign
                        == Some(upper_text(fields[k].1))
                &&& state.callsign is Some ==> exists|k: int|
                    0 <= k < fields.len() && gives_voter(#[trigger] fields[k])
                &&& forall|r: int|
                    0 <= r < 256 && (#[trigger] state.ranks[r]) is Some ==> exists|k: int|
                        0 <= k < fields.len() && gives_rank(#[trigger] fields[k], r) && state.ranks[r]
                            == Some(upper_text(fields[k].1))
            },
            Err(_) => true,
        },
    decreases fields.len(),
{
    if fields.len() > 0 {
        let rest = fields.drop_last();
        let f = fields.last();
        let n = rest.len() as int;
        lemma_read_fields(rest);
        assert forall|k: int| 0 <= k < n implies rest[k] == fields[k] by {}
        assert(fields[n] == f);
        if readable(fields) {
            assert forall|k: int| 0 <= k < n implies !lacks_rank(#[trigger] rest[k]) by {
                assert(!lacks_rank(fields[k]));
            }
            assert forall|k: int| 0 <= k < n && gives_voter(#[trigger] rest[k]) implies is_callsign(
                upper_text(rest[k].1),
            ) by {
                assert(gives_voter(fields[k]));
            }
            assert forall|i: int, j: int| 0 <= i < j < n implies !(gives_voter(#[trigger] rest[i])
                && gives_voter(#[trigger] rest[j])) by {
                assert(!(gives_voter(fields[i]) && gives_voter(fields[j])));
            }
            assert(readable(rest));
        }
        match read_fields(rest) {
            Err(_) => {},
            Ok(before) => {
                assert(readable(rest));
                let step = read_field(before, f.0, f.1);
                assert(read_fields(fields) == step);
                if gives_voter(f) && before.callsign is Some {
                    let k = choose|k: int| 0 <= k < n && gives_voter(#[trigger] rest[k]);
                    assert(gives_voter(fields[k]) && gives_voter(fields[n]));
                }
                if readable(fields) {
                    assert(!lacks_rank(fields[n]));
                    if gives_voter(f) {
                        assert(is_callsign(upper_text(fields[n].1)));
                        if before.callsign is Some {
                            let k = choose|k: int| 0 <= k < n && gives_voter(#[trigger] rest[k]);
                            assert(!(gives_voter(fields[k]) && gives_voter(fields[n])));
                        }
                    }
                    assert(step is Ok);
                }
                match step {
                    Err(_) => {},
                    Ok(state) => {
                        assert forall|k: int| 0 <= k < fields.len() implies !lacks_rank(
                            #[trigger] fields[k],
                        ) by {
                            if k < n {
                                assert(!lacks_rank(rest[k]));
                            }
                        }
                        assert forall|k: int|
                            0 <= k < fields.len() && gives_voter(#[trigger] fields[k]) implies is_callsign(
                            upper_text(fields[k].1),
                        ) && state.callsign == Some(upper_text(fields[k].1)) by {
                            if k < n {
                                assert(gives_voter(rest[k]));
                            }
                        }
                        assert forall|i: int, j: int| 0 <= i < j < fields.len() implies !(gives_voter(
                            #[trigger] fields[i],
                        ) && gives_voter(#[trigger] fields[j])) by {
                            if gives_voter(fields[i]) && gives_voter(fields[j]) {
                                assert(gives_voter(rest[i]));
                                if j < n {
                                    assert(!(gives_voter(rest[i]) && gives_voter(rest[j])));
                                }
                            }
                        }
                        assert(readable(fields));
                        if state.callsign is Some {
                            if before.callsign is Some {
                                let k = choose|k: int| 0 <= k < n && gives_voter(#[trigger] rest[k]);
                                assert(gives_voter(fields[k]));
                            } else {
                                assert(gives_voter(fields[n]));
                            }
                        }
                        assert forall|r: int| 0 <= r < 256 && (#[trigger] state.ranks[r]) is Some implies exists|
                            k: int,
                        |
                            0 <= k < fields.len() && gives_rank(#[trigger] fields[k], r) && state.ranks[r]
                                == Some(upper_text(fields[k].1)) by {
                            if state.ranks[r] == before.ranks[r] {
                                let k = choose|k: int|
                                    0 <= k < n && gives_rank(#[trigger] rest[k], r) && before.ranks[r]
                                        == Some(upper_text(rest[k].1));
                                assert(gives_rank(fields[k], r));
                            } else {
                                assert(gives_rank(fields[n], r));
                            }
                        }
                    },
                }
            },
        }
    }
}

/// A form that gives the voter's call sign and, for each rank that it
/// names, a candidate of its own is accepted: the ballot has the call sign in
/// upper case. What the candidates are called does not matter.
pub proof fn lemma_form_accepted(fields: Seq<(Seq<char>, Seq<char>)>, voter: int)
    requires
        readable(fields),
        0 <= voter < fields.len(),
        gives_voter(fields[voter]),
        forall|i: int, j: int|
            0 <= i < fields.len() && 0 <= j < fields.len() && i != j && gives_candidate(
                #[trigger] fields[i],
            ) && gives_candidate(#[trigger] fields[j]) ==> upper_text(fields[i].1) != upper_text(
                fields[j].1,
            ),
    ensures
        match parse_form(fields) {
            Ok(ballot) => ballot.callsign == upper_text(fields[voter].1),
            Err(_) => false,
        },
{
    lemma_read_fields(fields);
    let state = read_fields(fields)->Ok_0;
    lemma_given_ranks(state.ranks);
    assert forall|i: int, j: int| 0 <= i < j < state.ranks.len() && state.ranks[i] is Some implies #[trigger] state.ranks[i]
        != #[trigger] state.ranks[j] by {
        if state.ranks[i] == state.ranks[j] {
            let a = choose|k: int|
                0 <= k < fields.len() && gives_rank(#[trigger] fields[k], i) && state.ranks[i] == Some(
                    upper_text(fields[k].1),
                );
            let b = choose|k: int|
                0 <= k < fields.len() && gives_rank(#[trigger] fields[k], j) && state.ranks[j] == Some(
                    upper_text(fields[k].1),
                );
            assert(a != b);
            assert(gives_candidate(fields[a]) && gives_candidate(fields[b]));
            assert(upper_text(fields[a].1) != upper_text(fields[b].1));
        }
    }
}

/// What the list of given candidates holds: a candidate is on it exactly if
/// it was given for some rank, and the list names a candidate twice exactly
/// if two ranks were given the same candidate.
pub proof fn lemma_given_ranks(ranks: Seq<Option<Seq<char>>>)
    ensures
        forall|c: Seq<char>|
            given_ranks(ranks).contains(c) <==> exists|k: int|
                0 <= k < ranks.len() && #[trigger] ranks[k] == Some(c),
        given_ranks(ranks).no_duplicates() <==> forall|i: int, j: int|
            0 <= i < j < ranks.len() && ranks[i] is Some ==> #[trigger] ranks[i] != #[trigger] ranks[j],
    decreases ranks.len(),
{
    let given = given_ranks(ranks);
    if ranks.len() > 0 {
        let rest = ranks.drop_last();
        let before = given_ranks(rest);
        let last = ranks.len() - 1;
        lemma_given_ranks(rest);
        assert forall|k: int| 0 <= k < rest.len() implies rest[k] == ranks[k] by {}
        assert forall|c: Seq<char>|
            given.contains(c) <==> exists|k: int| 0 <= k < ranks.len() && #[trigger] ranks[k] == Some(
                c,
            ) by {
            if given.contains(c) {
                let i = choose|i: int| 0 <= i < given.len() && given[i] == c;
                if i < before.len() {
                    assert(before[i] == c);
                    assert(before.contains(c));
                    let k = choose|k: int| 0 <= k < rest.len() && #[trigger] rest[k] == Some(c);
                    assert(ranks[k] == Some(c));
                } else {
                    assert(ranks[last] == Some(c));
                }
            }
            if exists|k: int| 0 <= k < ranks.len() && #[trigger] ranks[k] == Some(c) {
                let k = choose|k: int| 0 <= k < ranks.len() && #[trigger] ranks[k] == Some(c);
                if k < last {
                    assert(rest[k] == Some(c));
                    assert(before.contains(c));
                    let i = choose|i: int| 0 <= i < before.len() && before[i] == c;
                    assert(given[i] == c);
                } else {
                    assert(given[given.len() - 1] == c);
                }
            }
        }
        let apart = forall|i: int, j: int|
            0 <= i < j < ranks.len() && ranks[i] is Some ==> #[trigger] ranks[i] != #[trigger] ranks[j];
        if given.no_duplicates() {
            assert forall|i: int, j: int| 0 <= i < j < ranks.len() && ranks[i] is Some implies #[trigger] ranks[i]
                != #[trigger] ranks[j] by {
                if ranks[i] == ranks[j] {
                    let c = ranks[i]->Some_0;
                    if j < last {
                        assert(before =~= given.take(before.len() as int));
                        assert(rest[i] != rest[j]);
                    } else {
                        assert(rest[i] == Some(c));
                        assert(before.contains(c));
                        let x = choose|x: int| 0 <= x < before.len() && before[x] == c;
                        assert(given[x] == c && given[given.len() - 1] == c);
                    }
                }
            }
        }
        if apart {
            assert forall|i: int, j: int| 0 <= i < j < rest.len() && rest[i] is Some implies #[trigger] rest[i]
                != #[trigger] rest[j] by {
                assert(ranks[i] != ranks[j]);
            }
            assert(before.no_duplicates());
            if ranks[last] is Some {
                let c = ranks[last]->Some_0;
                if before.contains(c) {
                    let k = choose|k: int| 0 <= k < rest.len() && #[trigger] rest[k] == Some(c);
                    assert(ranks[k] != ranks[last]);
                }
                assert(given =~= before.push(c));
            }
        }
    }
}

/// The ballot that a form makes once its fields are read. The candidates
/// are taken by ascending rank, whatever ranks were left out, and none of
/// them may occur twice; then the call sign must have been given.
pub open spec fn finish_form(state: FormState) -> Result<BallotView, AdmissionError> {
    if !given_ranks(state.ranks).no_duplicates() {
        Err(AdmissionError::DuplicateCandidateInRanking)
    } else {
        match state.callsign {
            None => Err(AdmissionError::MissingIdentity),
            Some(callsign) => Ok(BallotView { callsign, ranking: given_ranks(state.ranks) }),
        }
    }
}

/// The ballot that the fields of a form make: they are read in their order,
/// up to the first that is refused, and then the form is finished.
pub open spec fn parse_form(fields: Seq<(Seq<char>, Seq<char>)>) -> Result<BallotView, AdmissionError> {
    match read_fields(fields) {
        Err(e) => Err(e),
        Ok(state) => finish_form(state),
    }
}

/// The keys and values of a form's fields.
pub open spec fn field_views(fields: Seq<(String, String)>) -> Seq<(Seq<char>, Seq<char>)> {
    fields.map_values(|f: (String, String)| (f.0@, f.1@))
}

/// What a text that may be missing holds.
pub open spec fn optional_text(o: Option<String>) -> Option<Seq<char>> {
    match o {
        Some(s) => Some(s@),
        None => None,
    }
}

/// What a list of texts that may be missing holds.
pub open spec fn slot_views(slots: Seq<Option<String>>) -> Seq<Option<Seq<char>>> {
    slots.map_values(|o: Option<String>| optional_text(o))
}

/// A slot for each rank from 0 to 255, all empty.
fn empty_slots() -> (slots: Vec<Option<String>>)
    ensures
        slots@.len() == 256,
        slot_views(slots@) == blank_form().ranks,
{
    let mut slots: Vec<Option<String>> = Vec::new();
    let mut k: usize = 0;
    while k < 256
        invariant
            k <= 256,
            slots@.len() == k,
            forall|i: int| 0 <= i < k ==> slots@[i] is None,
        decreases 256 - k,
    {
        slots.push(None);
        k = k + 1;
    }
    assert(slot_views(slots@) =~= blank_form().ranks);
    slots
}

/// The candidates in the slots that are filled, by ascending rank.
fn collect_ranks(slots: &Vec<Option<String>>) -> (ranking: Vec<String>)
    ensures
        ranking.deep_view() == given_ranks(slot_views(slots@)),
{
    let ghost views = slot_views(slots@);
    let mut ranking: Vec<String> = Vec::new();
    let mut k: usize = 0;
    assert(views.take(0) =~= Seq::<Option<Seq<char>>>::empty());
    assert(ranking.deep_view() =~= Seq::<Seq<char>>::empty());
    while k < slots.len()
        invariant
            k <= slots@.len(),
            views == slot_views(slots@),
            ranking.deep_view() == given_ranks(views.take(k as int)),
        decreases slots@.len() - k,
    {
        let ghost before = ranking.deep_view();
        proof {
            assert(views.take(k as int + 1).drop_last() =~= views.take(k as int));
            assert(views.take(k as int + 1).last() == optional_text(slots@[k as int]));
        }
        match &slots[k] {
            Some(candidate) => {
                ranking.push(candidate.clone());
                assert(ranking.deep_view() =~= before.push(candidate@));
            },
            None => {},
        }
        k = k + 1;
    }
    assert(views.take(k as int) =~= views);
    ranking
}

impl Ballot {
    /// Makes a ballot of a voter's call sign and ranking: see [`validated`].
    pub fn validate(callsign: String, ranking: Vec<String>) -> (r: Result<Ballot, AdmissionError>)
        ensures
            match r {
                Ok(ballot) => validated(callsign@, ranking.deep_view()) == Ok::<
                    BallotView,
                    AdmissionError,
                >(ballot@),
                Err(e) => validated(callsign@, ranking.deep_view()) == Err::<
                    BallotView,
                    AdmissionError,
                >(e),
            },
    {
        let mut callsign = callsign;
        make_ascii_uppercase(&mut callsign);
        if !is_callsign_text(callsign.as_str()) {
            return Err(AdmissionError::InvalidIdentity);
        }
        let ghost given = ranking.deep_view();
        let mut entries: Vec<String> = Vec::new();
        let mut k: usize = 0;
        proof {
            reveal(Seq::filter);
            assert(given.take(0) =~= Seq::<Seq<char>>::empty());
            assert(entries.deep_view() =~= given.take(0).filter(is_filled()));
        }
        while k < ranking.len()
            invariant
                k <= ranking@.len(),
                given == ranking.deep_view(),
                entries.deep_view() == given.take(k as int).filter(is_filled()),
            decreases ranking@.len() - k,
        {
            let ghost before = entries.deep_view();
            proof {
                assert(given.take(k as int + 1) =~= given.take(k as int).push(ranking@[k as int]@));
                given.take(k as int).lemma_filter_push(ranking@[k as int]@, is_filled());
            }
            if !ranking[k].as_str().is_empty() {
                entries.push(ranking[k].clone());
                assert(entries.deep_view() =~= before.push(ranking@[k as int]@));
            }
            k = k + 1;
        }
        assert(given.take(k as int) =~= given);
        assert(views(entries@) =~= entries.deep_view());
        if has_repeat(&entries) {
            return Err(AdmissionError::DuplicateCandidateInRanking);
        }
        Ok(Ballot { callsign, ranking: entries })
    }

    /// Makes a ballot of the fields of a submitted form, each a key and a
    /// value: see [`parse_form`].
    pub fn from_fields(fields: &Vec<(String, String)>) -> (r: Result<Ballot, AdmissionError>)
        ensures
            match r {
                Ok(ballot) => parse_form(field_views(fields@)) == Ok::<BallotView, AdmissionError>(
                    ballot@,
                ),
                Err(e) => parse_form(field_views(fields@)) == Err::<BallotView, AdmissionError>(e),
            },
    {
        let ghost views = field_views(fields@);
        let mut reader = FormReader::new();
        let mut k: usize = 0;
        assert(views.take(0) =~= Seq::<(Seq<char>, Seq<char>)>::empty());
        while k < fields.len()
            invariant
                k <= fields@.len(),
                views == field_views(fields@),
                reader.wf(),
                read_fields(views.take(k as int)) == Ok::<FormState, AdmissionError>(reader@),
            decreases fields@.len() - k,
        {
            proof {
                let longer = views.take(k as int + 1);
                assert(longer.drop_last() =~= views.take(k as int));
                assert(longer.last() == (fields@[k as int].0@, fields@[k as int].1@));
            }
            match reader.read(fields[k].0.as_str(), fields[k].1.clone()) {
                Err(e) => {
                    proof {
                        lemma_read_fields_stays_refused(views, k as int + 1);
                    }
                    return Err(e);
                },
                Ok(()) => {},
            }
            k = k + 1;
        }
        assert(views.take(k as int) =~= views);
        reader.finish()
    }
}

/// A form that is being read, field by field.
pub struct FormReader {
    callsign: Option<String>,
    slots: Vec<Option<String>>,
}

impl View for FormReader {
    type V = FormState;

    closed spec fn view(&self) -> FormState {
        FormState { callsign: optional_text(self.callsign), ranks: slot_views(self.slots@) }
    }
}

impl FormReader {
    /// The reader's invariant: it has a place for each rank from 0 to 255.
    pub closed spec fn wf(&self) -> bool {
        self.slots@.len() == 256
    }

    /// A reader that has read nothing yet.
    pub fn new() -> (reader: FormReader)
        ensures
            reader.wf(),
            reader@ == blank_form(),
    {
        FormReader { callsign: None, slots: empty_slots() }
    }

    /// Reads one field, or refuses it and stays as it was: see
    /// [`read_field`].
    pub fn read(&mut self, key: &str, value: String) -> (r: Result<(), AdmissionError>)
        requires
            old(self).wf(),
        ensures
            final(self).wf(),
            match read_field(old(self)@, key@, value@) {
                Ok(state) => r is Ok && final(self)@ == state,
                Err(e) => r == Err::<(), AdmissionError>(e) && final(self)@ == old(self)@,
            },
    {
        if value.as_str().is_empty() {
            return Ok(());
        }
        let mut value = value;
        make_ascii_uppercase(&mut value);
        if text_equal(key, "callsign") {
            if !is_callsign_text(value.as_str()) {
                return Err(AdmissionError::InvalidIdentity);
            }
            if self.callsign.is_some() {
                return Err(AdmissionError::DuplicateIdentity);
            }
            self.callsign = Some(value);
            Ok(())
        } else {
            match read_rank_key(key) {
                None => Ok(()),
                Some(None) => Err(AdmissionError::InvalidRank),
                Some(Some(rank)) => {
                    let ghost before = slot_views(self.slots@);
                    let ghost held = value@;
                    self.slots[rank as usize] = Some(value);
                    assert(slot_views(self.slots@) =~= before.update(rank as int, Some(held)));
                    Ok(())
                },
            }
        }
    }

    /// Finishes the form and gives its ballot: see [`finish_form`].
    pub fn finish(self) -> (r: Result<Ballot, AdmissionError>)
        requires
            self.wf(),
        ensures
            match r {
                Ok(ballot) => finish_form(self@) == Ok::<BallotView, AdmissionError>(ballot@),
                Err(e) => finish_form(self@) == Err::<BallotView, AdmissionError>(e),
            },
    {
        let ranking = collect_ranks(&self.slots);
        assert(views(ranking@) =~= ranking.deep_view());
        if has_repeat(&ranking) {
            return Err(AdmissionError::DuplicateCandidateInRanking);
        }
        match self.callsign {
            None => Err(AdmissionError::MissingIdentity),
            Some(callsign) => Ok(Ballot { callsign, ranking }),
        }
    }
}

/// Once a field is refused, the form is refused for that reason, whatever
/// follows.
pub proof fn lemma_read_fields_stays_refused(fields: Seq<(Seq<char>, Seq<char>)>, k: int)
    requires
        0 <= k <= fields.len(),
        read_fields(fields.take(k)) is Err,
    ensures
        read_fields(fields) == read_fields(fields.take(k)),
    decreases fields.len(),
{
    if k == fields.len() {
        assert(fields.take(k) =~= fields);
    } else {
        assert(fields.drop_last().take(k) =~= fields.take(k));
        lemma_read_fields_stays_refused(fields.drop_last(), k);
    }
}

} // verus!
