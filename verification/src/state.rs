//! The ballot box: the roster of candidates and the ballots admitted under
//! it, one per voter. Whoever holds the box exclusively works on it alone, so
//! one admission, replacement or snapshot is over before the next begins.
use vstd::prelude::*;
use vstd::seq_lib::*;
use crate::data::{is_filled, validated, AdmissionError, Ballot, BallotView};
use crate::names::{
    ascending, clone_names, find_name, insert_name, lemma_ascending_distinct, sorted_names,
};
use crate::text::{is_callsign, text_equal, upper_text};

verus! {

/// What a ballot box holds: the roster, and each voter's ranking.
pub struct Election {
    pub roster: Set<Seq<char>>,
    pub ballots: Map<Seq<char>, Seq<Seq<char>>>,
}

/// Whether every candidate of `ranking` is on the roster.
pub open spec fn on_roster(roster: Set<Seq<char>>, ranking: Seq<Seq<char>>) -> bool {
    forall|j: int| 0 <= j < ranking.len() ==> roster.contains(#[trigger] ranking[j])
}

/// What becomes of the box when a voter hands in a ranking. The ballot must
/// be valid (see [`validated`]), each of its candidates must be on the
/// roster, and the voter must have no ballot in the box; then the ballot is
/// in the box, and nothing else has changed.
pub open spec fn admitted(e: Election, callsign: Seq<char>, ranking: Seq<Seq<char>>) -> Result<
    Election,
    AdmissionError,
> {
    match validated(callsign, ranking) {
        Err(x) => Err(x),
        Ok(ballot) => {
            if !on_roster(e.roster, ballot.ranking) {
                Err(AdmissionError::UnknownCandidate)
            } else if e.ballots.dom().contains(ballot.callsign) {
                Err(AdmissionError::DuplicateBallot)
            } else {
                Ok(Election { roster: e.roster, ballots: e.ballots.insert(ballot.callsign, ballot.ranking) })
            }
        },
    }
}

/// The box after a voter handed in a ranking: with the ballot in it if it
/// was admitted, and as it was if it was refused.
pub open spec fn box_after(e: Election, callsign: Seq<char>, ranking: Seq<Seq<char>>) -> Election {
    match admitted(e, callsign, ranking) {
        Ok(after) => after,
        Err(_) => e,
    }
}

/// A box with the given roster and no ballots.
pub open spec fn with_roster(roster: Set<Seq<char>>) -> Election {
    Election { roster, ballots: Map::empty() }
}

/// The box after its roster was replaced: whatever it held, it has the new
/// roster and no ballots.
pub open spec fn replaced(e: Election, roster: Set<Seq<char>>) -> Election {
    with_roster(roster)
}

/// The box after its ballots were taken out: the roster stays.
pub open spec fn emptied(e: Election) -> Election {
    Election { roster: e.roster, ballots: Map::empty() }
}

/// A voter has one ballot. When a voter without a ballot hands in a valid
/// ranking of candidates of the roster, it is admitted; a second valid
/// ranking of the same voter is then refused as a duplicate, whatever it
/// says, and the box holds the first.
pub proof fn lemma_second_ballot_refused(
    e: Election,
    callsign: Seq<char>,
    first: Seq<Seq<char>>,
    second: Seq<Seq<char>>,
)
    requires
        !e.ballots.dom().contains(upper_text(callsign)),
        validated(callsign, first) is Ok,
        validated(callsign, second) is Ok,
        on_roster(e.roster, first.filter(is_filled())),
        on_roster(e.roster, second.filter(is_filled())),
    ensures
        match admitted(e, callsign, first) {
            Ok(after) => {
                &&& admitted(after, callsign, second) == Err::<Election, AdmissionError>(
                    AdmissionError::DuplicateBallot,
                )
                &&& after.ballots == e.ballots.insert(upper_text(callsign), first.filter(is_filled()))
                &&& after.roster == e.roster
                &&& box_after(after, callsign, second) == after
            },
            Err(_) => false,
        },
{
}

/// The roster is enforced on the whole ranking. A ranking that names, at
/// any place, a candidate that is not on the roster is never admitted; if
/// nothing else is wrong with the ballot, that is the reason given.
pub proof fn lemma_stranger_refused(e: Election, callsign: Seq<char>, ranking: Seq<Seq<char>>, j: int)
    requires
        0 <= j < ranking.len(),
        ranking[j].len() > 0,
        !e.roster.contains(ranking[j]),
    ensures
        admitted(e, callsign, ranking) is Err,
        validated(callsign, ranking) is Ok ==> admitted(e, callsign, ranking) == Err::<
            Election,
            AdmissionError,
        >(AdmissionError::UnknownCandidate),
        box_after(e, callsign, ranking) == e,
{
    let entries = ranking.filter(is_filled());
    ranking.lemma_filter_contains(is_filled(), j);
    let i = choose|i: int| 0 <= i < entries.len() && entries[i] == ranking[j];
    assert(!e.roster.contains(entries[i]));
}

/// A new roster starts a new round: whatever ballot was handed in under
/// the roster before, no voter has a ballot in the box afterwards.
pub proof fn lemma_new_roster_clears(
    e: Election,
    callsign: Seq<char>,
    ranking: Seq<Seq<char>>,
    roster: Set<Seq<char>>,
)
    ensures
        replaced(box_after(e, callsign, ranking), roster).roster == roster,
        forall|v: Seq<char>| !replaced(box_after(e, callsign, ranking), roster).ballots.dom().contains(v),
{
}

/// Taking the ballots out leaves none behind and keeps the roster, so taking
/// them out again at once finds the same roster and no ballots. A ballot
/// that is admitted in between is the one ballot found.
pub proof fn lemma_snapshot_consumes(e: Election, callsign: Seq<char>, ranking: Seq<Seq<char>>)
    ensures
        emptied(e).roster == e.roster,
        forall|v: Seq<char>| !emptied(e).ballots.dom().contains(v),
        emptied(emptied(e)) == emptied(e),
        admitted(emptied(e), callsign, ranking) is Ok ==> box_after(emptied(e), callsign, ranking).ballots
            == Map::<Seq<char>, Seq<Seq<char>>>::empty().insert(
            upper_text(callsign),
            ranking.filter(is_filled()),
        ),
{
}

/// The rankings of `rankings` by voter, where `voters` lists the voters in
/// the same order.
pub open spec fn ballot_map(voters: Seq<Seq<char>>, rankings: Seq<Seq<Seq<char>>>) -> Map<
    Seq<char>,
    Seq<Seq<char>>,
> {
    Map::new(|v: Seq<char>| voters.contains(v), |v: Seq<char>| rankings[voters.index_of(v)])
}

/// Putting a new voter and ranking at the same place of the two lists adds
/// that voter's ranking to the map, and changes nothing else.
proof fn lemma_ballot_map_insert(
    voters: Seq<Seq<char>>,
    rankings: Seq<Seq<Seq<char>>>,
    k: int,
    id: Seq<char>,
    r: Seq<Seq<char>>,
)
    requires
        voters.no_duplicates(),
        voters.insert(k, id).no_duplicates(),
        !voters.contains(id),
        voters.len() == rankings.len(),
        0 <= k <= voters.len(),
    ensures
        ballot_map(voters.insert(k, id), rankings.insert(k, r)) == ballot_map(voters, rankings).insert(
            id,
            r,
        ),
{
    let grown = voters.insert(k, id);
    let ranked = rankings.insert(k, r);
    assert(grown[k] == id);
    assert forall|v: Seq<char>| grown.contains(v) <==> voters.contains(v) || v == id by {
        if grown.contains(v) {
            let i = choose|i: int| 0 <= i < grown.len() && grown[i] == v;
            if i < k {
                assert(voters[i] == v);
            } else if i > k {
                assert(voters[i - 1] == v);
            }
        }
        if voters.contains(v) {
            let i = choose|i: int| 0 <= i < voters.len() && voters[i] == v;
            if i < k {
                assert(grown[i] == v);
            } else {
                assert(grown[i + 1] == v);
            }
        }
    }
    assert forall|v: Seq<char>| grown.contains(v) implies #[trigger] ranked[grown.index_of(v)]
        == ballot_map(voters, rankings).insert(id, r)[v] by {
        let i = grown.index_of(v);
        assert(0 <= i < grown.len() && grown[i] == v);
        if v == id {
            assert(i == k);
        } else {
            let j = voters.index_of(v);
            assert(0 <= j < voters.len() && voters[j] == v);
            if i < k {
                assert(voters[i] == v);
                assert(i == j);
            } else {
                assert(i != k);
                assert(voters[i - 1] == v);
                assert(i - 1 == j);
            }
        }
    }
    assert(ballot_map(grown, ranked) =~= ballot_map(voters, rankings).insert(id, r));
}

/// A snapshot of an election: the roster, and the rankings without the
/// voters, in an order that says nothing of who handed in which.
#[derive(Debug)]
pub struct Data {
    pub candidates: Vec<String>,
    pub ballots: Vec<Vec<String>>,
}

/// `SliceRandom::shuffle` of rand, with the generator that `rand::rng`
/// gives. Trusted: it reorders the rankings in place by swapping them, so
/// the same rankings are there afterwards, each as often as before. Nothing
/// is said of the order that comes out.
#[verifier::external_body]
fn shuffle(rankings: &mut Vec<Vec<String>>)
    ensures
        final(rankings).deep_view().to_multiset() == old(rankings).deep_view().to_multiset(),
{
    rand::seq::SliceRandom::shuffle(rankings.as_mut_slice(), &mut rand::rng());
}

/// The ballot box, with the key that opens it to the election's officers.
pub struct ApplicationState {
    key: String,
    candidates: Vec<String>,
    people: Vec<String>,
    ballots: Vec<Vec<String>>,
}

impl View for ApplicationState {
    type V = Election;

    closed spec fn view(&self) -> Election {
        Election {
            roster: self.candidates.deep_view().to_set(),
            ballots: ballot_map(self.people.deep_view(), self.ballots.deep_view()),
        }
    }
}

impl ApplicationState {
    /// The officers' key.
    pub closed spec fn key(&self) -> Seq<char> {
        self.key@
    }

    /// The candidates, in ascending order.
    pub closed spec fn roster(&self) -> Seq<Seq<char>> {
        self.candidates.deep_view()
    }

    /// The voters whose ballots are in the box, in ascending order.
    pub closed spec fn voters(&self) -> Seq<Seq<char>> {
        self.people.deep_view()
    }

    /// The rankings in the box, in the order of [`Self::voters`].
    pub closed spec fn rankings(&self) -> Seq<Seq<Seq<char>>> {
        self.ballots.deep_view()
    }

    /// The box's invariant. The roster and the voters are listed in ascending
    /// order, each name once; every voter is a call sign and has one
    /// ranking; no ranking names a candidate twice or one that is not on the
    /// roster.
    pub open spec fn wf(&self) -> bool {
        &&& ascending(self.roster())
        &&& ascending(self.voters())
        &&& self.rankings().len() == self.voters().len()
        &&& self@.roster == self.roster().to_set()
        &&& self@.ballots == ballot_map(self.voters(), self.rankings())
        &&& forall|k: int| 0 <= k < self.voters().len() ==> is_callsign(#[trigger] self.voters()[k])
        &&& forall|k: int|
            0 <= k < self.rankings().len() ==> (#[trigger] self.rankings()[k]).no_duplicates()
                && on_roster(self@.roster, self.rankings()[k])
    }

    /// The lists of a box agree with what the box holds: the roster lists
    /// the candidates, the voters are those who have a ballot, and each
    /// ranking is of the voter at the same place. A box without ballots
    /// lists no voter.
    pub proof fn lemma_lists(&self)
        requires
            self.wf(),
        ensures
            forall|c: Seq<char>| self.roster().contains(c) <==> self@.roster.contains(c),
            forall|v: Seq<char>| self.voters().contains(v) <==> self@.ballots.dom().contains(v),
            forall|k: int|
                0 <= k < self.voters().len() ==> self@.ballots[#[trigger] self.voters()[k]]
                    == self.rankings()[k],
            self@.ballots == Map::<Seq<char>, Seq<Seq<char>>>::empty() ==> self.voters().len() == 0
                && self.rankings().len() == 0,
    {
        let voters = self.voters();
        lemma_ascending_distinct(voters);
        assert forall|k: int| 0 <= k < voters.len() implies self@.ballots[#[trigger] voters[k]]
            == self.rankings()[k] by {
            assert(voters.contains(voters[k]));
            let i = voters.index_of(voters[k]);
            assert(0 <= i < voters.len() && voters[i] == voters[k]);
        }
        if self@.ballots == Map::<Seq<char>, Seq<Seq<char>>>::empty() && voters.len() > 0 {
            assert(voters.contains(voters[0]));
            assert(self@.ballots.dom().contains(voters[0]));
        }
    }

    /// An empty box with the given key: no candidates, no ballots.
    pub fn new(key: String) -> (state: ApplicationState)
        ensures
            state.wf(),
            state.key() == key@,
            state@ == with_roster(Set::empty()),
    {
        let state = ApplicationState {
            key,
            candidates: Vec::new(),
            people: Vec::new(),
            ballots: Vec::new(),
        };
        proof {
            assert(state.roster() =~= Seq::<Seq<char>>::empty());
            assert(state.voters() =~= Seq::<Seq<char>>::empty());
            assert(state.rankings() =~= Seq::<Seq<Seq<char>>>::empty());
            assert(state@.roster =~= Set::<Seq<char>>::empty());
            assert(state@.ballots =~= Map::<Seq<char>, Seq<Seq<char>>>::empty());
        }
        state
    }

    /// Whether `key` is the officers' key.
    pub fn check_key(&self, key: &str) -> (r: bool)
        ensures
            r == (key@ == self.key()),
    {
        text_equal(key, self.key.as_str())
    }

    /// The candidates, in ascending order.
    pub fn list_candidates(&self) -> (list: Vec<String>)
        ensures
            list.deep_view() == self.roster(),
    {
        clone_names(&self.candidates)
    }

    /// The voters whose ballots are in the box, in ascending order.
    pub fn list_ballots(&self) -> (list: Vec<String>)
        ensures
            list.deep_view() == self.voters(),
    {
        clone_names(&self.people)
    }

    /// Admits a voter's ballot, or refuses it and leaves the box as it was:
    /// see [`admitted`].
    pub fn add_ballot(&mut self, callsign: String, ranking: Vec<String>) -> (r: Result<(), AdmissionError>)
        requires
            old(self).wf(),
        ensures
            final(self).wf(),
            final(self).key() == old(self).key(),
            final(self).roster() == old(self).roster(),
            final(self)@ == box_after(old(self)@, callsign@, ranking.deep_view()),
            match r {
                Ok(()) => admitted(old(self)@, callsign@, ranking.deep_view()) == Ok::<
                    Election,
                    AdmissionError,
                >(final(self)@),
                Err(e) => {
                    &&& admitted(old(self)@, callsign@, ranking.deep_view()) == Err::<
                        Election,
                        AdmissionError,
                    >(e)
                    &&& final(self)@ == old(self)@
                    &&& final(self).voters() == old(self).voters()
                    &&& final(self).rankings() == old(self).rankings()
                },
            },
    {
        let ghost made = validated(callsign@, ranking.deep_view());
        let ballot = match Ballot::validate(callsign, ranking) {
            Err(e) => {
                return Err(e);
            },
            Ok(ballot) => ballot,
        };
        let ghost entries = ballot.ranking.deep_view();
        let mut j: usize = 0;
        while j < ballot.ranking.len()
            invariant
                j <= ballot.ranking@.len(),
                *self == *old(self),
                self.wf(),
                made == validated(callsign@, ranking.deep_view()),
                made == Ok::<BallotView, AdmissionError>(ballot@),
                entries == ballot.ranking.deep_view(),
                forall|i: int| 0 <= i < j ==> self.candidates.deep_view().contains(#[trigger] entries[i]),
            decreases ballot.ranking@.len() - j,
        {
            assert(entries[j as int] == ballot.ranking@[j as int]@);
            match find_name(&self.candidates, &ballot.ranking[j]) {
                None => {
                    assert(!self@.roster.contains(entries[j as int]));
                    assert(!on_roster(self@.roster, ballot@.ranking));
                    return Err(AdmissionError::UnknownCandidate);
                },
                Some(at) => {
                    assert(self.candidates.deep_view()[at as int] == entries[j as int]);
                },
            }
            j = j + 1;
        }
        let ghost voters = self.people.deep_view();
        let ghost rankings = self.ballots.deep_view();
        let ghost id = ballot.callsign@;
        match insert_name(&mut self.people, ballot.callsign) {
            None => Err(AdmissionError::DuplicateBallot),
            Some(k) => {
                self.ballots.insert(k, ballot.ranking);
                proof {
                    let grown = self.people.deep_view();
                    let ranked = self.ballots.deep_view();
                    assert(ranked =~= rankings.insert(k as int, entries));
                    lemma_ascending_distinct(voters);
                    lemma_ascending_distinct(grown);
                    lemma_ballot_map_insert(voters, rankings, k as int, id, entries);
                    assert forall|i: int| 0 <= i < grown.len() implies is_callsign(#[trigger] grown[i]) by {
                        if i < k {
                            assert(grown[i] == voters[i]);
                        } else if i > k {
                            assert(grown[i] == voters[i - 1]);
                        }
                    }
                    assert forall|i: int| 0 <= i < ranked.len() implies (#[trigger] ranked[i]).no_duplicates()
                        && on_roster(self@.roster, ranked[i]) by {
                        if i < k {
                            assert(ranked[i] == rankings[i]);
                        } else if i > k {
                            assert(ranked[i] == rankings[i - 1]);
                        }
                    }
                }
                Ok(())
            },
        }
    }

    /// Replaces the roster by the names of `new_candidates`, each taken
    /// once, and throws away every ballot.
    pub fn set_candidates(&mut self, new_candidates: Vec<String>)
        ensures
            final(self).wf(),
            final(self).key() == old(self).key(),
            final(self)@ == replaced(old(self)@, new_candidates.deep_view().to_set()),
            final(self).voters().len() == 0,
            final(self).rankings().len() == 0,
    {
        self.candidates = sorted_names(&new_candidates);
        self.people = Vec::new();
        self.ballots = Vec::new();
        proof {
            assert(self.voters() =~= Seq::<Seq<char>>::empty());
            assert(self.rankings() =~= Seq::<Seq<Seq<char>>>::empty());
            assert(self@.roster =~= new_candidates.deep_view().to_set());
            assert(self@.ballots =~= Map::<Seq<char>, Seq<Seq<char>>>::empty());
        }
    }

    /// Takes the ballots out of the box and hands them on without the
    /// voters, in shuffled order, together with the roster. The box keeps
    /// its roster and is empty afterwards.
    pub fn take_data(&mut self) -> (data: Data)
        requires
            old(self).wf(),
        ensures
            final(self).wf(),
            final(self).key() == old(self).key(),
            final(self).roster() == old(self).roster(),
            final(self)@ == emptied(old(self)@),
            final(self).voters().len() == 0,
            final(self).rankings().len() == 0,
            data.candidates.deep_view() == old(self).roster(),
            data.ballots.deep_view().to_multiset() == old(self).rankings().to_multiset(),
            data.ballots@.len() == old(self).rankings().len(),
    {
        let candidates = clone_names(&self.candidates);
        let mut ballots: Vec<Vec<String>> = Vec::new();
        std::mem::swap(&mut self.ballots, &mut ballots);
        self.people = Vec::new();
        proof {
            assert(self.voters() =~= Seq::<Seq<char>>::empty());
            assert(self.rankings() =~= Seq::<Seq<Seq<char>>>::empty());
            assert(self@.ballots =~= Map::<Seq<char>, Seq<Seq<char>>>::empty());
        }
        let ghost kept = ballots.deep_view();
        shuffle(&mut ballots);
        proof {
            kept.to_multiset_ensures();
            ballots.deep_view().to_multiset_ensures();
        }
        Data { candidates, ballots }
    }
}

} // verus!
