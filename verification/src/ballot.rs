//! What a voter meets: the ballot is handed in, and the voter is sent on to
//! a page that says how it went.
use vstd::prelude::*;
use vstd::string::*;
use crate::data::{message_of, AdmissionError, Ballot};
use crate::state::{admitted, ApplicationState};

verus! {

/// Where a voter is sent after a ballot was admitted (`None`) or refused.
pub open spec fn location_after(refused: Option<AdmissionError>) -> Seq<char> {
    match refused {
        None => "/done"@,
        Some(e) => "/error?error="@ + message_of(e),
    }
}

/// Hands a ballot in and says where the voter is sent: to the page that
/// thanks for the vote, or to the page that names the error.
pub fn ballot_submission(state: &mut ApplicationState, ballot: Ballot) -> (location: String)
    requires
        old(state).wf(),
    ensures
        final(state).wf(),
        final(state).key() == old(state).key(),
        final(state).roster() == old(state).roster(),
        match admitted(old(state)@, ballot.callsign@, ballot.ranking.deep_view()) {
            Ok(e) => final(state)@ == e && location@ == location_after(None),
            Err(x) => {
                &&& final(state)@ == old(state)@
                &&& final(state).voters() == old(state).voters()
                &&& final(state).rankings() == old(state).rankings()
                &&& location@ == location_after(Some(x))
            },
        },
{
    match state.add_ballot(ballot.callsign, ballot.ranking) {
        Ok(()) => String::from_str("/done"),
        Err(e) => {
            let mut location = String::from_str("/error?error=");
            location.append(e.message());
            location
        },
    }
}

/// The text that the error page shows: the error that it was given, or a
/// sentence that says that there is none.
pub fn error_text(error: Option<String>) -> (text: String)
    ensures
        text@ == match error {
            Some(e) => e@,
            None => "No additional information."@,
        },
{
    match error {
        Some(e) => e,
        None => String::from_str("No additional information."),
    }
}

} // verus!
