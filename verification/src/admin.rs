//! What the election's officers do with the ballot box: look into it,
//! replace the roster, and close the round with the results.
use vstd::prelude::*;
use vstd::seq_lib::*;
use crate::names::{
    ascending, enumerates, find_name, insert_name, lemma_ascending_distinct, lemma_ascending_places,
    lemma_ascending_unique,
};
use crate::pairwise::{
    all_distinct, all_entries_below, ballot_views, counts_of, entries_below,
    lemma_mapped_count_order_free, prefer_count, TallyError,
};
use crate::state::{emptied, on_roster, replaced, ApplicationState, Data};
use crate::text::{lex_lt, split_text, text_pieces};
use crate::tally::{is_winner, locked_edges, tally};

verus! {

/// Whether some ranking of `votes` names the candidate `c`.
pub open spec fn appears(votes: Seq<Seq<Seq<char>>>, c: Seq<char>) -> bool {
    exists|k: int, j: int| 0 <= k < votes.len() && 0 <= j < votes[k].len() && votes[k][j] == c
}

/// The candidates that are counted: those that some ranking names.
pub open spec fn contenders(votes: Seq<Seq<Seq<char>>>) -> Set<Seq<char>> {
    Set::new(|c: Seq<char>| appears(votes, c))
}

/// The candidates that are counted, in ascending order. A candidate's place
/// in this list is its number in the count.
pub open spec fn contender_list(votes: Seq<Seq<Seq<char>>>) -> Seq<Seq<char>> {
    choose|names: Seq<Seq<char>>| enumerates(names, contenders(votes))
}

/// A ranking with each candidate replaced by its number.
pub open spec fn number_ranking(names: Seq<Seq<char>>, ranking: Seq<Seq<char>>) -> Seq<usize> {
    ranking.map_values(|c: Seq<char>| names.index_of(c) as usize)
}

/// The rankings with each candidate replaced by its number.
pub open spec fn number_votes(names: Seq<Seq<char>>, votes: Seq<Seq<Seq<char>>>) -> Seq<Seq<usize>> {
    votes.map_values(|r: Seq<Seq<char>>| number_ranking(names, r))
}

/// Edges between numbers as edges between the candidates of those numbers.
pub open spec fn name_edges(names: Seq<Seq<char>>, edges: Seq<(usize, usize)>) -> Seq<
    (Seq<char>, Seq<char>),
> {
    edges.map_values(|e: (usize, usize)| (names[e.0 as int], names[e.1 as int]))
}

/// The victories that the ranked-pairs method locks in for `votes`, each
/// from the winner to the loser, in the order in which it locks them.
pub open spec fn locked_pairs(votes: Seq<Seq<Seq<char>>>) -> Seq<(Seq<char>, Seq<char>)> {
    let names = contender_list(votes);
    name_edges(names, locked_edges(number_votes(names, votes), names.len() as usize))
}

/// Whether the candidate `c` wins the election that `votes` decide.
pub open spec fn is_elected(votes: Seq<Seq<Seq<char>>>, c: Seq<char>) -> bool {
    let names = contender_list(votes);
    names.contains(c) && is_winner(
        number_votes(names, votes),
        names.len() as usize,
        names.index_of(c) as usize,
    )
}

/// Whether every ranking names candidates of the roster only.
pub open spec fn all_on_roster(roster: Seq<Seq<char>>, votes: Seq<Seq<Seq<char>>>) -> bool {
    forall|k: int| 0 <= k < votes.len() ==> on_roster(roster.to_set(), #[trigger] votes[k])
}

/// Whether no ranking names a candidate twice.
pub open spec fn none_repeated(votes: Seq<Seq<Seq<char>>>) -> bool {
    forall|k: int| 0 <= k < votes.len() ==> (#[trigger] votes[k]).no_duplicates()
}

/// The results of an election.
#[derive(Debug)]
pub struct ElectionResults {
    /// The roster, in ascending order.
    pub candidates: Vec<String>,
    /// The rankings that were counted, without the voters.
    pub votes: Vec<Vec<String>>,
    /// The locked victories, each from the winner to the loser, in the order
    /// in which they were locked.
    pub locked: Vec<(String, String)>,
    /// The winners, in ascending order.
    pub winners: Vec<String>,
}

/// The counted candidates of a set of rankings have one enumeration.
pub proof fn lemma_contender_list(names: Seq<Seq<char>>, votes: Seq<Seq<Seq<char>>>)
    requires
        enumerates(names, contenders(votes)),
    ensures
        names == contender_list(votes),
{
    lemma_ascending_unique(names, contender_list(votes));
}

/// Numbering a ranking of listed candidates keeps what the ranking says:
/// the numbers are in range, they name the candidates again, and a candidate
/// occurs twice exactly where its number does.
proof fn lemma_number_in_range(names: Seq<Seq<char>>, ranking: Seq<Seq<char>>)
    requires
        names.no_duplicates(),
        names.len() <= usize::MAX,
        forall|j: int| 0 <= j < ranking.len() ==> names.contains(#[trigger] ranking[j]),
    ensures
        entries_below(number_ranking(names, ranking), names.len() as usize),
        number_ranking(names, ranking).no_duplicates() == ranking.no_duplicates(),
        forall|j: int|
            0 <= j < ranking.len() ==> names[(#[trigger] number_ranking(names, ranking)[j]) as int]
                == ranking[j],
{
    let numbered = number_ranking(names, ranking);
    assert forall|j: int| 0 <= j < ranking.len() implies 0 <= names.index_of(#[trigger] ranking[j])
        < names.len() && names[names.index_of(ranking[j])] == ranking[j] by {
        assert(names.contains(ranking[j]));
    }
    assert forall|j: int| 0 <= j < numbered.len() implies names[(#[trigger] numbered[j]) as int]
        == ranking[j] by {
        assert(numbered[j] == names.index_of(ranking[j]) as usize);
    }
    if ranking.no_duplicates() {
        assert forall|i: int, j: int|
            0 <= i < numbered.len() && 0 <= j < numbered.len() && i != j implies numbered[i]
            != numbered[j] by {
            assert(names[numbered[i] as int] == ranking[i]);
            assert(names[numbered[j] as int] == ranking[j]);
        }
    }
    if numbered.no_duplicates() {
        assert forall|i: int, j: int|
            0 <= i < ranking.len() && 0 <= j < ranking.len() && i != j implies ranking[i]
            != ranking[j] by {
            assert(numbered[i] != numbered[j]);
            assert(numbered[i] == names.index_of(ranking[i]) as usize);
            assert(numbered[j] == names.index_of(ranking[j]) as usize);
        }
    }
}

/// Adds the candidates of one ranking to the ascending list `names`.
fn collect_ranking(names: &mut Vec<String>, ranking: &Vec<String>)
    requires
        ascending(old(names).deep_view()),
    ensures
        ascending(final(names).deep_view()),
        forall|c: Seq<char>|
            final(names).deep_view().contains(c) <==> old(names).deep_view().contains(c)
                || ranking.deep_view().contains(c),
{
    let ghost entries = ranking.deep_view();
    let mut j: usize = 0;
    while j < ranking.len()
        invariant
            j <= ranking@.len(),
            entries == ranking.deep_view(),
            ascending(names.deep_view()),
            forall|c: Seq<char>|
                names.deep_view().contains(c) <==> old(names).deep_view().contains(c)
                    || entries.take(j as int).contains(c),
        decreases ranking@.len() - j,
    {
        proof {
            let shorter = entries.take(j as int);
            let longer = entries.take(j as int + 1);
            assert(longer =~= shorter.push(ranking@[j as int]@));
            assert forall|c: Seq<char>| longer.contains(c) <==> shorter.contains(c) || c
                == ranking@[j as int]@ by {
                if longer.contains(c) {
                    let i = choose|i: int| 0 <= i < longer.len() && longer[i] == c;
                    if i < j {
                        assert(shorter[i] == c);
                    }
                }
                if shorter.contains(c) {
                    let i = choose|i: int| 0 <= i < shorter.len() && shorter[i] == c;
                    assert(longer[i] == c);
                }
                assert(longer[j as int] == ranking@[j as int]@);
            }
        }
        insert_name(names, ranking[j].clone());
        j = j + 1;
    }
    assert(entries.take(j as int) =~= entries);
}

/// The candidates that the rankings name, each once, in ascending order.
pub fn collect_contenders(votes: &Vec<Vec<String>>) -> (names: Vec<String>)
    ensures
        enumerates(names.deep_view(), contenders(votes.deep_view())),
        names.deep_view() == contender_list(votes.deep_view()),
{
    let ghost all = votes.deep_view();
    let mut names: Vec<String> = Vec::new();
    let mut k: usize = 0;
    assert(names.deep_view() =~= Seq::<Seq<char>>::empty());
    while k < votes.len()
        invariant
            k <= votes@.len(),
            all == votes.deep_view(),
            ascending(names.deep_view()),
            forall|c: Seq<char>| names.deep_view().contains(c) <==> appears(all.take(k as int), c),
        decreases votes@.len() - k,
    {
        collect_ranking(&mut names, &votes[k]);
        proof {
            let shorter = all.take(k as int);
            let longer = all.take(k as int + 1);
            assert(longer[k as int] == votes@[k as int].deep_view());
            assert forall|c: Seq<char>| names.deep_view().contains(c) <==> appears(longer, c) by {
                if appears(longer, c) {
                    let (x, y) = choose|x: int, y: int|
                        0 <= x < longer.len() && 0 <= y < longer[x].len() && longer[x][y] == c;
                    if x < k {
                        assert(shorter[x][y] == c);
                    } else {
                        assert(longer[k as int][y] == c);
                    }
                }
                if appears(shorter, c) {
                    let (x, y) = choose|x: int, y: int|
                        0 <= x < shorter.len() && 0 <= y < shorter[x].len() && shorter[x][y] == c;
                    assert(longer[x][y] == c);
                }
                if votes@[k as int].deep_view().contains(c) {
                    let y = choose|y: int|
                        0 <= y < votes@[k as int].deep_view().len() && votes@[k as int].deep_view()[y]
                            == c;
                    assert(longer[k as int][y] == c);
                }
            }
        }
        k = k + 1;
    }
    proof {
        assert(all.take(k as int) =~= all);
        lemma_contender_list(names.deep_view(), all);
    }
    names
}

/// Replaces each candidate of a ranking by its place in `names`.
fn number_one(names: &Vec<String>, ranking: &Vec<String>) -> (numbered: Vec<usize>)
    requires
        names.deep_view().no_duplicates(),
        forall|j: int|
            0 <= j < ranking.deep_view().len() ==> names.deep_view().contains(
                #[trigger] ranking.deep_view()[j],
            ),
    ensures
        numbered@ == number_ranking(names.deep_view(), ranking.deep_view()),
{
    let ghost list = names.deep_view();
    let ghost entries = ranking.deep_view();
    let mut numbered: Vec<usize> = Vec::new();
    let mut j: usize = 0;
    while j < ranking.len()
        invariant
            j <= ranking@.len(),
            list == names.deep_view(),
            entries == ranking.deep_view(),
            list.no_duplicates(),
            forall|i: int| 0 <= i < entries.len() ==> list.contains(#[trigger] entries[i]),
            numbered@.len() == j,
            forall|i: int| 0 <= i < j ==> numbered@[i] == list.index_of(entries[i]) as usize,
        decreases ranking@.len() - j,
    {
        assert(entries[j as int] == ranking@[j as int]@);
        assert(list.contains(entries[j as int]));
        let place = find_name(names, &ranking[j]);
        let at: usize = place.unwrap();
        proof {
            assert(list[at as int] == names@[at as int]@);
            let i = list.index_of(entries[j as int]);
            assert(0 <= i < list.len() && list[i] == entries[j as int]);
        }
        numbered.push(at);
        j = j + 1;
    }
    assert(numbered@ =~= number_ranking(list, entries));
    numbered
}

/// Replaces each candidate of each ranking by its place in `names`.
fn number_all(names: &Vec<String>, votes: &Vec<Vec<String>>) -> (numbered: Vec<Vec<usize>>)
    requires
        names.deep_view().no_duplicates(),
        forall|c: Seq<char>| appears(votes.deep_view(), c) ==> names.deep_view().contains(c),
    ensures
        ballot_views(numbered@) == number_votes(names.deep_view(), votes.deep_view()),
{
    let ghost all = votes.deep_view();
    let mut numbered: Vec<Vec<usize>> = Vec::new();
    let mut k: usize = 0;
    while k < votes.len()
        invariant
            k <= votes@.len(),
            all == votes.deep_view(),
            names.deep_view().no_duplicates(),
            forall|c: Seq<char>| appears(all, c) ==> names.deep_view().contains(c),
            numbered@.len() == k,
            forall|i: int|
                0 <= i < k ==> (#[trigger] numbered@[i])@ == number_ranking(names.deep_view(), all[i]),
        decreases votes@.len() - k,
    {
        proof {
            assert(all[k as int] == votes@[k as int].deep_view());
            assert forall|j: int| 0 <= j < all[k as int].len() implies names.deep_view().contains(
                #[trigger] all[k as int][j],
            ) by {
                assert(appears(all, all[k as int][j]));
            }
        }
        let one = number_one(names, &votes[k]);
        numbered.push(one);
        k = k + 1;
    }
    assert(ballot_views(numbered@) =~= number_votes(names.deep_view(), all));
    numbered
}

/// Whether one of `names` is missing from `roster`.
fn first_stranger(roster: &Vec<String>, names: &Vec<String>) -> (found: bool)
    ensures
        found == exists|i: int|
            0 <= i < names.deep_view().len() && !roster.deep_view().contains(
                #[trigger] names.deep_view()[i],
            ),
{
    let mut i: usize = 0;
    while i < names.len()
        invariant
            i <= names@.len(),
            forall|x: int| 0 <= x < i ==> roster.deep_view().contains(#[trigger] names.deep_view()[x]),
        decreases names@.len() - i,
    {
        assert(names.deep_view()[i as int] == names@[i as int]@);
        match find_name(roster, &names[i]) {
            None => {
                return true;
            },
            Some(at) => {
                assert(roster.deep_view()[at as int] == names@[i as int]@);
            },
        }
        i = i + 1;
    }
    false
}

/// Replaces the numbers of each edge by the candidates of those numbers.
fn name_locked(names: &Vec<String>, locked: &Vec<(usize, usize)>) -> (pairs: Vec<(String, String)>)
    requires
        forall|k: int|
            0 <= k < locked@.len() ==> (#[trigger] locked@[k]).0 < names@.len() && locked@[k].1
                < names@.len(),
    ensures
        pairs.deep_view() == name_edges(names.deep_view(), locked@),
{
    let mut pairs: Vec<(String, String)> = Vec::new();
    let mut k: usize = 0;
    while k < locked.len()
        invariant
            k <= locked@.len(),
            forall|i: int|
                0 <= i < locked@.len() ==> (#[trigger] locked@[i]).0 < names@.len() && locked@[i].1
                    < names@.len(),
            pairs@.len() == k,
            forall|i: int|
                0 <= i < k ==> (#[trigger] pairs@[i]).0@ == names@[locked@[i].0 as int]@ && pairs@[i].1@
                    == names@[locked@[i].1 as int]@,
        decreases locked@.len() - k,
    {
        let e = locked[k];
        pairs.push((names[e.0].clone(), names[e.1].clone()));
        k = k + 1;
    }
    proof {
        let target = name_edges(names.deep_view(), locked@);
        assert(pairs.deep_view().len() == target.len());
        assert forall|i: int| 0 <= i < target.len() implies pairs.deep_view()[i] == target[i] by {
            assert(pairs.deep_view()[i] == pairs@[i].deep_view());
            assert(names.deep_view()[locked@[i].0 as int] == names@[locked@[i].0 as int]@);
            assert(names.deep_view()[locked@[i].1 as int] == names@[locked@[i].1 as int]@);
        }
        assert(pairs.deep_view() =~= target);
    }
    pairs
}

/// Replaces each number by the candidate of that number.
fn name_winners(names: &Vec<String>, winners: &Vec<usize>) -> (list: Vec<String>)
    requires
        forall|k: int| 0 <= k < winners@.len() ==> (#[trigger] winners@[k]) < names@.len(),
    ensures
        list@.len() == winners@.len(),
        forall|k: int|
            0 <= k < winners@.len() ==> (#[trigger] list.deep_view()[k]) == names.deep_view()[winners@[k] as int],
{
    let mut list: Vec<String> = Vec::new();
    let mut k: usize = 0;
    while k < winners.len()
        invariant
            k <= winners@.len(),
            forall|i: int| 0 <= i < winners@.len() ==> (#[trigger] winners@[i]) < names@.len(),
            list@.len() == k,
            forall|i: int| 0 <= i < k ==> (#[trigger] list@[i])@ == names@[winners@[i] as int]@,
        decreases winners@.len() - k,
    {
        list.push(names[winners[k]].clone());
        k = k + 1;
    }
    assert forall|i: int| 0 <= i < winners@.len() implies (#[trigger] list.deep_view()[i])
        == names.deep_view()[winners@[i] as int] by {
        assert(list.deep_view()[i] == list@[i]@);
    }
    list
}

impl ElectionResults {
    /// Counts a snapshot by the ranked-pairs method. The candidates that
    /// some ranking names are numbered in ascending order and counted; the
    /// others take no part. Victories of equal margin are therefore taken
    /// in the order of the winners' names, then of the losers' names. A
    /// snapshot whose rankings name a candidate that is not on its roster is
    /// refused, and so is one in which a ranking names a candidate twice.
    pub fn from_data(data: Data) -> (r: Result<ElectionResults, TallyError>)
        ensures
            match r {
                Ok(results) => {
                    &&& all_on_roster(data.candidates.deep_view(), data.ballots.deep_view())
                    &&& none_repeated(data.ballots.deep_view())
                    &&& results.candidates.deep_view() == data.candidates.deep_view()
                    &&& results.votes.deep_view() == data.ballots.deep_view()
                    &&& results.locked.deep_view() == locked_pairs(data.ballots.deep_view())
                    &&& ascending(results.winners.deep_view())
                    &&& forall|c: Seq<char>|
                        results.winners.deep_view().contains(c) <==> is_elected(
                            data.ballots.deep_view(),
                            c,
                        )
                },
                Err(e) => {
                    &&& e == TallyError::InvalidCandidate <==> !all_on_roster(
                        data.candidates.deep_view(),
                        data.ballots.deep_view(),
                    )
                    &&& e == TallyError::InvalidBallot <==> all_on_roster(
                        data.candidates.deep_view(),
                        data.ballots.deep_view(),
                    ) && !none_repeated(data.ballots.deep_view())
                },
            },
    {
        let ghost roster = data.candidates.deep_view();
        let ghost votes = data.ballots.deep_view();
        let names = collect_contenders(&data.ballots);
        let ghost list = names.deep_view();
        if first_stranger(&data.candidates, &names) {
            proof {
                let i = choose|i: int| 0 <= i < list.len() && !roster.contains(#[trigger] list[i]);
                assert(list.contains(list[i]));
                assert(appears(votes, list[i]));
                let (x, y) = choose|x: int, y: int|
                    0 <= x < votes.len() && 0 <= y < votes[x].len() && votes[x][y] == list[i];
                assert(!roster.to_set().contains(votes[x][y]));
                assert(!on_roster(roster.to_set(), votes[x]));
            }
            return Err(TallyError::InvalidCandidate);
        }
        proof {
            assert forall|k: int| 0 <= k < votes.len() implies on_roster(
                roster.to_set(),
                #[trigger] votes[k],
            ) by {
                assert forall|j: int| 0 <= j < votes[k].len() implies roster.to_set().contains(
                    #[trigger] votes[k][j],
                ) by {
                    assert(appears(votes, votes[k][j]));
                    assert(list.contains(votes[k][j]));
                    let i = choose|i: int| 0 <= i < list.len() && list[i] == votes[k][j];
                    assert(roster.contains(list[i]));
                }
            }
            lemma_ascending_distinct(list);
        }
        let count: usize = names.len();
        assert(list.len() == count);
        let numbered = number_all(&names, &data.ballots);
        let ghost plain = ballot_views(numbered@);
        proof {
            assert forall|k: int| 0 <= k < votes.len() implies entries_below(
                #[trigger] plain[k],
                list.len() as usize,
            ) && plain[k].no_duplicates() == votes[k].no_duplicates() by {
                assert forall|j: int| 0 <= j < votes[k].len() implies list.contains(
                    #[trigger] votes[k][j],
                ) by {
                    assert(appears(votes, votes[k][j]));
                }
                lemma_number_in_range(list, votes[k]);
            }
            assert(all_entries_below(plain, list.len() as usize));
            if all_distinct(plain) {
                assert forall|k: int| 0 <= k < votes.len() implies (#[trigger] votes[k]).no_duplicates() by {
                    assert(plain[k].no_duplicates());
                }
            }
            if none_repeated(votes) {
                assert forall|k: int| 0 <= k < plain.len() implies (#[trigger] plain[k]).no_duplicates() by {
                    assert(votes[k].no_duplicates());
                }
            }
        }
        match tally(&numbered, count) {
            Err(e) => Err(e),
            Ok(found) => {
                proof {
                    assert forall|k: int| 0 <= k < found.winners@.len() implies (
                    #[trigger] found.winners@[k]) < names@.len() by {
                        assert(found.winners@.contains(found.winners@[k]));
                    }
                }
                let locked = name_locked(&names, &found.locked);
                let winners = name_winners(&names, &found.winners);
                proof {
                    let elected = winners.deep_view();
                    assert forall|i: int, j: int| 0 <= i < j < elected.len() implies lex_lt(
                        elected[i],
                        elected[j],
                    ) by {
                        lemma_ascending_places(list, found.winners@[i] as int, found.winners@[j] as int);
                    }
                    assert forall|c: Seq<char>| elected.contains(c) <==> is_elected(votes, c) by {
                        if elected.contains(c) {
                            let i = choose|i: int| 0 <= i < elected.len() && elected[i] == c;
                            let w = found.winners@[i];
                            assert(found.winners@.contains(w));
                            assert(list[w as int] == c);
                            assert(list.contains(c));
                            assert(list.index_of(c) == w);
                        }
                        if is_elected(votes, c) {
                            let w = list.index_of(c);
                            assert(0 <= w < list.len() && list[w] == c);
                            assert(found.winners@.contains(w as usize));
                            let i = choose|i: int|
                                0 <= i < found.winners@.len() && found.winners@[i] == w as usize;
                            assert(elected[i] == c);
                        }
                    }
                }
                Ok(ElectionResults { candidates: data.candidates, votes: data.ballots, locked, winners })
            },
        }
    }
}

/// The results do not depend on the order in which the rankings are
/// counted: two lists that hold the same rankings, each as often, have the
/// same locked victories and the same winners.
pub proof fn lemma_results_order_free(x: Seq<Seq<Seq<char>>>, y: Seq<Seq<Seq<char>>>)
    requires
        x.to_multiset() == y.to_multiset(),
    ensures
        contender_list(x) == contender_list(y),
        locked_pairs(x) == locked_pairs(y),
        forall|c: Seq<char>| is_elected(x, c) == is_elected(y, c),
{
    broadcast use to_multiset_contains;

    assert forall|c: Seq<char>| appears(x, c) == appears(y, c) by {
        if appears(x, c) {
            let (k, j) = choose|k: int, j: int|
                0 <= k < x.len() && 0 <= j < x[k].len() && x[k][j] == c;
            assert(x.contains(x[k]));
            assert(y.to_multiset().count(x[k]) > 0);
            let i = choose|i: int| 0 <= i < y.len() && y[i] == x[k];
            assert(y[i][j] == c);
        }
        if appears(y, c) {
            let (k, j) = choose|k: int, j: int|
                0 <= k < y.len() && 0 <= j < y[k].len() && y[k][j] == c;
            assert(y.contains(y[k]));
            assert(x.to_multiset().count(y[k]) > 0);
            let i = choose|i: int| 0 <= i < x.len() && x[i] == y[k];
            assert(x[i][j] == c);
        }
    }
    assert(contenders(x) =~= contenders(y));
    let names = contender_list(x);
    let n = names.len() as usize;
    let f = |r: Seq<Seq<char>>| number_ranking(names, r);
    assert(number_votes(names, x) == x.map_values(f));
    assert(number_votes(names, y) == y.map_values(f));
    assert forall|p: (usize, usize)| p.0 < n && p.1 < n implies prefer_count(
        number_votes(names, x),
        p.0,
        p.1,
    ) == prefer_count(number_votes(names, y), p.0, p.1) by {
        lemma_mapped_count_order_free(x, y, f, p.0, p.1);
    }
    assert(counts_of(number_votes(names, x), n) =~= counts_of(number_votes(names, y), n));
}

impl ElectionResults {
    /// Closes the round: takes the ballots out of the box and counts them.
    /// The box keeps its roster and is empty afterwards. The locked
    /// victories and the winners are those of the rankings that were in the
    /// box, in whatever order they were handed out.
    pub fn from_election_data(state: &mut ApplicationState) -> (results: ElectionResults)
        requires
            old(state).wf(),
        ensures
            final(state).wf(),
            final(state).key() == old(state).key(),
            final(state).roster() == old(state).roster(),
            final(state)@ == emptied(old(state)@),
            results.candidates.deep_view() == old(state).roster(),
            results.votes.deep_view().to_multiset() == old(state).rankings().to_multiset(),
            results.votes@.len() == old(state).rankings().len(),
            results.locked.deep_view() == locked_pairs(old(state).rankings()),
            ascending(results.winners.deep_view()),
            forall|c: Seq<char>|
                results.winners.deep_view().contains(c) <==> is_elected(old(state).rankings(), c),
    {
        let ghost kept = state.rankings();
        let data = state.take_data();
        proof {
            broadcast use to_multiset_contains;

            let votes = data.ballots.deep_view();
            assert forall|k: int| 0 <= k < votes.len() implies on_roster(
                data.candidates.deep_view().to_set(),
                #[trigger] votes[k],
            ) && votes[k].no_duplicates() by {
                assert(votes.contains(votes[k]));
                assert(kept.to_multiset().count(votes[k]) > 0);
                let i = choose|i: int| 0 <= i < kept.len() && kept[i] == votes[k];
                assert(kept[i].no_duplicates());
            }
            lemma_results_order_free(votes, kept);
        }
        ElectionResults::from_data(data).unwrap()
    }
}

/// The voters whose ballots are in the box, for whoever has the key.
pub fn check_ballots(state: &ApplicationState, key: &str) -> (r: Option<Vec<String>>)
    ensures
        match r {
            Some(list) => key@ == state.key() && list.deep_view() == state.voters(),
            None => key@ != state.key(),
        },
{
    if state.check_key(key) {
        Some(state.list_ballots())
    } else {
        None
    }
}

/// The roster, for whoever has the key.
pub fn check_candidates(state: &ApplicationState, key: &str) -> (r: Option<Vec<String>>)
    ensures
        match r {
            Some(list) => key@ == state.key() && list.deep_view() == state.roster(),
            None => key@ != state.key(),
        },
{
    if state.check_key(key) {
        Some(state.list_candidates())
    } else {
        None
    }
}

/// Replaces the roster by the names that `candidates` lists between its
/// commas, if `key` is the key, and throws away every ballot. With another
/// key nothing happens. The result says whether the key was right.
pub fn set_candidates(state: &mut ApplicationState, key: &str, candidates: &str) -> (done: bool)
    requires
        old(state).wf(),
    ensures
        final(state).wf(),
        final(state).key() == old(state).key(),
        done == (key@ == old(state).key()),
        done ==> final(state)@ == replaced(old(state)@, text_pieces(candidates@, ',').to_set()),
        !done ==> final(state)@ == old(state)@ && final(state).roster() == old(state).roster()
            && final(state).voters() == old(state).voters() && final(state).rankings() == old(
            state,
        ).rankings(),
{
    if state.check_key(key) {
        state.set_candidates(split_text(candidates, ','));
        true
    } else {
        false
    }
}

/// Closes the round and gives the results, if `key` is the key. With
/// another key nothing happens.
pub fn get_results(state: &mut ApplicationState, key: &str) -> (r: Option<ElectionResults>)
    requires
        old(state).wf(),
    ensures
        final(state).wf(),
        final(state).key() == old(state).key(),
        final(state).roster() == old(state).roster(),
        match r {
            Some(results) => {
                &&& key@ == old(state).key()
                &&& final(state)@ == emptied(old(state)@)
                &&& results.candidates.deep_view() == old(state).roster()
                &&& results.votes.deep_view().to_multiset() == old(state).rankings().to_multiset()
                &&& results.votes@.len() == old(state).rankings().len()
                &&& results.locked.deep_view() == locked_pairs(old(state).rankings())
                &&& ascending(results.winners.deep_view())
                &&& forall|c: Seq<char>|
                    results.winners.deep_view().contains(c) <==> is_elected(
                        old(state).rankings(),
                        c,
                    )
            },
            None => {
                &&& key@ != old(state).key()
                &&& final(state)@ == old(state)@
                &&& final(state).voters() == old(state).voters()
                &&& final(state).rankings() == old(state).rankings()
            },
        },
{
    if state.check_key(key) {
        Some(ElectionResults::from_election_data(state))
    } else {
        None
    }
}

} // verus!
