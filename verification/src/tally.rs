//! The ranked-pairs method: the victories of one candidate over another are
//! ranked by their margin and locked in one by one, each unless it would
//! close a cycle; the winners are the candidates that no locked victory
//! beats.
//!
//! Victories of equal margin are ranked by the number of the winner, then by
//! the number of the loser, the lower number first.
use vstd::prelude::*;
use crate::lists::{lemma_in_order_unique, lemma_insert_in_order};
use crate::graph::{
    admits, edges_within, hop, is_root, is_walk, led_by_root, lemma_lock_all_acyclic,
    lemma_lock_all_rooted, lock_all, lock_step, reaches, LockGraph,
};
use crate::pairwise::{
    all_distinct, all_entries_below, ballot_views, check_ballots, counts_of, lemma_counts_order_free,
    tabulate_pairwise_results, MarginTable, TallyError,
};

verus! {

/// The margin of the pair `e` in the table `m`: the count for its first
/// candidate over the second, less the count the other way round.
pub open spec fn margin(m: Map<(usize, usize), int>, e: (usize, usize)) -> int {
    m[e] - m[(e.1, e.0)]
}

/// Whether `e` is a victory among the candidates below `n`: its first
/// candidate has a majority over its second. A tied pair is none.
pub open spec fn is_victory(m: Map<(usize, usize), int>, n: usize, e: (usize, usize)) -> bool {
    e.0 < n && e.1 < n && margin(m, e) > 0
}

/// Whether the pair `p` is proposed before the pair `q`: it has the larger
/// margin, or the same margin and the lower winner, or the same margin and
/// winner and the lower loser.
pub open spec fn precedes(m: Map<(usize, usize), int>, p: (usize, usize), q: (usize, usize)) -> bool {
    margin(m, p) > margin(m, q) || (margin(m, p) == margin(m, q) && (p.0 < q.0 || (p.0 == q.0 && p.1
        < q.1)))
}

/// Whether each pair of `order` is proposed before those behind it.
pub open spec fn in_proposal_order(order: Seq<(usize, usize)>, m: Map<(usize, usize), int>) -> bool {
    forall|i: int, j: int| 0 <= i < j < order.len() ==> precedes(m, order[i], order[j])
}

/// Whether `order` lists the victories of the table `m`, all of them, in the
/// order in which they are proposed.
pub open spec fn is_ranked_order(
    order: Seq<(usize, usize)>,
    m: Map<(usize, usize), int>,
    n: usize,
) -> bool {
    &&& forall|e: (usize, usize)| order.contains(e) <==> is_victory(m, n, e)
    &&& in_proposal_order(order, m)
}

/// The victories of the table `m` in the order in which they are proposed.
pub open spec fn ranked_order(m: Map<(usize, usize), int>, n: usize) -> Seq<(usize, usize)> {
    choose|order: Seq<(usize, usize)>| is_ranked_order(order, m, n)
}

/// The edges that the ranked-pairs method locks in for `ballots` over the
/// candidates below `n`, in the order in which it locks them.
pub open spec fn locked_edges(ballots: Seq<Seq<usize>>, n: usize) -> Seq<(usize, usize)> {
    lock_all(ranked_order(counts_of(ballots, n), n))
}

/// Whether `c` wins: it is a candidate that no locked edge points at.
pub open spec fn is_winner(ballots: Seq<Seq<usize>>, n: usize, c: usize) -> bool {
    c < n && is_root(locked_edges(ballots, n), c)
}

/// The method does not look at the order of the ballots: two lists that hold
/// the same ballots, each as often, have the same locked edges and the same
/// winners.
pub proof fn lemma_tally_order_free(x: Seq<Seq<usize>>, y: Seq<Seq<usize>>, n: usize)
    requires
        x.to_multiset() == y.to_multiset(),
    ensures
        locked_edges(x, n) == locked_edges(y, n),
        forall|c: usize| is_winner(x, n, c) == is_winner(y, n, c),
{
    lemma_counts_order_free(x, y, n);
}

/// Two lists in proposal order that hold the same pairs are the same list.
pub proof fn lemma_proposal_order_unique(
    x: Seq<(usize, usize)>,
    y: Seq<(usize, usize)>,
    m: Map<(usize, usize), int>,
)
    requires
        in_proposal_order(x, m),
        in_proposal_order(y, m),
        forall|e: (usize, usize)| x.contains(e) <==> y.contains(e),
    ensures
        x == y,
{
    let lt = |p: (usize, usize), q: (usize, usize)| precedes(m, p, q);
    lemma_in_order_unique(x, y, lt);
}

/// A table has one ranked order, so the fixed tie-break leaves no choice.
pub proof fn lemma_ranked_order_unique(order: Seq<(usize, usize)>, m: Map<(usize, usize), int>, n: usize)
    requires
        is_ranked_order(order, m, n),
    ensures
        order == ranked_order(m, n),
{
    lemma_proposal_order_unique(order, ranked_order(m, n), m);
}

/// Whether the victory `p` is proposed before the victory `q`.
fn goes_before(table: &MarginTable, p: (usize, usize), q: (usize, usize)) -> (r: bool)
    requires
        table.wf(),
        is_victory(table@, table.candidates(), p),
        is_victory(table@, table.candidates(), q),
    ensures
        r == precedes(table@, p, q),
{
    let mp: usize = table.count(p.0, p.1) - table.count(p.1, p.0);
    let mq: usize = table.count(q.0, q.1) - table.count(q.1, q.0);
    mp > mq || (mp == mq && (p.0 < q.0 || (p.0 == q.0 && p.1 < q.1)))
}

/// Puts the victory `e` at its place in the list `order`.
fn insert_ranked(order: &mut Vec<(usize, usize)>, table: &MarginTable, e: (usize, usize))
    requires
        table.wf(),
        is_victory(table@, table.candidates(), e),
        in_proposal_order(old(order)@, table@),
        !old(order)@.contains(e),
        forall|k: int|
            0 <= k < old(order)@.len() ==> is_victory(table@, table.candidates(), #[trigger] old(order)@[k]),
    ensures
        in_proposal_order(final(order)@, table@),
        forall|x: (usize, usize)| final(order)@.contains(x) <==> old(order)@.contains(x) || x == e,
        forall|k: int|
            0 <= k < final(order)@.len() ==> is_victory(
                table@,
                table.candidates(),
                #[trigger] final(order)@[k],
            ),
{
    let ghost m = table@;
    let ghost before = order@;
    let mut k: usize = 0;
    while k < order.len() && goes_before(table, order[k], e)
        invariant
            table.wf(),
            m == table@,
            order@ == before,
            k <= before.len(),
            is_victory(m, table.candidates(), e),
            forall|i: int| 0 <= i < before.len() ==> is_victory(m, table.candidates(), #[trigger] before[i]),
            forall|i: int| 0 <= i < k ==> precedes(m, #[trigger] before[i], e),
        decreases before.len() - k,
    {
        k = k + 1;
    }
    order.insert(k, e);
    proof {
        let after = order@;
        let lt = |p: (usize, usize), q: (usize, usize)| precedes(m, p, q);
        assert forall|t: int| k <= t < before.len() implies precedes(m, e, #[trigger] before[t]) by {
            assert(before.contains(before[k as int]));
            assert(!precedes(m, before[k as int], e));
            if t > k {
                assert(precedes(m, before[k as int], before[t]));
            }
        }
        lemma_insert_in_order(before, k as int, e, lt);
        assert forall|i: int| 0 <= i < after.len() implies is_victory(
            m,
            table.candidates(),
            #[trigger] after[i],
        ) by {
            if i < k {
                assert(after[i] == before[i]);
            } else if i > k {
                assert(after[i] == before[i - 1]);
            }
        }
    }
}

/// Lists the victories of the table in the order in which they are
/// proposed: by descending margin, and among equal margins by ascending
/// winner, then ascending loser.
pub fn rank_victories(table: &MarginTable) -> (order: Vec<(usize, usize)>)
    requires
        table.wf(),
    ensures
        is_ranked_order(order@, table@, table.candidates()),
        order@ == ranked_order(table@, table.candidates()),
{
    let n: usize = table.candidate_count();
    let ghost m = table@;
    let mut order: Vec<(usize, usize)> = Vec::new();
    let mut a: usize = 0;
    proof {
        table.lemma_view();
    }
    while a < n
        invariant
            table.wf(),
            m == table@,
            n == table.candidates(),
            a <= n,
            in_proposal_order(order@, m),
            forall|k: int| 0 <= k < order@.len() ==> is_victory(m, n, #[trigger] order@[k]),
            forall|e: (usize, usize)| order@.contains(e) <==> is_victory(m, n, e) && e.0 < a,
        decreases n - a,
    {
        let mut b: usize = 0;
        while b < n
            invariant
                table.wf(),
                m == table@,
                n == table.candidates(),
                a < n,
                b <= n,
                in_proposal_order(order@, m),
                forall|k: int| 0 <= k < order@.len() ==> is_victory(m, n, #[trigger] order@[k]),
                forall|e: (usize, usize)|
                    order@.contains(e) <==> is_victory(m, n, e) && (e.0 < a || (e.0 == a && e.1 < b)),
            decreases n - b,
        {
            if table.count(a, b) > table.count(b, a) {
                insert_ranked(&mut order, table, (a, b));
            }
            b = b + 1;
        }
        a = a + 1;
    }
    proof {
        lemma_ranked_order_unique(order@, m, n);
    }
    order
}

/// Proposes the pairs of `order` one by one, first to last, and locks each in
/// unless it would close a cycle with those locked before it.
pub fn lock_in(order: &Vec<(usize, usize)>, candidates: usize) -> (graph: LockGraph)
    requires
        edges_within(order@, candidates),
    ensures
        graph.wf(),
        graph.nodes() == candidates,
        graph@ == lock_all(order@),
{
    let mut graph = LockGraph::new(candidates);
    let mut k: usize = 0;
    assert(order@.take(0) =~= Seq::<(usize, usize)>::empty());
    while k < order.len()
        invariant
            k <= order@.len(),
            edges_within(order@, candidates),
            graph.wf(),
            graph.nodes() == candidates,
            graph@ == lock_all(order@.take(k as int)),
        decreases order@.len() - k,
    {
        let e = order[k];
        proof {
            assert(order@.take(k as int + 1).drop_last() =~= order@.take(k as int));
            assert(order@.take(k as int + 1).last() == e);
        }
        graph.try_add_edge(e.0, e.1);
        k = k + 1;
    }
    assert(order@.take(k as int) =~= order@);
    graph
}

/// What the ranked-pairs method finds.
pub struct Tally {
    /// The locked edges, each from a winner to a loser, in the order in which
    /// they were locked.
    pub locked: Vec<(usize, usize)>,
    /// The winners, in ascending order.
    pub winners: Vec<usize>,
}

/// Counts numbered ballots by the ranked-pairs method. Each ballot ranks
/// candidates below `candidates`, the most preferred first, and names none
/// twice; ballots that do not are refused.
pub fn tally(ballots: &Vec<Vec<usize>>, candidates: usize) -> (r: Result<Tally, TallyError>)
    ensures
        match r {
            Ok(t) => {
                &&& all_entries_below(ballot_views(ballots@), candidates)
                &&& all_distinct(ballot_views(ballots@))
                &&& t.locked@ == locked_edges(ballot_views(ballots@), candidates)
                &&& edges_within(t.locked@, candidates)
                &&& forall|i: int, j: int| 0 <= i < j < t.winners@.len() ==> t.winners@[i] < t.winners@[j]
                &&& forall|c: usize|
                    t.winners@.contains(c) <==> is_winner(ballot_views(ballots@), candidates, c)
            },
            Err(e) => {
                &&& e == TallyError::InvalidCandidate <==> !all_entries_below(
                    ballot_views(ballots@),
                    candidates,
                )
                &&& e == TallyError::InvalidBallot <==> all_entries_below(
                    ballot_views(ballots@),
                    candidates,
                ) && !all_distinct(ballot_views(ballots@))
            },
        },
{
    match check_ballots(ballots, candidates) {
        Err(e) => Err(e),
        Ok(()) => {
            let table = tabulate_pairwise_results(ballots, candidates);
            let order = rank_victories(&table);
            proof {
                assert forall|k: int| 0 <= k < order@.len() implies (#[trigger] order@[k]).0
                    < candidates && order@[k].1 < candidates by {
                    assert(order@.contains(order@[k]));
                }
            }
            let graph = lock_in(&order, candidates);
            let winners = graph.roots();
            let locked = graph.into_edges();
            Ok(Tally { locked, winners })
        },
    }
}

/// The number of pairs at the head of `order` that are proposed before `e`.
pub open spec fn place_of(order: Seq<(usize, usize)>, m: Map<(usize, usize), int>, e: (usize, usize)) -> int
    decreases order.len(),
{
    if order.len() == 0 || !precedes(m, order[0], e) {
        0
    } else {
        1 + place_of(order.drop_first(), m, e)
    }
}

/// The list `order` with the pair `e` put before the first pair that is not
/// proposed before it.
pub open spec fn insert_pair(
    order: Seq<(usize, usize)>,
    m: Map<(usize, usize), int>,
    e: (usize, usize),
) -> Seq<(usize, usize)> {
    order.insert(place_of(order, m, e), e)
}

/// The place of a pair is behind the pairs that are proposed before it, and
/// at the first pair that is not.
proof fn lemma_place_of(order: Seq<(usize, usize)>, m: Map<(usize, usize), int>, e: (usize, usize))
    ensures
        0 <= place_of(order, m, e) <= order.len(),
        forall|i: int| 0 <= i < place_of(order, m, e) ==> precedes(m, #[trigger] order[i], e),
        place_of(order, m, e) < order.len() ==> !precedes(m, order[place_of(order, m, e)], e),
    decreases order.len(),
{
    if order.len() > 0 && precedes(m, order[0], e) {
        let rest = order.drop_first();
        lemma_place_of(rest, m, e);
        assert forall|i: int| 0 <= i < place_of(order, m, e) implies precedes(m, #[trigger] order[i], e) by {
            if i > 0 {
                assert(order[i] == rest[i - 1]);
            }
        }
        if place_of(order, m, e) < order.len() {
            assert(order[place_of(order, m, e)] == rest[place_of(rest, m, e)]);
        }
    }
}

/// Putting a new pair into a list in proposal order keeps the order and adds
/// that pair alone.
proof fn lemma_insert_pair(order: Seq<(usize, usize)>, m: Map<(usize, usize), int>, e: (usize, usize))
    requires
        in_proposal_order(order, m),
        !order.contains(e),
    ensures
        in_proposal_order(insert_pair(order, m, e), m),
        forall|x: (usize, usize)| insert_pair(order, m, e).contains(x) <==> order.contains(x) || x == e,
{
    let k = place_of(order, m, e);
    let lt = |p: (usize, usize), q: (usize, usize)| precedes(m, p, q);
    lemma_place_of(order, m, e);
    assert forall|t: int| k <= t < order.len() implies precedes(m, e, #[trigger] order[t]) by {
        assert(order.contains(order[k]));
        if t > k {
            assert(precedes(m, order[k], order[t]));
        }
    }
    lemma_insert_in_order(order, k, e, lt);
}

/// The victories whose winner is below `a`, or is `a` with a loser below
/// `b`, in proposal order.
pub open spec fn victories_before(m: Map<(usize, usize), int>, n: usize, a: nat, b: nat) -> Seq<
    (usize, usize),
>
    decreases a, b,
{
    if b == 0 {
        if a == 0 {
            Seq::empty()
        } else {
            victories_before(m, n, (a - 1) as nat, n as nat)
        }
    } else {
        let before = victories_before(m, n, a, (b - 1) as nat);
        let e = (a as usize, (b - 1) as usize);
        if is_victory(m, n, e) {
            insert_pair(before, m, e)
        } else {
            before
        }
    }
}

/// The list of [`victories_before`] is in proposal order and holds exactly
/// the victories that its name says.
proof fn lemma_victories_before(m: Map<(usize, usize), int>, n: usize, a: nat, b: nat)
    requires
        a <= n,
        b <= n,
    ensures
        in_proposal_order(victories_before(m, n, a, b), m),
        forall|x: (usize, usize)|
            victories_before(m, n, a, b).contains(x) <==> is_victory(m, n, x) && (x.0 < a || (x.0 == a
                && x.1 < b)),
    decreases a, b,
{
    let listed = victories_before(m, n, a, b);
    if b == 0 {
        if a > 0 {
            let above = victories_before(m, n, (a - 1) as nat, n as nat);
            lemma_victories_before(m, n, (a - 1) as nat, n as nat);
            assert(listed == above);
            assert forall|x: (usize, usize)| listed.contains(x) <==> is_victory(m, n, x) && x.0 < a by {
                assert(above.contains(x) <==> is_victory(m, n, x) && (x.0 < (a - 1) as nat || (x.0 == (a
                    - 1) as nat && x.1 < n as nat)));
                if is_victory(m, n, x) && x.0 < a {
                    assert(x.0 < a - 1 || (x.0 == a - 1 && x.1 < n));
                }
            }
        }
    } else {
        let before = victories_before(m, n, a, (b - 1) as nat);
        let e = (a as usize, (b - 1) as usize);
        lemma_victories_before(m, n, a, (b - 1) as nat);
        if is_victory(m, n, e) {
            assert(!before.contains(e));
            lemma_insert_pair(before, m, e);
        }
        assert forall|x: (usize, usize)|
            listed.contains(x) <==> is_victory(m, n, x) && (x.0 < a || (x.0 == a && x.1 < b)) by {
            assert(before.contains(x) <==> is_victory(m, n, x) && (x.0 < a || (x.0 == a && x.1 < (b
                - 1) as nat)));
            if is_victory(m, n, e) {
                assert(listed == insert_pair(before, m, e));
                assert(listed.contains(x) <==> before.contains(x) || x == e);
            } else {
                assert(listed == before);
            }
            if x.0 == a && x.1 == b - 1 {
                assert(x == e);
            }
        }
    }
}

/// Every table has a ranked order: its victories can be listed in proposal
/// order.
pub proof fn lemma_ranked_order_exists(m: Map<(usize, usize), int>, n: usize)
    ensures
        is_ranked_order(ranked_order(m, n), m, n),
{
    lemma_victories_before(m, n, n as nat, 0);
    assert(is_ranked_order(victories_before(m, n, n as nat, 0), m, n));
}

/// Whether `c` is a Condorcet winner: it has a majority over every other
/// candidate.
pub open spec fn is_condorcet_winner(m: Map<(usize, usize), int>, n: usize, c: usize) -> bool {
    c < n && forall|x: usize| x < n && x != c ==> margin(m, (c, x)) > 0
}

/// What is locked after some of the proposals stays locked after all of
/// them.
pub proof fn lemma_locked_stays(order: Seq<(usize, usize)>, k: int, e: (usize, usize))
    requires
        0 <= k <= order.len(),
        lock_all(order.take(k)).contains(e),
    ensures
        lock_all(order).contains(e),
    decreases order.len(),
{
    if k == order.len() {
        assert(order.take(k) =~= order);
    } else {
        assert(order.drop_last().take(k) =~= order.take(k));
        lemma_locked_stays(order.drop_last(), k, e);
        let before = lock_all(order.drop_last());
        let i = choose|i: int| 0 <= i < before.len() && before[i] == e;
        assert(lock_step(before, order.last())[i] == e);
    }
}

/// A Condorcet winner wins alone: no locked edge points at it, and one
/// points from it at every other candidate.
pub proof fn lemma_condorcet_winner_wins(
    order: Seq<(usize, usize)>,
    m: Map<(usize, usize), int>,
    n: usize,
    c: usize,
)
    requires
        is_ranked_order(order, m, n),
        is_condorcet_winner(m, n, c),
    ensures
        is_root(lock_all(order), c),
        forall|x: usize| x < n && x != c ==> lock_all(order).contains((c, x)),
        forall|x: usize| x < n && x != c ==> !is_root(lock_all(order), x),
{
    let locked = lock_all(order);
    lemma_lock_all_acyclic(order);
    // No victory is over `c`.
    assert forall|e: (usize, usize)| is_victory(m, n, e) implies e.1 != c by {
        if e.1 == c && e.0 != c {
            assert(margin(m, (c, e.0)) > 0);
        }
    }
    assert forall|k: int| 0 <= k < locked.len() implies (#[trigger] locked[k]).1 != c by {
        assert(locked.contains(locked[k]));
        assert(order.contains(locked[k]));
    }
    assert forall|x: usize| x < n && x != c implies locked.contains((c, x)) by {
        let e = (c, x);
        assert(is_victory(m, n, e));
        assert(order.contains(e));
        let i = choose|i: int| 0 <= i < order.len() && order[i] == e;
        let earlier = order.take(i);
        let before = lock_all(earlier);
        lemma_lock_all_acyclic(earlier);
        assert(order.take(i + 1).drop_last() =~= earlier);
        assert(order.take(i + 1).last() == e);
        assert(lock_all(order.take(i + 1)) == lock_step(before, e));
        if before.contains(e) {
            assert(earlier.contains(e));
            let j = choose|j: int| 0 <= j < earlier.len() && earlier[j] == e;
            assert(precedes(m, order[j], order[i]));
        }
        if reaches(before, x, c) {
            let p = choose|p: Seq<usize>| is_walk(before, p) && p[0] == x && p.last() == c;
            let last = hop(p, p.len() - 2);
            assert(before.contains(last));
            assert(earlier.contains(last));
            let j = choose|j: int| 0 <= j < earlier.len() && earlier[j] == last;
            assert(order[j] == last);
            assert(order.contains(last));
            assert(is_victory(m, n, last));
        }
        assert(admits(before, e));
        assert(before.push(e)[before.len() as int] == e);
        lemma_locked_stays(order, i + 1, e);
    }
    assert forall|x: usize| x < n && x != c implies !is_root(locked, x) by {
        assert(locked.contains((c, x)));
        let k = choose|k: int| 0 <= k < locked.len() && locked[k] == (c, x);
        assert(locked[k].1 == x);
    }
}

/// Where the ballots give one candidate a majority over every other, that
/// candidate is the one winner.
pub proof fn lemma_condorcet_winner_elected(ballots: Seq<Seq<usize>>, n: usize, c: usize)
    requires
        is_condorcet_winner(counts_of(ballots, n), n, c),
    ensures
        forall|x: usize| is_winner(ballots, n, x) <==> x == c,
{
    let m = counts_of(ballots, n);
    lemma_ranked_order_exists(m, n);
    lemma_condorcet_winner_wins(ranked_order(m, n), m, n, c);
}

/// Where there is a candidate, somebody wins.
pub proof fn lemma_somebody_wins(ballots: Seq<Seq<usize>>, n: usize)
    requires
        n > 0,
    ensures
        exists|c: usize| is_winner(ballots, n, c),
{
    let m = counts_of(ballots, n);
    let order = ranked_order(m, n);
    lemma_ranked_order_exists(m, n);
    assert forall|k: int| 0 <= k < order.len() implies (#[trigger] order[k]).0 < n && order[k].1 < n by {
        assert(order.contains(order[k]));
    }
    lemma_lock_all_rooted(order, n);
    assert(led_by_root(lock_all(order), n, 0));
    let r = choose|r: usize| r < n && is_root(lock_all(order), r) && (r == 0 || reaches(lock_all(order), r, 0));
    assert(is_winner(ballots, n, r));
}

} // verus!
