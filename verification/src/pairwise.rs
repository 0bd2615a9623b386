//! Pairwise counts: for every ordered pair of candidates, how many ballots
//! rank the first above the second.
use vstd::prelude::*;
use vstd::seq_lib::*;
use crate::lists::has_repeat;

verus! {

/// The rankings that a list of numbered ballots holds.
pub open spec fn ballot_views(ballots: Seq<Vec<usize>>) -> Seq<Seq<usize>> {
    ballots.map_values(|r: Vec<usize>| r@)
}

/// Whether every entry of `r` is a candidate below `n`.
pub open spec fn entries_below(r: Seq<usize>, n: usize) -> bool {
    forall|i: int| 0 <= i < r.len() ==> (#[trigger] r[i]) < n
}

/// Whether every entry of every ballot is a candidate below `n`.
pub open spec fn all_entries_below(ballots: Seq<Seq<usize>>, n: usize) -> bool {
    forall|k: int| 0 <= k < ballots.len() ==> entries_below(#[trigger] ballots[k], n)
}

/// Whether no ballot names a candidate twice.
pub open spec fn all_distinct(ballots: Seq<Seq<usize>>) -> bool {
    forall|k: int| 0 <= k < ballots.len() ==> (#[trigger] ballots[k]).no_duplicates()
}

/// Whether `a` stands at `i` and `b` at the later place `j` of `r`.
pub open spec fn placed(r: Seq<usize>, i: int, j: int, a: usize, b: usize) -> bool {
    0 <= i < j < r.len() && r[i] == a && r[j] == b
}

/// Whether the ranking `r` puts `a` strictly above `b`. A candidate that `r`
/// leaves out is neither above nor below any other.
pub open spec fn ranks_above(r: Seq<usize>, a: usize, b: usize) -> bool {
    exists|i: int, j: int| placed(r, i, j, a, b)
}

/// One ballot's part in the count of `a` over `b`.
pub open spec fn count_step(a: usize, b: usize) -> spec_fn(int, Seq<usize>) -> int {
    |acc: int, r: Seq<usize>|
        if ranks_above(r, a, b) {
            acc + 1
        } else {
            acc
        }
}

/// The number of ballots that rank `a` strictly above `b`.
pub open spec fn prefer_count(ballots: Seq<Seq<usize>>, a: usize, b: usize) -> int {
    ballots.fold_left(0int, count_step(a, b))
}

/// The majority of `a` over `b`: the ballots for `a` less those for `b`.
pub open spec fn majority(ballots: Seq<Seq<usize>>, a: usize, b: usize) -> int {
    prefer_count(ballots, a, b) - prefer_count(ballots, b, a)
}

/// A count takes one more ballot into account.
pub proof fn lemma_count_push(ballots: Seq<Seq<usize>>, r: Seq<usize>, a: usize, b: usize)
    ensures
        prefer_count(ballots.push(r), a, b) == prefer_count(ballots, a, b) + if ranks_above(r, a, b) {
            1int
        } else {
            0int
        },
{
    assert(ballots.push(r).drop_last() =~= ballots);
}

/// A count lies between zero and the number of ballots.
pub proof fn lemma_count_bounds(ballots: Seq<Seq<usize>>, a: usize, b: usize)
    ensures
        0 <= prefer_count(ballots, a, b) <= ballots.len(),
    decreases ballots.len(),
{
    if ballots.len() > 0 {
        lemma_count_bounds(ballots.drop_last(), a, b);
    }
}

/// The counts do not depend on the order of the ballots.
pub proof fn lemma_count_order_free(x: Seq<Seq<usize>>, y: Seq<Seq<usize>>, a: usize, b: usize)
    requires
        x.to_multiset() == y.to_multiset(),
    ensures
        prefer_count(x, a, b) == prefer_count(y, a, b),
{
    lemma_fold_left_permutation(x, y, count_step(a, b), 0int);
}

/// One ballot's part in the count of `a` over `b`, where the ballot is first
/// turned into a ranking by `f`.
pub open spec fn mapped_count_step<A>(f: spec_fn(A) -> Seq<usize>, a: usize, b: usize) -> spec_fn(
    int,
    A,
) -> int {
    |acc: int, x: A| count_step(a, b)(acc, f(x))
}

/// A count over ballots in another form is a fold over that form.
proof fn lemma_count_of_mapped<A>(x: Seq<A>, f: spec_fn(A) -> Seq<usize>, a: usize, b: usize)
    ensures
        prefer_count(x.map_values(f), a, b) == x.fold_left(0int, mapped_count_step(f, a, b)),
    decreases x.len(),
{
    if x.len() > 0 {
        lemma_count_of_mapped(x.drop_last(), f, a, b);
        assert(x.map_values(f).drop_last() =~= x.drop_last().map_values(f));
        assert(x.map_values(f).last() == f(x.last()));
    }
}

/// The counts do not depend on the order of the ballots, in whatever form
/// the ballots are held.
pub proof fn lemma_mapped_count_order_free<A>(
    x: Seq<A>,
    y: Seq<A>,
    f: spec_fn(A) -> Seq<usize>,
    a: usize,
    b: usize,
)
    requires
        x.to_multiset() == y.to_multiset(),
    ensures
        prefer_count(x.map_values(f), a, b) == prefer_count(y.map_values(f), a, b),
{
    lemma_count_of_mapped(x, f, a, b);
    lemma_count_of_mapped(y, f, a, b);
    lemma_fold_left_permutation(x, y, mapped_count_step(f, a, b), 0int);
}

/// Whether `m` has `n` rows of `n` entries.
pub open spec fn is_table(m: Seq<Vec<usize>>, n: usize) -> bool {
    &&& m.len() == n
    &&& forall|a: int| 0 <= a < n ==> (#[trigger] m[a])@.len() == n
}

/// Whether the table `m` holds the counts of `ballots`.
pub open spec fn holds_counts(m: Seq<Vec<usize>>, n: usize, ballots: Seq<Seq<usize>>) -> bool {
    &&& is_table(m, n)
    &&& forall|a: int, b: int|
        0 <= a < n && 0 <= b < n ==> (#[trigger] m[a]@[b]) == prefer_count(
            ballots,
            a as usize,
            b as usize,
        )
}

/// The pairs met so far while one ranking is counted: those whose upper
/// place is before `i`, and those from place `i` to a place before `j`.
pub open spec fn met(r: Seq<usize>, i: int, j: int, a: usize, b: usize) -> bool {
    exists|x: int, y: int| placed(r, x, y, a, b) && (x < i || (x == i && y < j))
}

/// One more pair of places is met: the pair of candidates that stand there,
/// which was not met before.
proof fn lemma_met_step(r: Seq<usize>, i: int, j: int, a: usize, b: usize)
    requires
        r.no_duplicates(),
        0 <= i < j < r.len(),
    ensures
        met(r, i, j + 1, a, b) == (met(r, i, j, a, b) || (r[i] == a && r[j] == b)),
        (r[i] == a && r[j] == b) ==> !met(r, i, j, a, b),
{
    if met(r, i, j + 1, a, b) {
        let (x, y) = choose|x: int, y: int| placed(r, x, y, a, b) && (x < i || (x == i && y < j + 1));
        if !(x == i && y == j) {
            assert(placed(r, x, y, a, b) && (x < i || (x == i && y < j)));
        }
    }
    if met(r, i, j, a, b) {
        let (x, y) = choose|x: int, y: int| placed(r, x, y, a, b) && (x < i || (x == i && y < j));
        assert(placed(r, x, y, a, b) && (x < i || (x == i && y < j + 1)));
        if r[i] == a && r[j] == b {
            assert(r[x] == r[i] && r[y] == r[j]);
        }
    }
    if r[i] == a && r[j] == b {
        assert(placed(r, i, j, a, b) && (i < i || (i == i && j < j + 1)));
    }
}

/// Having met every pair from place `i` is the state in which the pairs
/// from the next place are begun.
proof fn lemma_met_row(r: Seq<usize>, i: int, a: usize, b: usize)
    requires
        0 <= i < r.len(),
    ensures
        met(r, i, r.len() as int, a, b) == met(r, i + 1, i + 2, a, b),
{
    if met(r, i, r.len() as int, a, b) {
        let (x, y) = choose|x: int, y: int|
            placed(r, x, y, a, b) && (x < i || (x == i && y < r.len()));
        assert(placed(r, x, y, a, b) && (x < i + 1 || (x == i + 1 && y < i + 2)));
    }
    if met(r, i + 1, i + 2, a, b) {
        let (x, y) = choose|x: int, y: int|
            placed(r, x, y, a, b) && (x < i + 1 || (x == i + 1 && y < i + 2));
        assert(placed(r, x, y, a, b) && (x < i || (x == i && y < r.len())));
    }
}

/// At first no pair is met; at the end exactly the pairs that the ranking
/// orders are.
proof fn lemma_met_ends(r: Seq<usize>, a: usize, b: usize)
    ensures
        !met(r, 0, 1, a, b),
        met(r, r.len() as int, r.len() as int + 1, a, b) == ranks_above(r, a, b),
{
    if ranks_above(r, a, b) {
        let (x, y) = choose|x: int, y: int| placed(r, x, y, a, b);
        assert(placed(r, x, y, a, b) && (x < r.len() || (x == r.len() && y < r.len() + 1)));
    }
}

/// Adds one ranking to the counts: every candidate of it is counted once
/// over each candidate that it ranks lower.
fn count_ranking(counts: &mut Vec<Vec<usize>>, r: &Vec<usize>, n: usize, Ghost(seen): Ghost<Seq<Seq<usize>>>)
    requires
        holds_counts(old(counts)@, n, seen),
        entries_below(r@, n),
        r@.no_duplicates(),
        seen.len() < usize::MAX,
    ensures
        holds_counts(final(counts)@, n, seen.push(r@)),
{
    let len: usize = r.len();
    let mut i: usize = 0;
    proof {
        assert forall|a: usize, b: usize| !met(r@, 0, 1, a, b) by {
            lemma_met_ends(r@, a, b);
        }
    }
    while i < len
        invariant
            len == r@.len(),
            i <= len,
            is_table(counts@, n),
            entries_below(r@, n),
            r@.no_duplicates(),
            seen.len() < usize::MAX,
            forall|a: int, b: int|
                0 <= a < n && 0 <= b < n ==> (#[trigger] counts@[a]@[b]) == prefer_count(
                    seen,
                    a as usize,
                    b as usize,
                ) + if met(r@, i as int, i as int + 1, a as usize, b as usize) {
                    1int
                } else {
                    0int
                },
        decreases len - i,
    {
        let mut j: usize = i + 1;
        while j < len
            invariant
                len == r@.len(),
                i < j <= len,
                is_table(counts@, n),
                entries_below(r@, n),
                r@.no_duplicates(),
                seen.len() < usize::MAX,
                forall|a: int, b: int|
                    0 <= a < n && 0 <= b < n ==> (#[trigger] counts@[a]@[b]) == prefer_count(
                        seen,
                        a as usize,
                        b as usize,
                    ) + if met(r@, i as int, j as int, a as usize, b as usize) {
                        1int
                    } else {
                        0int
                    },
            decreases len - j,
        {
            let x: usize = r[i];
            let y: usize = r[j];
            let ghost before = counts@;
            proof {
                lemma_count_bounds(seen, x, y);
                lemma_met_step(r@, i as int, j as int, x, y);
                assert(before[x as int]@[y as int] == prefer_count(seen, x, y));
            }
            let c: usize = counts[x][y];
            counts[x][y] = c + 1;
            proof {
                assert forall|a: int, b: int| 0 <= a < n && 0 <= b < n implies (
                #[trigger] counts@[a]@[b]) == prefer_count(seen, a as usize, b as usize) + if met(
                    r@,
                    i as int,
                    j as int + 1,
                    a as usize,
                    b as usize,
                ) {
                    1int
                } else {
                    0int
                } by {
                    lemma_met_step(r@, i as int, j as int, a as usize, b as usize);
                    assert(before[a]@[b] == prefer_count(seen, a as usize, b as usize) + if met(
                        r@,
                        i as int,
                        j as int,
                        a as usize,
                        b as usize,
                    ) {
                        1int
                    } else {
                        0int
                    });
                }
            }
            j = j + 1;
        }
        proof {
            assert forall|a: usize, b: usize|
                met(r@, i as int, len as int, a, b) == met(r@, i as int + 1, i as int + 2, a, b) by {
                lemma_met_row(r@, i as int, a, b);
            }
        }
        i = i + 1;
    }
    proof {
        assert forall|a: int, b: int| 0 <= a < n && 0 <= b < n implies (#[trigger] counts@[a]@[b])
            == prefer_count(seen.push(r@), a as usize, b as usize) by {
            lemma_met_ends(r@, a as usize, b as usize);
            lemma_count_push(seen, r@, a as usize, b as usize);
        }
    }
}

/// Why a set of numbered ballots cannot be counted.
#[derive(Clone, Copy, Debug, PartialEq, Eq, Structural)]
pub enum TallyError {
    /// A ballot names a candidate twice.
    InvalidBallot,
    /// A ballot names a candidate that is not among those counted.
    InvalidCandidate,
}

/// The counts of `ballots` over the candidates below `n`, as a table from
/// ordered pairs to counts.
pub open spec fn counts_of(ballots: Seq<Seq<usize>>, n: usize) -> Map<(usize, usize), int> {
    Map::new(
        |p: (usize, usize)| p.0 < n && p.1 < n,
        |p: (usize, usize)| prefer_count(ballots, p.0, p.1),
    )
}

/// The order of the ballots does not change the table of counts.
pub proof fn lemma_counts_order_free(x: Seq<Seq<usize>>, y: Seq<Seq<usize>>, n: usize)
    requires
        x.to_multiset() == y.to_multiset(),
    ensures
        counts_of(x, n) == counts_of(y, n),
{
    assert forall|p: (usize, usize)| p.0 < n && p.1 < n implies prefer_count(x, p.0, p.1)
        == prefer_count(y, p.0, p.1) by {
        lemma_count_order_free(x, y, p.0, p.1);
    }
    assert(counts_of(x, n) =~= counts_of(y, n));
}

/// Whether the ranking names a candidate that is not below `n`.
fn names_stranger(r: &Vec<usize>, n: usize) -> (found: bool)
    ensures
        found == !entries_below(r@, n),
{
    let mut i: usize = 0;
    while i < r.len()
        invariant
            i <= r@.len(),
            forall|x: int| 0 <= x < i ==> (#[trigger] r@[x]) < n,
        decreases r@.len() - i,
    {
        if r[i] >= n {
            return true;
        }
        i = i + 1;
    }
    false
}

/// Checks that the ballots can be counted over the candidates below
/// `candidates`. A ballot that names a candidate out of that range is
/// reported first; if there is none, a ballot that names a candidate twice.
pub fn check_ballots(ballots: &Vec<Vec<usize>>, candidates: usize) -> (r: Result<(), TallyError>)
    ensures
        r == if !all_entries_below(ballot_views(ballots@), candidates) {
            Err::<(), TallyError>(TallyError::InvalidCandidate)
        } else if !all_distinct(ballot_views(ballots@)) {
            Err::<(), TallyError>(TallyError::InvalidBallot)
        } else {
            Ok::<(), TallyError>(())
        },
{
    let ghost views = ballot_views(ballots@);
    let mut k: usize = 0;
    while k < ballots.len()
        invariant
            k <= ballots@.len(),
            views == ballot_views(ballots@),
            forall|x: int| 0 <= x < k ==> entries_below(#[trigger] views[x], candidates),
        decreases ballots@.len() - k,
    {
        if names_stranger(&ballots[k], candidates) {
            assert(views[k as int] == ballots@[k as int]@);
            return Err(TallyError::InvalidCandidate);
        }
        assert(views[k as int] == ballots@[k as int]@);
        k = k + 1;
    }
    k = 0;
    while k < ballots.len()
        invariant
            k <= ballots@.len(),
            views == ballot_views(ballots@),
            all_entries_below(views, candidates),
            forall|x: int| 0 <= x < k ==> (#[trigger] views[x]).no_duplicates(),
        decreases ballots@.len() - k,
    {
        assert(views[k as int] == ballots@[k as int]@);
        assert(crate::lists::views(ballots@[k as int]@) =~= ballots@[k as int]@);
        if has_repeat(&ballots[k]) {
            return Err(TallyError::InvalidBallot);
        }
        k = k + 1;
    }
    Ok(())
}

/// The pairwise counts of a set of ballots over numbered candidates.
pub struct MarginTable {
    candidates: usize,
    counts: Vec<Vec<usize>>,
}

impl View for MarginTable {
    type V = Map<(usize, usize), int>;

    closed spec fn view(&self) -> Map<(usize, usize), int> {
        Map::new(
            |p: (usize, usize)| p.0 < self.candidates && p.1 < self.candidates,
            |p: (usize, usize)| self.counts@[p.0 as int]@[p.1 as int] as int,
        )
    }
}

impl MarginTable {
    /// The number of candidates that the table is over.
    pub closed spec fn candidates(&self) -> usize {
        self.candidates
    }

    /// The table's invariant: it has a count for every ordered pair of its
    /// candidates, and for no other pair.
    pub closed spec fn wf(&self) -> bool {
        is_table(self.counts@, self.candidates)
    }

    /// What the view of a table is made of.
    pub proof fn lemma_view(&self)
        requires
            self.wf(),
        ensures
            forall|p: (usize, usize)|
                self@.dom().contains(p) <==> p.0 < self.candidates() && p.1 < self.candidates(),
            forall|p: (usize, usize)| self@.dom().contains(p) ==> 0 <= #[trigger] self@[p],
    {
    }

    /// The number of candidates that the table is over.
    pub fn candidate_count(&self) -> (n: usize)
        ensures
            n == self.candidates(),
    {
        self.candidates
    }

    /// The number of ballots that rank `a` strictly above `b`.
    pub fn count(&self, a: usize, b: usize) -> (c: usize)
        requires
            self.wf(),
            a < self.candidates(),
            b < self.candidates(),
        ensures
            c == self@[(a, b)],
    {
        self.counts[a][b]
    }
}

/// Counts the ballots: for every ballot and every two places of its ranking,
/// the candidate at the earlier place is counted once over the candidate at
/// the later place. A ballot takes no part in the count of a pair of which
/// it leaves one candidate out.
pub fn tabulate_pairwise_results(ballots: &Vec<Vec<usize>>, candidates: usize) -> (table: MarginTable)
    requires
        all_entries_below(ballot_views(ballots@), candidates),
        all_distinct(ballot_views(ballots@)),
    ensures
        table.wf(),
        table.candidates() == candidates,
        table@ == counts_of(ballot_views(ballots@), candidates),
{
    let ghost views = ballot_views(ballots@);
    let mut counts: Vec<Vec<usize>> = Vec::new();
    let mut a: usize = 0;
    while a < candidates
        invariant
            a <= candidates,
            counts@.len() == a,
            forall|x: int| 0 <= x < a ==> (#[trigger] counts@[x])@.len() == candidates,
            forall|x: int, y: int| 0 <= x < a && 0 <= y < candidates ==> (#[trigger] counts@[x]@[y]) == 0,
        decreases candidates - a,
    {
        let mut row: Vec<usize> = Vec::new();
        let mut b: usize = 0;
        while b < candidates
            invariant
                b <= candidates,
                row@.len() == b,
                forall|y: int| 0 <= y < b ==> (#[trigger] row@[y]) == 0,
            decreases candidates - b,
        {
            row.push(0);
            b = b + 1;
        }
        counts.push(row);
        a = a + 1;
    }
    let mut k: usize = 0;
    assert(views.take(0) =~= Seq::<Seq<usize>>::empty());
    while k < ballots.len()
        invariant
            k <= ballots@.len(),
            views == ballot_views(ballots@),
            all_entries_below(views, candidates),
            all_distinct(views),
            holds_counts(counts@, candidates, views.take(k as int)),
        decreases ballots@.len() - k,
    {
        assert(views[k as int] == ballots@[k as int]@);
        assert(views.take(k as int).push(views[k as int]) =~= views.take(k as int + 1));
        count_ranking(&mut counts, &ballots[k], candidates, Ghost(views.take(k as int)));
        k = k + 1;
    }
    assert(views.take(k as int) =~= views);
    let table = MarginTable { candidates, counts };
    assert(table@ =~= counts_of(views, candidates));
    table
}

} // verus!
