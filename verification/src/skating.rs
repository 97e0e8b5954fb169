//! The Skating System rank calculator: per-dance consensus ranks from
//! raw judge placements, the overall rank with the cascading tie-break,
//! and the WDSF score-math check.

use vstd::prelude::*;
use vstd::math::abs;
use vstd::set_lib::lemma_len_subset;
use vstd::set_lib::set_int_range;
use vstd::set_lib::lemma_int_range;
use crate::models::WDSFScore;

verus! {

/// Raw marks of one dance: the judges on the panel, the entrants'
/// starting numbers, and `marks[j][i]`, the placement judge `j` gave
/// entrant `bibs[i]`.
#[derive(Clone, Debug)]
pub struct DanceMarks {
    pub judges: Vec<String>,
    pub bibs: Vec<u32>,
    pub marks: Vec<Vec<u32>>,
}

impl DanceMarks {
    /// The placement matrix as a sequence of per-judge rows.
    pub open spec fn mark_table(self) -> Seq<Seq<u32>> {
        self.marks.deep_view()
    }

    /// One mark row per judge, one entry per entrant in every row.
    pub open spec fn wf(self) -> bool {
        &&& self.marks@.len() == self.judges@.len()
        &&& forall|j: int|
            0 <= j < self.marks@.len() ==> (#[trigger] self.marks@[j])@.len() == self.bibs@.len()
    }
}

/// The absolute majority of `judges` judges.
pub open spec fn spec_majority(judges: int) -> int {
    judges / 2 + 1
}

/// Number of marks for entrant `i` at or better than threshold `r`
/// among the first `j` judges.
pub open spec fn count_le_upto(m: Seq<Seq<u32>>, i: int, r: int, j: int) -> int
    decreases j,
{
    if j <= 0 {
        0
    } else {
        count_le_upto(m, i, r, j - 1) + (if m[j - 1][i] <= r {
            1int
        } else {
            0int
        })
    }
}

/// Number of judges that placed entrant `i` at or better than `r`.
pub open spec fn count_le(m: Seq<Seq<u32>>, i: int, r: int) -> int {
    count_le_upto(m, i, r, m.len() as int)
}

/// Sum of the marks for entrant `i` at or better than threshold `r`
/// among the first `j` judges.
pub open spec fn sum_le_upto(m: Seq<Seq<u32>>, i: int, r: int, j: int) -> int
    decreases j,
{
    if j <= 0 {
        0
    } else {
        sum_le_upto(m, i, r, j - 1) + (if m[j - 1][i] <= r {
            m[j - 1][i] as int
        } else {
            0int
        })
    }
}

/// Sum of the placements for entrant `i` at or better than `r`.
pub open spec fn sum_le(m: Seq<Seq<u32>>, i: int, r: int) -> int {
    sum_le_upto(m, i, r, m.len() as int)
}

/// Entrant `i` holds a majority of placements at or better than `r`.
pub open spec fn is_candidate(m: Seq<Seq<u32>>, maj: int, i: int, r: int) -> bool {
    count_le(m, i, r) >= maj
}

/// At threshold `r`, entrant `i` beats entrant `k`: a greater majority
/// count wins, and on equal counts the lower sum of placements wins.
pub open spec fn better_key(m: Seq<Seq<u32>>, r: int, i: int, k: int) -> bool {
    ||| count_le(m, i, r) > count_le(m, k, r)
    ||| (count_le(m, i, r) == count_le(m, k, r) && sum_le(m, i, r) < sum_le(m, k, r))
}

/// The leading tie block at threshold `r`: the candidates among `rem`
/// that no other candidate in `rem` beats.  All its members share one
/// (count, sum) key.
pub open spec fn best_block(m: Seq<Seq<u32>>, maj: int, rem: Set<int>, r: int) -> Set<int> {
    Set::new(
        |i: int|
            rem.contains(i) && is_candidate(m, maj, i, r) && (forall|k: int|
                rem.contains(k) && is_candidate(m, maj, k, r) ==> !better_key(m, r, k, i)),
    )
}

/// Every entrant of `s` ranked at `place`.
pub open spec fn rank_all(s: Set<int>, place: int) -> Map<int, int> {
    Map::new(|i: int| s.contains(i), |i: int| place)
}

/// The Skating System cascade, one dance.  For thresholds `r` up to the
/// field size `n`: the leading tie block among the remaining entrants
/// is committed at the next place if it has a single member or `r` has
/// reached `n`; an unresolved multi-member block sends the cascade to
/// the next threshold; entrants never separated by any threshold share
/// the outstanding place in the end.
pub open spec fn spec_skate(
    m: Seq<Seq<u32>>,
    maj: int,
    n: int,
    rem: Set<int>,
    place: int,
    r: int,
) -> Map<int, int>
    decreases n + 1 - r, rem.len(),
        when rem.finite() && 1 <= r && r <= n + 1
{
    if r > n || rem.is_empty() {
        rank_all(rem, place)
    } else {
        let blk = best_block(m, maj, rem, r);
        if blk.is_empty() || (blk.len() > 1 && r < n) {
            spec_skate(m, maj, n, rem, place, r + 1)
        } else {
            proof {
                lemma_block_shrinks(rem, blk);
            }
            rank_all(blk, place).union_prefer_right(
                spec_skate(m, maj, n, rem.difference(blk), place + blk.len(), r),
            )
        }
    }
}

/// Removing a nonempty subset strictly shrinks a finite set.
pub proof fn lemma_block_shrinks(rem: Set<int>, blk: Set<int>)
    requires
        rem.finite(),
        blk.subset_of(rem),
        !blk.is_empty(),
    ensures
        rem.difference(blk).finite(),
        rem.difference(blk).len() < rem.len(),
{
    let x = blk.choose();
    assert(blk.contains(x));
    lemma_len_subset(rem.difference(blk), rem.remove(x));
    assert(rem.remove(x).len() == rem.len() - 1);
}

/// A subset splits the size of a finite set.
pub proof fn lemma_len_split(s: Set<int>, sub: Set<int>)
    requires
        s.finite(),
        sub.subset_of(s),
    ensures
        sub.finite(),
        s.difference(sub).finite(),
        s.difference(sub).len() == s.len() - sub.len(),
    decreases s.len(),
{
    lemma_len_subset(sub, s);
    lemma_len_subset(s.difference(sub), s);
    if sub.is_empty() {
        assert(s.difference(sub) =~= s);
    } else {
        let x = sub.choose();
        assert(sub.contains(x));
        assert(s.difference(sub) =~= s.remove(x).difference(sub.remove(x)));
        assert(sub.remove(x).subset_of(s.remove(x)));
        assert(s.remove(x).len() == s.len() - 1);
        lemma_len_split(s.remove(x), sub.remove(x));
    }
}

/// The cascade ranks exactly the remaining entrants, with places
/// between `place` and `place + rem.len() - 1`.
pub proof fn lemma_skate_dom(
    m: Seq<Seq<u32>>,
    maj: int,
    n: int,
    rem: Set<int>,
    place: int,
    r: int,
)
    requires
        rem.finite(),
        1 <= r <= n + 1,
    ensures
        spec_skate(m, maj, n, rem, place, r).dom() == rem,
        forall|i: int|
            rem.contains(i) ==> place <= #[trigger] spec_skate(m, maj, n, rem, place, r)[i]
                <= place + rem.len() - 1,
    decreases n + 1 - r, rem.len(),
{
    let sk = spec_skate(m, maj, n, rem, place, r);
    if r > n || rem.is_empty() {
        assert(sk.dom() =~= rem);
    } else {
        let blk = best_block(m, maj, rem, r);
        if blk.is_empty() || (blk.len() > 1 && r < n) {
            lemma_skate_dom(m, maj, n, rem, place, r + 1);
            assert(sk.dom() =~= rem);
        } else {
            lemma_block_shrinks(rem, blk);
            lemma_len_split(rem, blk);
            let rest = spec_skate(m, maj, n, rem.difference(blk), place + blk.len(), r);
            lemma_skate_dom(m, maj, n, rem.difference(blk), place + blk.len(), r);
            assert(sk.dom() =~= rem);
            assert forall|i: int| rem.contains(i) implies place <= #[trigger] sk[i] <= place
                + rem.len() - 1 by {
                if rem.difference(blk).contains(i) {
                    assert(sk[i] == rest[i]);
                } else {
                    assert(blk.contains(i));
                    assert(sk[i] == place);
                }
            }
        }
    }
}

/// The consensus ranking of one dance over the full field of `n`
/// entrants, majority taken from the panel size.
pub open spec fn spec_dance_ranking(m: Seq<Seq<u32>>, n: int) -> Map<int, int> {
    spec_skate(m, spec_majority(m.len() as int), n, set_int_range(0, n), 1, 1)
}

/// The entrants of `rem` ranked strictly better than value `v`.
pub open spec fn ranked_below(sk: Map<int, int>, rem: Set<int>, v: int) -> Set<int> {
    Set::new(|k: int| rem.contains(k) && sk.dom().contains(k) && sk[k] < v)
}

/// The cascade assigns skip-style places: every entrant's place
/// exceeds `place` by exactly the number of entrants ranked strictly
/// better, so a tie block of size `b` at value `v` is followed by the
/// value `v + b`.
pub proof fn lemma_skate_skip(m: Seq<Seq<u32>>, maj: int, n: int, rem: Set<int>, place: int, r: int)
    requires
        rem.finite(),
        1 <= r <= n + 1,
    ensures
        forall|i: int|
            rem.contains(i) ==> #[trigger] spec_skate(m, maj, n, rem, place, r)[i] == place
                + ranked_below(
                spec_skate(m, maj, n, rem, place, r),
                rem,
                spec_skate(m, maj, n, rem, place, r)[i],
            ).len(),
    decreases n + 1 - r, rem.len(),
{
    let sk = spec_skate(m, maj, n, rem, place, r);
    lemma_skate_dom(m, maj, n, rem, place, r);
    if r > n || rem.is_empty() {
        assert forall|i: int| rem.contains(i) implies #[trigger] sk[i] == place + ranked_below(
            sk,
            rem,
            sk[i],
        ).len() by {
            assert(ranked_below(sk, rem, sk[i]) =~= Set::<int>::empty());
        }
    } else {
        let blk = best_block(m, maj, rem, r);
        if blk.is_empty() || (blk.len() > 1 && r < n) {
            lemma_skate_skip(m, maj, n, rem, place, r + 1);
            let sk2 = spec_skate(m, maj, n, rem, place, r + 1);
            assert(sk == sk2);
            assert forall|i: int| rem.contains(i) implies #[trigger] sk[i] == place
                + ranked_below(sk, rem, sk[i]).len() by {
                assert(sk2[i] == place + ranked_below(sk2, rem, sk2[i]).len());
            }
        } else {
            lemma_block_shrinks(rem, blk);
            lemma_len_split(rem, blk);
            let rem2 = rem.difference(blk);
            let place2 = place + blk.len();
            let rest = spec_skate(m, maj, n, rem2, place2, r);
            lemma_skate_dom(m, maj, n, rem2, place2, r);
            lemma_skate_skip(m, maj, n, rem2, place2, r);
            assert forall|i: int| rem.contains(i) implies #[trigger] sk[i] == place
                + ranked_below(sk, rem, sk[i]).len() by {
                if blk.contains(i) {
                    assert(sk[i] == place);
                    assert(ranked_below(sk, rem, place) =~= Set::<int>::empty()) by {
                        assert forall|k: int| !(rem.contains(k) && sk.dom().contains(k) && sk[k]
                            < place) by {
                            if rem.contains(k) {
                                if blk.contains(k) {
                                    assert(sk[k] == place);
                                } else {
                                    assert(sk[k] == rest[k]);
                                    assert(rest[k] >= place2);
                                }
                            }
                        }
                    }
                } else {
                    assert(rem2.contains(i));
                    assert(sk[i] == rest[i]);
                    assert(rest[i] >= place2);
                    assert(rest[i] == place2 + ranked_below(rest, rem2, rest[i]).len());
                    let below_all = ranked_below(sk, rem, sk[i]);
                    let below_rest = ranked_below(rest, rem2, rest[i]);
                    assert(below_all =~= blk.union(below_rest)) by {
                        assert forall|k: int| below_all.contains(k) implies blk.union(
                            below_rest,
                        ).contains(k) by {
                            if !blk.contains(k) {
                                assert(rem2.contains(k));
                                assert(sk[k] == rest[k]);
                            }
                        }
                        assert forall|k: int| blk.union(below_rest).contains(k) implies
                            below_all.contains(k) by {
                            if blk.contains(k) {
                                assert(sk[k] == place);
                                assert(place < place2 <= rest[i]);
                            } else {
                                assert(sk[k] == rest[k]);
                            }
                        }
                    }
                    assert(blk.disjoint(below_rest));
                    lemma_len_subset(below_rest, rem2);
                    assert(blk.union(below_rest).difference(blk) =~= below_rest);
                    lemma_len_split(blk.union(below_rest), blk);
                    assert(below_all.len() == blk.len() + below_rest.len());
                }
            }
        }
    }
}

/// The ranks of one dance form a total skip-style ranking: every
/// entrant is ranked, places lie between 1 and the field size, and
/// each place is one more than the number of entrants ranked strictly
/// better — tied entrants therefore share the lowest number of their
/// block, and the numbers a block of size `b` at place `v` skips are
/// exactly `v + 1` up to `v + b - 1`.
pub proof fn lemma_skip_style_ranking(m: Seq<Seq<u32>>, n: int)
    requires
        n >= 0,
    ensures
        spec_dance_ranking(m, n).dom() == set_int_range(0, n),
        forall|i: int|
            0 <= i < n ==> 1 <= #[trigger] spec_dance_ranking(m, n)[i] <= n,
        forall|i: int|
            0 <= i < n ==> #[trigger] spec_dance_ranking(m, n)[i] == 1 + ranked_below(
                spec_dance_ranking(m, n),
                set_int_range(0, n),
                spec_dance_ranking(m, n)[i],
            ).len(),
{
    lemma_int_range(0, n);
    lemma_skate_dom(m, spec_majority(m.len() as int), n, set_int_range(0, n), 1, 1);
    lemma_skate_skip(m, spec_majority(m.len() as int), n, set_int_range(0, n), 1, 1);
}

/// Ranking is deterministic: the consensus ranks are a function of
/// the mark table and field size alone, so repeated calls on
/// identical input yield identical output.
pub proof fn lemma_dance_ranking_deterministic(m1: Seq<Seq<u32>>, m2: Seq<Seq<u32>>, n: int)
    requires
        m1 == m2,
    ensures
        spec_dance_ranking(m1, n) == spec_dance_ranking(m2, n),
{
}

/// The overall rank is a function of the rank table and pooled marks
/// alone, so repeated calls on identical input yield identical
/// output.
pub proof fn lemma_overall_rank_deterministic(
    dr1: Seq<Seq<u32>>,
    dr2: Seq<Seq<u32>>,
    ms1: Option<Seq<Seq<Seq<u32>>>>,
    ms2: Option<Seq<Seq<Seq<u32>>>>,
    n: int,
    i: int,
)
    requires
        dr1 == dr2,
        ms1 == ms2,
    ensures
        spec_overall_rank(dr1, ms1, n, i) == spec_overall_rank(dr2, ms2, n, i),
{
}

/// Entrants with equal mark columns have equal tallies.
proof fn lemma_equal_cols_tally(m: Seq<Seq<u32>>, a: int, b: int, r: int, j: int)
    requires
        0 <= j <= m.len(),
        forall|q: int| 0 <= q < m.len() ==> (#[trigger] m[q])[a] == m[q][b],
    ensures
        count_le_upto(m, a, r, j) == count_le_upto(m, b, r, j),
        sum_le_upto(m, a, r, j) == sum_le_upto(m, b, r, j),
    decreases j,
{
    if j > 0 {
        lemma_equal_cols_tally(m, a, b, r, j - 1);
    }
}

/// Two entrants the judges never separate stay together through the
/// whole cascade and share one place.
pub proof fn lemma_skate_equal_cols(
    m: Seq<Seq<u32>>,
    maj: int,
    n: int,
    rem: Set<int>,
    place: int,
    r: int,
    a: int,
    b: int,
)
    requires
        rem.finite(),
        1 <= r <= n + 1,
        rem.contains(a),
        rem.contains(b),
        forall|q: int| 0 <= q < m.len() ==> (#[trigger] m[q])[a] == m[q][b],
    ensures
        spec_skate(m, maj, n, rem, place, r)[a] == spec_skate(m, maj, n, rem, place, r)[b],
    decreases n + 1 - r, rem.len(),
{
    let sk = spec_skate(m, maj, n, rem, place, r);
    lemma_equal_cols_tally(m, a, b, r, m.len() as int);
    if r > n || rem.is_empty() {
    } else {
        let blk = best_block(m, maj, rem, r);
        if blk.is_empty() || (blk.len() > 1 && r < n) {
            lemma_skate_equal_cols(m, maj, n, rem, place, r + 1, a, b);
        } else {
            lemma_block_shrinks(rem, blk);
            let rem2 = rem.difference(blk);
            let place2 = place + blk.len();
            let rest = spec_skate(m, maj, n, rem2, place2, r);
            lemma_skate_dom(m, maj, n, rem2, place2, r);
            // Equal keys put the two entrants in the same block.
            assert(blk.contains(a) <==> blk.contains(b)) by {
                assert forall|k: int|
                    rem.contains(k) && is_candidate(m, maj, k, r) implies (better_key(m, r, k, a)
                    <==> better_key(m, r, k, b)) by {}
            }
            if blk.contains(a) {
                assert(sk[a] == place);
                assert(sk[b] == place);
            } else {
                lemma_skate_equal_cols(m, maj, n, rem2, place2, r, a, b);
                assert(sk[a] == rest[a]);
                assert(sk[b] == rest[b]);
            }
        }
    }
}

/// Unbreakable tie, one dance: if every judge gives two entrants the
/// same placement, the cascade ranks them equal.
pub proof fn lemma_dance_unbreakable_tie(m: Seq<Seq<u32>>, n: int, a: int, b: int)
    requires
        0 <= a < n,
        0 <= b < n,
        forall|q: int| 0 <= q < m.len() ==> (#[trigger] m[q])[a] == m[q][b],
    ensures
        spec_dance_ranking(m, n)[a] == spec_dance_ranking(m, n)[b],
{
    lemma_int_range(0, n);
    lemma_skate_equal_cols(
        m,
        spec_majority(m.len() as int),
        n,
        set_int_range(0, n),
        1,
        1,
        a,
        b,
    );
}

/// Entrants with equal rank columns have equal sums of ranks.
proof fn lemma_equal_cols_sum_ranks(dr: Seq<Seq<u32>>, a: int, b: int, d: int)
    requires
        0 <= d <= dr.len(),
        forall|q: int| 0 <= q < dr.len() ==> (#[trigger] dr[q])[a] == dr[q][b],
    ensures
        sum_ranks_upto(dr, a, d) == sum_ranks_upto(dr, b, d),
    decreases d,
{
    if d > 0 {
        lemma_equal_cols_sum_ranks(dr, a, b, d - 1);
    }
}

/// Entrants with equal placement columns in every dance have equal
/// pooled placement lists.
proof fn lemma_equal_cols_pooled(ms: Seq<Seq<Seq<u32>>>, a: int, b: int, d: int)
    requires
        0 <= d <= ms.len(),
        forall|q: int, j: int|
            0 <= q < ms.len() && 0 <= j < (#[trigger] ms[q]).len() ==> (#[trigger] ms[q][j])[a]
                == ms[q][j][b],
    ensures
        pooled_upto(ms, a, d) == pooled_upto(ms, b, d),
    decreases d,
{
    if d > 0 {
        lemma_equal_cols_pooled(ms, a, b, d - 1);
        assert(column(ms[d - 1], a) =~= column(ms[d - 1], b));
    }
}

/// Unbreakable tie, overall: if two entrants hold equal per-dance
/// ranks and every judge gave them the same placement in every dance,
/// the overall ranking ranks them equal.
pub proof fn lemma_unbreakable_tie(
    dr: Seq<Seq<u32>>,
    ms: Option<Seq<Seq<Seq<u32>>>>,
    n: int,
    a: int,
    b: int,
)
    requires
        0 <= a < n,
        0 <= b < n,
        forall|q: int| 0 <= q < dr.len() ==> (#[trigger] dr[q])[a] == dr[q][b],
        match ms {
            Some(mm) => forall|q: int, j: int|
                0 <= q < mm.len() && 0 <= j < (#[trigger] mm[q]).len() ==> (#[trigger] mm[q][j])[a]
                    == mm[q][j][b],
            None => true,
        },
    ensures
        spec_overall_rank(dr, ms, n, a) == spec_overall_rank(dr, ms, n, b),
{
    lemma_equal_cols_sum_ranks(dr, a, b, dr.len() as int);
    match ms {
        Some(mm) => {
            lemma_equal_cols_pooled(mm, a, b, mm.len() as int);
        },
        None => {},
    }
    lemma_count_better_equal(dr, ms, a, b, n);
}

/// Entrants with equal sums and equal pooled lists are beaten by
/// exactly the same entrants.
proof fn lemma_count_better_equal(
    dr: Seq<Seq<u32>>,
    ms: Option<Seq<Seq<Seq<u32>>>>,
    a: int,
    b: int,
    k: int,
)
    requires
        k >= 0,
        sum_ranks(dr, a) == sum_ranks(dr, b),
        match ms {
            Some(mm) => pooled(mm, a) == pooled(mm, b),
            None => true,
        },
    ensures
        count_better_upto(dr, ms, a, k) == count_better_upto(dr, ms, b, k),
    decreases k,
{
    if k > 0 {
        lemma_count_better_equal(dr, ms, a, b, k - 1);
        match ms {
            Some(mm) => {
                lemma_cmp11_refl(pooled(mm, a));
                assert(spec_cmp11(pooled(mm, k - 1), pooled(mm, a)) == spec_cmp11(
                    pooled(mm, k - 1),
                    pooled(mm, b),
                ));
                if k - 1 == a || k - 1 == b {
                    assert(spec_cmp11(pooled(mm, k - 1), pooled(mm, a)) == Cmp::Eq);
                }
            },
            None => {},
        }
        assert(spec_better_overall(dr, ms, k - 1, a) == spec_better_overall(dr, ms, k - 1, b));
    }
}

/// When every mark of `x` beats the corresponding mark of `y`, `x`'s
/// tally dominates `y`'s at every threshold: never a smaller count,
/// and on equal nonzero counts a strictly smaller sum.
proof fn lemma_dominated_tally(m: Seq<Seq<u32>>, x: int, y: int, r: int, j: int)
    requires
        0 <= j <= m.len(),
        forall|q: int| 0 <= q < m.len() ==> (#[trigger] m[q])[x] < m[q][y],
    ensures
        count_le_upto(m, x, r, j) >= count_le_upto(m, y, r, j),
        count_le_upto(m, x, r, j) == count_le_upto(m, y, r, j) ==> sum_le_upto(m, x, r, j)
            <= sum_le_upto(m, y, r, j),
        count_le_upto(m, x, r, j) == count_le_upto(m, y, r, j) && count_le_upto(m, y, r, j) > 0
            ==> sum_le_upto(m, x, r, j) < sum_le_upto(m, y, r, j),
    decreases j,
{
    if j > 0 {
        lemma_dominated_tally(m, x, y, r, j - 1);
        lemma_tally_bounds(m, y, r, j - 1);
    }
}

/// Majority monotonicity through the cascade: an entrant every judge
/// placed strictly ahead of another is never ranked behind it.
pub proof fn lemma_skate_monotone(
    m: Seq<Seq<u32>>,
    maj: int,
    n: int,
    rem: Set<int>,
    place: int,
    r: int,
    x: int,
    y: int,
)
    requires
        rem.finite(),
        1 <= r <= n + 1,
        maj >= 1,
        rem.contains(x),
        rem.contains(y),
        forall|q: int| 0 <= q < m.len() ==> (#[trigger] m[q])[x] < m[q][y],
    ensures
        spec_skate(m, maj, n, rem, place, r)[x] <= spec_skate(m, maj, n, rem, place, r)[y],
    decreases n + 1 - r, rem.len(),
{
    let sk = spec_skate(m, maj, n, rem, place, r);
    if r > n || rem.is_empty() {
    } else {
        let blk = best_block(m, maj, rem, r);
        if blk.is_empty() || (blk.len() > 1 && r < n) {
            lemma_skate_monotone(m, maj, n, rem, place, r + 1, x, y);
        } else {
            lemma_block_shrinks(rem, blk);
            let rem2 = rem.difference(blk);
            let place2 = place + blk.len();
            lemma_skate_dom(m, maj, n, rem2, place2, r);
            lemma_dominated_tally(m, x, y, r, m.len() as int);
            if blk.contains(y) && !blk.contains(x) {
                // Impossible: `x` is then a candidate that beats `y`.
                assert(is_candidate(m, maj, y, r));
                assert(count_le(m, x, r) >= count_le(m, y, r) >= maj);
                assert(is_candidate(m, maj, x, r));
                assert(!better_key(m, r, x, y));
                assert(false);
            } else if blk.contains(x) {
                assert(sk[x] == place);
                if blk.contains(y) {
                    assert(sk[y] == place);
                } else {
                    assert(rem2.contains(y));
                    assert(sk[y] == spec_skate(m, maj, n, rem2, place2, r)[y]);
                    assert(sk[y] >= place2);
                }
            } else {
                assert(rem2.contains(x) && rem2.contains(y));
                lemma_skate_monotone(m, maj, n, rem2, place2, r, x, y);
                assert(sk[x] == spec_skate(m, maj, n, rem2, place2, r)[x]);
                assert(sk[y] == spec_skate(m, maj, n, rem2, place2, r)[y]);
            }
        }
    }
}

/// Majority monotonicity: if every judge places one entrant strictly
/// ahead of another, the first entrant's consensus rank is at most
/// the second's.
pub proof fn lemma_majority_monotonicity(m: Seq<Seq<u32>>, n: int, x: int, y: int)
    requires
        0 <= x < n,
        0 <= y < n,
        forall|q: int| 0 <= q < m.len() ==> (#[trigger] m[q])[x] < m[q][y],
    ensures
        spec_dance_ranking(m, n)[x] <= spec_dance_ranking(m, n)[y],
{
    lemma_int_range(0, n);
    lemma_skate_monotone(
        m,
        spec_majority(m.len() as int),
        n,
        set_int_range(0, n),
        1,
        1,
        x,
        y,
    );
}

/// Bounds on the partial count and sum of marks.
pub proof fn lemma_tally_bounds(m: Seq<Seq<u32>>, i: int, r: int, j: int)
    requires
        j >= 0,
    ensures
        0 <= count_le_upto(m, i, r, j) <= j,
        0 <= sum_le_upto(m, i, r, j) <= j * 0xFFFF_FFFF,
    decreases j,
{
    if j > 0 {
        lemma_tally_bounds(m, i, r, j - 1);
    }
}

/// Counts the placements of entrant `i` at or better than threshold
/// `r` and sums them up.
fn tally(marks: &Vec<Vec<u32>>, i: usize, r: u32) -> (cs: (usize, u64))
    requires
        forall|j: int| 0 <= j < marks@.len() ==> i < (#[trigger] marks@[j])@.len(),
        marks@.len() <= u32::MAX,
    ensures
        cs.0 as int == count_le(marks.deep_view(), i as int, r as int),
        cs.1 as int == sum_le(marks.deep_view(), i as int, r as int),
{
    let ghost dv = marks.deep_view();
    let jn = marks.len();
    let mut count: usize = 0;
    let mut total: u64 = 0;
    let mut j: usize = 0;
    while j < jn
        invariant
            jn == marks@.len(),
            jn <= u32::MAX,
            dv == marks.deep_view(),
            forall|t: int| 0 <= t < marks@.len() ==> i < (#[trigger] marks@[t])@.len(),
            j <= jn,
            count as int == count_le_upto(dv, i as int, r as int, j as int),
            total as int == sum_le_upto(dv, i as int, r as int, j as int),
            count <= j,
            total as int <= j as int * 0xFFFF_FFFF,
        decreases jn - j,
    {
        let mk = marks[j][i];
        proof {
            assert(dv[j as int][i as int] == marks@[j as int]@[i as int]);
        }
        if mk <= r {
            count += 1;
            total += mk as u64;
        }
        j += 1;
    }
    (count, total)
}

/// Consensus rank of every entrant of the dance, by the Skating System
/// cascade: the pair at position `i` carries `bibs[i]` and its rank.
/// With an empty judge panel the result is empty.
pub fn calculate_dance_ranks(dm: &DanceMarks) -> (res: Vec<(u32, u32)>)
    requires
        dm.wf(),
        dm.bibs@.len() < u32::MAX,
        dm.judges@.len() <= u32::MAX,
    ensures
        dm.judges@.len() == 0 ==> res@.len() == 0,
        dm.judges@.len() > 0 ==> {
            let table = spec_dance_ranking(dm.mark_table(), dm.bibs@.len() as int);
            &&& res@.len() == dm.bibs@.len()
            &&& forall|i: int| 0 <= i < res@.len() ==> (#[trigger] res@[i]).0 == dm.bibs@[i]
            &&& forall|i: int| 0 <= i < res@.len() ==> (#[trigger] res@[i]).1 as int == table[i]
        },
{
    let n = dm.bibs.len();
    let jn = dm.judges.len();
    let mut res: Vec<(u32, u32)> = Vec::new();
    if jn == 0 {
        return res;
    }
    let n32: u32 = n as u32;
    let maj: usize = jn / 2 + 1;
    let ghost m = dm.mark_table();
    let ghost full = set_int_range(0, n as int);
    let ghost target = spec_skate(m, maj as int, n as int, full, 1, 1);
    proof {
        lemma_int_range(0, n as int);
        lemma_skate_dom(m, maj as int, n as int, full, 1, 1);
    }

    let mut ranks: Vec<u32> = Vec::new();
    let mut assigned: Vec<bool> = Vec::new();
    let mut t: usize = 0;
    while t < n
        invariant
            t <= n,
            ranks@.len() == t,
            assigned@.len() == t,
            forall|i: int| 0 <= i < t ==> !assigned@[i],
        decreases n - t,
    {
        ranks.push(0);
        assigned.push(false);
        t += 1;
    }

    let mut num_done: usize = 0;
    let ghost mut rem = full;
    let mut r: u32 = 1;
    proof {
        assert(target.restrict(full) =~= target);
    }

    while r <= n32 && num_done < n
        invariant
            dm.wf(),
            n == dm.bibs@.len(),
            jn == dm.judges@.len(),
            1 <= jn <= u32::MAX,
            n < u32::MAX,
            n32 == n,
            maj == jn / 2 + 1,
            m == dm.mark_table(),
            target == spec_skate(m, maj as int, n as int, full, 1, 1),
            full == set_int_range(0, n as int),
            target.dom() == full,
            ranks@.len() == n,
            assigned@.len() == n,
            1 <= r,
            r as int <= n + 1,
            num_done <= n,
            rem.finite(),
            rem.len() + num_done == n,
            forall|i: int| rem.contains(i) ==> 0 <= i < n,
            forall|i: int| 0 <= i < n ==> (rem.contains(i) <==> !assigned@[i]),
            forall|i: int|
                0 <= i < n && assigned@[i] ==> #[trigger] ranks@[i] as int == target[i],
            spec_skate(m, maj as int, n as int, rem, num_done + 1, r as int) == target.restrict(
                rem,
            ),
        decreases n + 1 - r as int,
    {
        let ghost r0 = r;
        loop
            invariant
                dm.wf(),
                n == dm.bibs@.len(),
                jn == dm.judges@.len(),
                1 <= jn <= u32::MAX,
                n < u32::MAX,
                n32 == n,
                maj == jn / 2 + 1,
                m == dm.mark_table(),
                target == spec_skate(m, maj as int, n as int, full, 1, 1),
                full == set_int_range(0, n as int),
                target.dom() == full,
                ranks@.len() == n,
                assigned@.len() == n,
                1 <= r,
                r == r0,
                r as int <= n,
                num_done <= n,
                rem.finite(),
                rem.len() + num_done == n,
                forall|i: int| rem.contains(i) ==> 0 <= i < n,
                forall|i: int| 0 <= i < n ==> (rem.contains(i) <==> !assigned@[i]),
                forall|i: int|
                    0 <= i < n && assigned@[i] ==> #[trigger] ranks@[i] as int == target[i],
                spec_skate(m, maj as int, n as int, rem, num_done + 1, r as int)
                    == target.restrict(rem),
            ensures
                r == r0,
                ranks@.len() == n,
                assigned@.len() == n,
                num_done <= n,
                rem.finite(),
                rem.len() + num_done == n,
                forall|i: int| rem.contains(i) ==> 0 <= i < n,
                forall|i: int| 0 <= i < n ==> (rem.contains(i) <==> !assigned@[i]),
                forall|i: int|
                    0 <= i < n && assigned@[i] ==> #[trigger] ranks@[i] as int == target[i],
                num_done == n || spec_skate(
                    m,
                    maj as int,
                    n as int,
                    rem,
                    num_done + 1,
                    r0 as int + 1,
                ) == target.restrict(rem),
            decreases n - num_done,
        {
            if num_done == n {
                break ;
            }
            proof {
                if rem.is_empty() {
                    assert(rem =~= Set::<int>::empty());
                }
                assert(!rem.is_empty());
            }
            // Scan the remaining entrants for the leading candidate key.
            let mut found = false;
            let mut best_i: usize = 0;
            let mut bestc: usize = 0;
            let mut bests: u64 = 0;
            let mut i: usize = 0;
            while i < n
                invariant
                    dm.wf(),
                    n == dm.bibs@.len(),
                    jn == dm.judges@.len(),
                    jn <= u32::MAX,
                    maj == jn / 2 + 1,
                    m == dm.mark_table(),
                    assigned@.len() == n,
                    i <= n,
                    forall|k: int| rem.contains(k) ==> 0 <= k < n,
                    forall|k: int| 0 <= k < n ==> (rem.contains(k) <==> !assigned@[k]),
                    found ==> {
                        &&& best_i < n
                        &&& rem.contains(best_i as int)
                        &&& bestc as int == count_le(m, best_i as int, r as int)
                        &&& bests as int == sum_le(m, best_i as int, r as int)
                        &&& bestc >= maj
                    },
                    found ==> forall|k: int|
                        0 <= k < i && rem.contains(k) && is_candidate(m, maj as int, k, r as int)
                            ==> !better_key(m, r as int, k, best_i as int),
                    !found ==> forall|k: int|
                        0 <= k < i ==> !(rem.contains(k) && is_candidate(
                            m,
                            maj as int,
                            k,
                            r as int,
                        )),
                decreases n - i,
            {
                if !assigned[i] {
                    let cs = tally(&dm.marks, i, r);
                    let c = cs.0;
                    let s = cs.1;
                    if c >= maj {
                        if !found || c > bestc || (c == bestc && s < bests) {
                            found = true;
                            best_i = i;
                            bestc = c;
                            bests = s;
                        }
                    }
                }
                i += 1;
            }

            let ghost blk = best_block(m, maj as int, rem, r as int);
            if !found {
                proof {
                    assert(blk.is_empty()) by {
                        if !blk.is_empty() {
                            let w = blk.choose();
                            assert(blk.contains(w));
                        }
                    }
                }
                break ;
            }

            // Collect the whole tie block that shares the leading key.
            let mut block: Vec<usize> = Vec::new();
            let ghost mut gblk = Set::<int>::empty();
            let mut i: usize = 0;
            while i < n
                invariant
                    dm.wf(),
                    n == dm.bibs@.len(),
                    jn == dm.judges@.len(),
                    jn <= u32::MAX,
                    maj == jn / 2 + 1,
                    m == dm.mark_table(),
                    assigned@.len() == n,
                    i <= n,
                    forall|k: int| rem.contains(k) ==> 0 <= k < n,
                    forall|k: int| 0 <= k < n ==> (rem.contains(k) <==> !assigned@[k]),
                    gblk.finite(),
                    gblk.len() == block@.len(),
                    forall|q: int| 0 <= q < block@.len() ==> (#[trigger] block@[q]) < n,
                    forall|q1: int, q2: int|
                        0 <= q1 < q2 < block@.len() ==> block@[q1] < block@[q2],
                    forall|q: int|
                        0 <= q < block@.len() ==> gblk.contains(#[trigger] block@[q] as int),
                    forall|k: int|
                        gblk.contains(k) ==> exists|q: int|
                            0 <= q < block@.len() && #[trigger] block@[q] as int == k,
                    forall|k: int|
                        #[trigger] gblk.contains(k) <==> (0 <= k < i && rem.contains(k)
                            && count_le(m, k, r as int) == bestc as int && sum_le(m, k, r as int)
                            == bests as int),
                decreases n - i,
            {
                if !assigned[i] {
                    let cs = tally(&dm.marks, i, r);
                    if cs.0 == bestc && cs.1 == bests {
                        let ghost len0 = block@.len();
                        let ghost block0 = block@;
                        block.push(i);
                        proof {
                            assert(!gblk.contains(i as int));
                            gblk = gblk.insert(i as int);
                            assert(block@[len0 as int] == i);
                            assert forall|k: int| gblk.contains(k) implies exists|q: int|
                                0 <= q < block@.len() && #[trigger] block@[q] as int == k by {
                                if k == i as int {
                                    assert(block@[len0 as int] as int == k);
                                } else {
                                    let q = choose|q: int|
                                        0 <= q < block0.len() && #[trigger] block0[q] as int
                                            == k;
                                    assert(block@[q] as int == k);
                                }
                            }
                        }
                    }
                }
                i += 1;
            }

            proof {
                assert(gblk =~= blk) by {
                    assert forall|k: int| gblk.contains(k) implies blk.contains(k) by {
                        assert(is_candidate(m, maj as int, k, r as int));
                        assert forall|q: int|
                            rem.contains(q) && is_candidate(m, maj as int, q, r as int)
                            implies !better_key(m, r as int, q, k) by {
                            assert(!better_key(m, r as int, q, best_i as int));
                        }
                    }
                    assert forall|k: int| blk.contains(k) implies gblk.contains(k) by {
                        assert(rem.contains(best_i as int) && is_candidate(
                            m,
                            maj as int,
                            best_i as int,
                            r as int,
                        ));
                        assert(!better_key(m, r as int, best_i as int, k));
                        assert(rem.contains(k) && is_candidate(m, maj as int, k, r as int));
                        assert(!better_key(m, r as int, k, best_i as int));
                    }
                }
                assert(gblk.contains(best_i as int));
                assert(!blk.is_empty());
            }

            let blen = block.len();
            if blen == 1 || r == n32 {
                // Commit the block at the outstanding place.
                let ghost rem_old = rem;
                let ghost p = num_done as int + 1;
                let place_val: u32 = (num_done as u32) + 1;
                proof {
                    if blk.len() == 0 {
                        blk.lemma_len0_is_empty();
                    }
                    lemma_block_shrinks(rem, blk);
                    lemma_len_split(rem, blk);
                    lemma_skate_dom(
                        m,
                        maj as int,
                        n as int,
                        rem.difference(blk),
                        p + blen as int,
                        r as int,
                    );
                }
                let ghost ranks_snap = ranks@;
                let ghost assigned_snap = assigned@;
                let mut t: usize = 0;
                while t < blen
                    invariant
                        blen == block@.len(),
                        ranks@.len() == n,
                        assigned@.len() == n,
                        t <= blen,
                        forall|q: int| 0 <= q < blen ==> (#[trigger] block@[q]) < n,
                        forall|q: int|
                            0 <= q < blen ==> gblk.contains(#[trigger] block@[q] as int),
                        forall|k: int|
                            gblk.contains(k) ==> exists|q: int|
                                0 <= q < blen && #[trigger] block@[q] as int == k,
                        forall|k: int| #[trigger] gblk.contains(k) ==> 0 <= k < n,
                        forall|k: int| #[trigger] gblk.contains(k) ==> !assigned_snap[k],
                        forall|q: int|
                            0 <= q < t ==> assigned@[#[trigger] block@[q] as int]
                                && ranks@[block@[q] as int] == place_val,
                        forall|k: int|
                            0 <= k < n && !gblk.contains(k) ==> assigned@[k]
                                == assigned_snap[k] && ranks@[k] == ranks_snap[k],
                        forall|k: int|
                            0 <= k < n && #[trigger] gblk.contains(k) && assigned@[k]
                                ==> ranks@[k] == place_val,
                    decreases blen - t,
                {
                    let idx = block[t];
                    ranks.set(idx, place_val);
                    assigned.set(idx, true);
                    t += 1;
                }
                proof {
                    // Every block member is now assigned its place.
                    assert forall|k: int| 0 <= k < n && gblk.contains(k) implies assigned@[k]
                        && ranks@[k] == place_val by {
                        let q = choose|q: int|
                            0 <= q < block@.len() && #[trigger] block@[q] as int == k;
                        assert(assigned@[block@[q] as int]);
                    }
                }
                num_done += blen;
                proof {
                    rem = rem_old.difference(gblk);
                    // The cascade commits this very block here.
                    assert(spec_skate(m, maj as int, n as int, rem_old, p, r as int)
                        == rank_all(blk, p).union_prefer_right(
                        spec_skate(m, maj as int, n as int, rem_old.difference(blk), p
                            + blk.len(), r as int),
                    ));
                    assert forall|k: int| 0 <= k < n && assigned@[k] implies
                        #[trigger] ranks@[k] as int == target[k] by {
                        if gblk.contains(k) {
                            assert(target.restrict(rem_old)[k] == target[k]);
                            assert(spec_skate(m, maj as int, n as int, rem_old, p, r as int)[k]
                                == p);
                        }
                    }
                    assert(spec_skate(m, maj as int, n as int, rem, num_done + 1, r as int)
                        =~= target.restrict(rem)) by {
                        let rest = spec_skate(m, maj as int, n as int, rem, p + blen as int,
                            r as int);
                        assert(rest.dom() == rem);
                        assert forall|k: int| rem.contains(k) implies rest[k]
                            == target.restrict(rem)[k] by {
                            assert(spec_skate(m, maj as int, n as int, rem_old, p, r as int)[k]
                                == rest[k]);
                            assert(target.restrict(rem_old)[k] == target[k]);
                        }
                        assert(target.restrict(rem).dom() =~= rem);
                    }
                }
            } else {
                proof {
                    if blk.len() == 0 {
                        blk.lemma_len0_is_empty();
                    }
                    assert(blk.len() > 1 && (r as int) < n as int);
                }
                break ;
            }
        }
        proof {
            if num_done < n {
                assert(spec_skate(m, maj as int, n as int, rem, num_done + 1, r0 as int + 1)
                    == target.restrict(rem));
            } else {
                assert(rem.len() == 0);
                assert(rem =~= Set::<int>::empty());
                assert(spec_skate(m, maj as int, n as int, rem, num_done + 1, r as int + 1)
                    =~= target.restrict(rem));
            }
        }
        r += 1;
    }

    proof {
        // On exit every remaining entrant shares the outstanding place.
        if num_done < n {
            assert(r as int == n + 1);
            assert(spec_skate(m, maj as int, n as int, rem, num_done + 1, r as int)
                == rank_all(rem, num_done + 1));
            assert forall|k: int| rem.contains(k) implies target[k] == num_done + 1 by {
                assert(target.restrict(rem)[k] == rank_all(rem, num_done + 1)[k]);
            }
        }
    }

    // Entrants never separated by any threshold share the outstanding
    // place.
    let mut i: usize = 0;
    while i < n
        invariant
            n == dm.bibs@.len(),
            n < u32::MAX,
            ranks@.len() == n,
            assigned@.len() == n,
            num_done <= n,
            rem.finite(),
            rem.len() + num_done == n,
            forall|k: int| rem.contains(k) ==> 0 <= k < n,
            forall|k: int| 0 <= k < n ==> (rem.contains(k) <==> !assigned@[k]),
            forall|k: int| rem.contains(k) ==> target[k] == num_done + 1,
            forall|k: int|
                0 <= k < n && assigned@[k] ==> #[trigger] ranks@[k] as int == target[k],
            i <= n,
            forall|k: int| 0 <= k < i ==> #[trigger] ranks@[k] as int == target[k],
        decreases n - i,
    {
        if !assigned[i] {
            proof {
                assert(rem.contains(i as int));
                if rem.len() == 0 {
                    rem.lemma_len0_is_empty();
                }
                assert(num_done < n);
            }
            let place_val: u32 = (num_done as u32) + 1;
            ranks.set(i, place_val);
        }
        i += 1;
    }

    let mut i: usize = 0;
    while i < n
        invariant
            n == dm.bibs@.len(),
            ranks@.len() == n,
            res@.len() == i,
            i <= n,
            forall|k: int| 0 <= k < n ==> #[trigger] ranks@[k] as int == target[k],
            forall|k: int| 0 <= k < i ==> (#[trigger] res@[k]).0 == dm.bibs@[k],
            forall|k: int| 0 <= k < i ==> (#[trigger] res@[k]).1 == ranks@[k],
        decreases n - i,
    {
        res.push((dm.bibs[i], ranks[i]));
        i += 1;
    }
    res
}

/// Result of comparing two entrants under the cascading tie-break.
#[derive(Clone, Copy, Debug, PartialEq, Eq, Structural)]
pub enum Cmp {
    Lt,
    Eq,
    Gt,
}

/// Sum of the per-dance ranks of entrant `i` over the first `d` dances.
pub open spec fn sum_ranks_upto(dr: Seq<Seq<u32>>, i: int, d: int) -> int
    decreases d,
{
    if d <= 0 {
        0
    } else {
        sum_ranks_upto(dr, i, d - 1) + dr[d - 1][i] as int
    }
}

/// Sum of the per-dance ranks of entrant `i`.
pub open spec fn sum_ranks(dr: Seq<Seq<u32>>, i: int) -> int {
    sum_ranks_upto(dr, i, dr.len() as int)
}

/// The marks one dance's panel gave entrant `i`.
pub open spec fn column(m: Seq<Seq<u32>>, i: int) -> Seq<u32> {
    m.map_values(|row: Seq<u32>| row[i])
}

/// All raw placements entrant `i` received over the first `d` dances,
/// pooled into one list.
pub open spec fn pooled_upto(ms: Seq<Seq<Seq<u32>>>, i: int, d: int) -> Seq<u32>
    decreases d,
{
    if d <= 0 {
        Seq::empty()
    } else {
        pooled_upto(ms, i, d - 1) + column(ms[d - 1], i)
    }
}

/// All raw placements entrant `i` received, over every dance and judge.
pub open spec fn pooled(ms: Seq<Seq<Seq<u32>>>, i: int) -> Seq<u32> {
    pooled_upto(ms, i, ms.len() as int)
}

/// Number of pooled placements at or better than `r` among the first
/// `j` entries.
pub open spec fn count_list_upto(p: Seq<u32>, r: int, j: int) -> int
    decreases j,
{
    if j <= 0 {
        0
    } else {
        count_list_upto(p, r, j - 1) + (if p[j - 1] <= r {
            1int
        } else {
            0int
        })
    }
}

/// Number of pooled placements at or better than `r`.
pub open spec fn count_list(p: Seq<u32>, r: int) -> int {
    count_list_upto(p, r, p.len() as int)
}

/// Sum of the pooled placements at or better than `r` among the first
/// `j` entries.
pub open spec fn sum_list_upto(p: Seq<u32>, r: int, j: int) -> int
    decreases j,
{
    if j <= 0 {
        0
    } else {
        sum_list_upto(p, r, j - 1) + (if p[j - 1] <= r {
            p[j - 1] as int
        } else {
            0int
        })
    }
}

/// Sum of the pooled placements at or better than `r`.
pub open spec fn sum_list(p: Seq<u32>, r: int) -> int {
    sum_list_upto(p, r, p.len() as int)
}

/// The largest placement of a list, 0 for an empty list.
pub open spec fn seq_max_val(p: Seq<u32>) -> int
    decreases p.len(),
{
    if p.len() == 0 {
        0
    } else {
        let rest = seq_max_val(p.drop_last());
        if p.last() as int > rest {
            p.last() as int
        } else {
            rest
        }
    }
}

/// The tie-break walk over increasing thresholds `r`: once either
/// pooled list holds a majority of placements at or better than `r`,
/// the larger count wins; on equal counts the smaller sum wins; on
/// equal counts and sums the walk continues, and entrants never
/// separated compare equal.
pub open spec fn spec_cmp11_from(pa: Seq<u32>, pb: Seq<u32>, maj: int, maxm: int, r: int) -> Cmp
    decreases maxm + 1 - r,
        when 1 <= r && r <= maxm + 1
{
    if r > maxm {
        Cmp::Eq
    } else {
        let ca = count_list(pa, r);
        let cb = count_list(pb, r);
        if (ca >= maj || cb >= maj) && ca != cb {
            if ca > cb {
                Cmp::Lt
            } else {
                Cmp::Gt
            }
        } else if (ca >= maj || cb >= maj) && sum_list(pa, r) != sum_list(pb, r) {
            if sum_list(pa, r) < sum_list(pb, r) {
                Cmp::Lt
            } else {
                Cmp::Gt
            }
        } else {
            spec_cmp11_from(pa, pb, maj, maxm, r + 1)
        }
    }
}

/// Comparison of two entrants by their pooled raw placements, as the
/// final tie-break: `Lt` means the first ranks ahead.
pub open spec fn spec_cmp11(pa: Seq<u32>, pb: Seq<u32>) -> Cmp {
    if pa.len() == 0 {
        Cmp::Eq
    } else {
        let maxm = if seq_max_val(pa) > seq_max_val(pb) {
            seq_max_val(pa)
        } else {
            seq_max_val(pb)
        };
        spec_cmp11_from(pa, pb, pa.len() as int / 2 + 1, maxm, 1)
    }
}

/// Entrant `k` finishes strictly ahead of entrant `i` overall: a lower
/// sum of per-dance ranks, or on equal sums a winning tie-break over
/// the pooled raw placements, when raw placements are available.
pub open spec fn spec_better_overall(
    dr: Seq<Seq<u32>>,
    ms: Option<Seq<Seq<Seq<u32>>>>,
    k: int,
    i: int,
) -> bool {
    ||| sum_ranks(dr, k) < sum_ranks(dr, i)
    ||| (sum_ranks(dr, k) == sum_ranks(dr, i) && match ms {
        Some(mm) => spec_cmp11(pooled(mm, k), pooled(mm, i)) is Lt,
        None => false,
    })
}

/// Number of entrants among the first `k` that finish strictly ahead
/// of entrant `i`.
pub open spec fn count_better_upto(
    dr: Seq<Seq<u32>>,
    ms: Option<Seq<Seq<Seq<u32>>>>,
    i: int,
    k: int,
) -> int
    decreases k,
{
    if k <= 0 {
        0
    } else {
        count_better_upto(dr, ms, i, k - 1) + (if spec_better_overall(dr, ms, k - 1, i) {
            1int
        } else {
            0int
        })
    }
}

/// The overall skip-style rank of entrant `i` in a field of `n`: one
/// more than the number of entrants that finish strictly ahead, so
/// that tied entrants share the lowest number of their block.
pub open spec fn spec_overall_rank(
    dr: Seq<Seq<u32>>,
    ms: Option<Seq<Seq<Seq<u32>>>>,
    n: int,
    i: int,
) -> int {
    1 + count_better_upto(dr, ms, i, n)
}

/// The tie-break walk compares a list with itself as equal.
pub proof fn lemma_cmp11_from_refl(p: Seq<u32>, maj: int, maxm: int, r: int)
    requires
        1 <= r <= maxm + 1,
    ensures
        spec_cmp11_from(p, p, maj, maxm, r) == Cmp::Eq,
    decreases maxm + 1 - r,
{
    if r <= maxm {
        lemma_cmp11_from_refl(p, maj, maxm, r + 1);
    }
}

/// The tie-break compares a list with itself as equal.
pub proof fn lemma_cmp11_refl(p: Seq<u32>)
    ensures
        spec_cmp11(p, p) == Cmp::Eq,
{
    if p.len() != 0 {
        lemma_cmp11_from_refl(p, p.len() as int / 2 + 1, seq_max_val(p), 1);
    }
}

/// No entrant finishes strictly ahead of itself, so at most `k - 1` of
/// the first `k` can.
pub proof fn lemma_count_better_bound(
    dr: Seq<Seq<u32>>,
    ms: Option<Seq<Seq<Seq<u32>>>>,
    i: int,
    k: int,
)
    requires
        k >= 0,
    ensures
        0 <= count_better_upto(dr, ms, i, k) <= k,
        0 <= i < k ==> count_better_upto(dr, ms, i, k) <= k - 1,
    decreases k,
{
    if k > 0 {
        lemma_count_better_bound(dr, ms, i, k - 1);
        if i == k - 1 {
            match ms {
                Some(mm) => lemma_cmp11_refl(pooled(mm, i)),
                None => (),
            }
            assert(!spec_better_overall(dr, ms, k - 1, i));
        }
    }
}

/// Counts the pooled placements at or better than `r` and sums them.
fn tally_list(p: &Vec<u32>, r: u64) -> (cs: (usize, u128))
    ensures
        cs.0 as int == count_list(p@, r as int),
        cs.1 as int == sum_list(p@, r as int),
{
    let len = p.len();
    let mut count: usize = 0;
    let mut total: u128 = 0;
    let mut j: usize = 0;
    while j < len
        invariant
            len == p@.len(),
            j <= len,
            count as int == count_list_upto(p@, r as int, j as int),
            total as int == sum_list_upto(p@, r as int, j as int),
            count <= j,
            total as int <= j as int * 0xFFFF_FFFF,
        decreases len - j,
    {
        proof {
            lemma_tally_list_bounds(p@, r as int, j as int);
        }
        let mk = p[j];
        if (mk as u64) <= r {
            count += 1;
            total += mk as u128;
        }
        j += 1;
    }
    (count, total)
}

/// Bounds on the partial count and sum of a pooled list.
pub proof fn lemma_tally_list_bounds(p: Seq<u32>, r: int, j: int)
    requires
        j >= 0,
    ensures
        0 <= count_list_upto(p, r, j) <= j,
        0 <= sum_list_upto(p, r, j) <= j * 0xFFFF_FFFF,
    decreases j,
{
    if j > 0 {
        lemma_tally_list_bounds(p, r, j - 1);
    }
}

/// The largest placement of a list.
fn max_of(p: &Vec<u32>) -> (mx: u32)
    ensures
        mx as int == seq_max_val(p@),
{
    let len = p.len();
    let mut mx: u32 = 0;
    let mut j: usize = 0;
    while j < len
        invariant
            len == p@.len(),
            j <= len,
            mx as int == seq_max_val(p@.subrange(0, j as int)),
        decreases len - j,
    {
        proof {
            assert(p@.subrange(0, j + 1).drop_last() =~= p@.subrange(0, j as int));
            assert(p@.subrange(0, j + 1).last() == p@[j as int]);
        }
        let v = p[j];
        if v > mx {
            mx = v;
        }
        j += 1;
    }
    proof {
        assert(p@.subrange(0, len as int) =~= p@);
    }
    mx
}

/// Compares two entrants' pooled placement lists by the cascading
/// tie-break.
fn compare_rule11(pa: &Vec<u32>, pb: &Vec<u32>) -> (c: Cmp)
    requires
        pa@.len() == pb@.len(),
    ensures
        c == spec_cmp11(pa@, pb@),
{
    let num = pa.len();
    if num == 0 {
        return Cmp::Eq;
    }
    let maj = num / 2 + 1;
    let ma = max_of(pa);
    let mb = max_of(pb);
    let maxm: u64 = if ma > mb {
        ma as u64
    } else {
        mb as u64
    };
    let ghost maj_i = num as int / 2 + 1;
    let mut r: u64 = 1;
    while r <= maxm
        invariant
            num == pa@.len(),
            num == pb@.len(),
            num > 0,
            maj == num / 2 + 1,
            maj_i == num as int / 2 + 1,
            maxm <= 0xFFFF_FFFF,
            maxm as int == if seq_max_val(pa@) > seq_max_val(pb@) {
                seq_max_val(pa@)
            } else {
                seq_max_val(pb@)
            },
            1 <= r,
            r as int <= maxm as int + 1,
            spec_cmp11(pa@, pb@) == spec_cmp11_from(pa@, pb@, maj_i, maxm as int, r as int),
        decreases maxm + 1 - r,
    {
        let ca = tally_list(pa, r);
        let cb = tally_list(pb, r);
        if ca.0 >= maj || cb.0 >= maj {
            if ca.0 != cb.0 {
                if ca.0 > cb.0 {
                    return Cmp::Lt;
                } else {
                    return Cmp::Gt;
                }
            }
            if ca.1 != cb.1 {
                if ca.1 < cb.1 {
                    return Cmp::Lt;
                } else {
                    return Cmp::Gt;
                }
            }
        }
        r += 1;
    }
    Cmp::Eq
}

/// Sums the per-dance ranks of entrant `i`.
fn sum_ranks_exec(dr: &Vec<Vec<u32>>, i: usize) -> (s: u64)
    requires
        forall|d: int| 0 <= d < dr@.len() ==> i < (#[trigger] dr@[d])@.len(),
        dr@.len() <= u32::MAX,
    ensures
        s as int == sum_ranks(dr.deep_view(), i as int),
{
    let ghost dv = dr.deep_view();
    let dn = dr.len();
    let mut total: u64 = 0;
    let mut d: usize = 0;
    while d < dn
        invariant
            dn == dr@.len(),
            dn <= u32::MAX,
            dv == dr.deep_view(),
            forall|q: int| 0 <= q < dr@.len() ==> i < (#[trigger] dr@[q])@.len(),
            d <= dn,
            total as int == sum_ranks_upto(dv, i as int, d as int),
            total as int <= d as int * 0xFFFF_FFFF,
        decreases dn - d,
    {
        proof {
            assert(dv[d as int][i as int] == dr@[d as int]@[i as int]);
            lemma_sum_ranks_bounds(dv, i as int, d as int);
        }
        total += dr[d][i] as u64;
        d += 1;
    }
    total
}

/// Bounds on the partial sum of per-dance ranks.
pub proof fn lemma_sum_ranks_bounds(dr: Seq<Seq<u32>>, i: int, d: int)
    requires
        d >= 0,
    ensures
        0 <= sum_ranks_upto(dr, i, d) <= d * 0xFFFF_FFFF,
    decreases d,
{
    if d > 0 {
        lemma_sum_ranks_bounds(dr, i, d - 1);
    }
}

/// Collects every raw placement entrant `i` received, over all dances
/// and judges, into one pooled list.
fn collect_pooled(ms: &Vec<Vec<Vec<u32>>>, i: usize) -> (p: Vec<u32>)
    requires
        forall|d: int, j: int|
            0 <= d < ms@.len() && 0 <= j < (#[trigger] ms@[d])@.len() ==> i < (#[trigger] ms@[d]@[j])@.len(),
    ensures
        p@ == pooled(ms.deep_view(), i as int),
{
    let ghost mv = ms.deep_view();
    let dn = ms.len();
    let mut p: Vec<u32> = Vec::new();
    let mut d: usize = 0;
    while d < dn
        invariant
            dn == ms@.len(),
            mv == ms.deep_view(),
            forall|q: int, j: int|
                0 <= q < ms@.len() && 0 <= j < (#[trigger] ms@[q])@.len() ==> i < (
                #[trigger] ms@[q]@[j])@.len(),
            d <= dn,
            p@ == pooled_upto(mv, i as int, d as int),
        decreases dn - d,
    {
        let jn = ms[d].len();
        let mut j: usize = 0;
        while j < jn
            invariant
                dn == ms@.len(),
                d < dn,
                mv == ms.deep_view(),
                forall|q: int, t: int|
                    0 <= q < ms@.len() && 0 <= t < (#[trigger] ms@[q])@.len() ==> i < (
                    #[trigger] ms@[q]@[t])@.len(),
                jn == ms@[d as int]@.len(),
                j <= jn,
                p@ == pooled_upto(mv, i as int, d as int) + column(mv[d as int], i as int)
                    .subrange(0, j as int),
            decreases jn - j,
        {
            proof {
                assert(mv[d as int] == ms@[d as int].deep_view());
                assert(mv[d as int][j as int] == ms@[d as int]@[j as int]@);
                assert(column(mv[d as int], i as int)[j as int] == mv[d as int][j as int][i as int]);
            }
            p.push(ms[d][j][i]);
            proof {
                assert(column(mv[d as int], i as int).subrange(0, j + 1) =~= column(
                    mv[d as int],
                    i as int,
                ).subrange(0, j as int).push(mv[d as int][j as int][i as int]));
                assert(p@ =~= pooled_upto(mv, i as int, d as int) + column(mv[d as int], i as int)
                    .subrange(0, j + 1));
            }
            j += 1;
        }
        proof {
            assert(column(mv[d as int], i as int).subrange(0, jn as int) =~= column(
                mv[d as int],
                i as int,
            ));
            assert(p@ =~= pooled_upto(mv, i as int, d as int + 1));
        }
        d += 1;
    }
    p
}

/// Entrant `k` finishes strictly ahead of entrant `i` overall.
fn better_overall(
    dr: &Vec<Vec<u32>>,
    ms: &Option<Vec<Vec<Vec<u32>>>>,
    k: usize,
    i: usize,
) -> (b: bool)
    requires
        forall|d: int| 0 <= d < dr@.len() ==> k < (#[trigger] dr@[d])@.len(),
        forall|d: int| 0 <= d < dr@.len() ==> i < (#[trigger] dr@[d])@.len(),
        dr@.len() <= u32::MAX,
        match ms {
            Some(mm) => forall|d: int, j: int|
                0 <= d < mm@.len() && 0 <= j < (#[trigger] mm@[d])@.len() ==> k < (#[trigger] mm@[d]@[j])@.len() && i < mm@[d]@[j]@.len(),
            None => true,
        },
    ensures
        b == spec_better_overall(
            dr.deep_view(),
            match ms {
                Some(mm) => Some(mm.deep_view()),
                None => None,
            },
            k as int,
            i as int,
        ),
{
    let sk = sum_ranks_exec(dr, k);
    let si = sum_ranks_exec(dr, i);
    if sk < si {
        return true;
    }
    if sk > si {
        return false;
    }
    match ms {
        Some(mm) => {
            let pk = collect_pooled(mm, k);
            let pi = collect_pooled(mm, i);
            proof {
                lemma_pooled_len(mm.deep_view(), k as int);
                lemma_pooled_len(mm.deep_view(), i as int);
            }
            let c = compare_rule11(&pk, &pi);
            match c {
                Cmp::Lt => true,
                Cmp::Eq => false,
                Cmp::Gt => false,
            }
        },
        None => false,
    }
}

/// Pooled lists of two entrants over the same dances have one length.
pub proof fn lemma_pooled_upto_len(ms: Seq<Seq<Seq<u32>>>, i: int, d: int)
    requires
        d >= 0,
    ensures
        pooled_upto(ms, i, d).len() == pooled_len_upto(ms, d),
    decreases d,
{
    if d > 0 {
        lemma_pooled_upto_len(ms, i, d - 1);
    }
}

/// Total number of pooled placements over the first `d` dances.
pub open spec fn pooled_len_upto(ms: Seq<Seq<Seq<u32>>>, d: int) -> int
    decreases d,
{
    if d <= 0 {
        0
    } else {
        pooled_len_upto(ms, d - 1) + ms[d - 1].len() as int
    }
}

/// The pooled list's length does not depend on the entrant.
pub proof fn lemma_pooled_len(ms: Seq<Seq<Seq<u32>>>, i: int)
    ensures
        pooled(ms, i).len() == pooled_len_upto(ms, ms.len() as int),
{
    lemma_pooled_upto_len(ms, i, ms.len() as int);
}

/// Overall rank of every entrant across all dances: sums of per-dance
/// ranks decide, equal sums fall to the tie-break over pooled raw
/// placements when those are given, and entrants never separated share
/// the lowest number of their block.  The pair at position `i` carries
/// `bibs[i]` and its rank; `dance_ranks[d][i]` and `all_marks[d][j][i]`
/// refer to `bibs[i]` as well.
pub fn calculate_final_ranks(
    bibs: &Vec<u32>,
    dance_ranks: &Vec<Vec<u32>>,
    all_marks: &Option<Vec<Vec<Vec<u32>>>>,
) -> (res: Vec<(u32, u32)>)
    requires
        forall|d: int|
            0 <= d < dance_ranks@.len() ==> (#[trigger] dance_ranks@[d])@.len() == bibs@.len(),
        dance_ranks@.len() <= u32::MAX,
        bibs@.len() <= u32::MAX,
        match all_marks {
            Some(mm) => forall|d: int, j: int|
                0 <= d < mm@.len() && 0 <= j < (#[trigger] mm@[d])@.len() ==> (#[trigger] mm@[d]@[j])@.len() == bibs@.len(),
            None => true,
        },
    ensures
        res@.len() == bibs@.len(),
        forall|i: int| 0 <= i < res@.len() ==> (#[trigger] res@[i]).0 == bibs@[i],
        forall|i: int|
            0 <= i < res@.len() ==> (#[trigger] res@[i]).1 as int == spec_overall_rank(
                dance_ranks.deep_view(),
                match all_marks {
                    Some(mm) => Some(mm.deep_view()),
                    None => None,
                },
                bibs@.len() as int,
                i,
            ),
{
    let n = bibs.len();
    let ghost dv = dance_ranks.deep_view();
    let ghost msv = match all_marks {
        Some(mm) => Some(mm.deep_view()),
        None => None,
    };
    let mut res: Vec<(u32, u32)> = Vec::new();
    let mut i: usize = 0;
    while i < n
        invariant
            n == bibs@.len(),
            n <= u32::MAX,
            dv == dance_ranks.deep_view(),
            msv == match all_marks {
                Some(mm) => Some(mm.deep_view()),
                None => None,
            },
            forall|d: int|
                0 <= d < dance_ranks@.len() ==> (#[trigger] dance_ranks@[d])@.len()
                    == bibs@.len(),
            dance_ranks@.len() <= u32::MAX,
            match all_marks {
                Some(mm) => forall|d: int, j: int|
                    0 <= d < mm@.len() && 0 <= j < (#[trigger] mm@[d])@.len() ==> (
                    #[trigger] mm@[d]@[j])@.len() == bibs@.len(),
                None => true,
            },
            i <= n,
            res@.len() == i,
            forall|q: int| 0 <= q < i ==> (#[trigger] res@[q]).0 == bibs@[q],
            forall|q: int|
                0 <= q < i ==> (#[trigger] res@[q]).1 as int == spec_overall_rank(
                    dv,
                    msv,
                    n as int,
                    q,
                ),
        decreases n - i,
    {
        let mut cnt: usize = 0;
        let mut k: usize = 0;
        while k < n
            invariant
                n == bibs@.len(),
                n <= u32::MAX,
                i < n,
                dv == dance_ranks.deep_view(),
                msv == match all_marks {
                    Some(mm) => Some(mm.deep_view()),
                    None => None,
                },
                forall|d: int|
                    0 <= d < dance_ranks@.len() ==> (#[trigger] dance_ranks@[d])@.len()
                        == bibs@.len(),
                dance_ranks@.len() <= u32::MAX,
                match all_marks {
                    Some(mm) => forall|d: int, j: int|
                        0 <= d < mm@.len() && 0 <= j < (#[trigger] mm@[d])@.len() ==> (
                        #[trigger] mm@[d]@[j])@.len() == bibs@.len(),
                    None => true,
                },
                k <= n,
                cnt as int == count_better_upto(dv, msv, i as int, k as int),
                cnt <= k,
            decreases n - k,
        {
            if better_overall(dance_ranks, all_marks, k, i) {
                cnt += 1;
            }
            k += 1;
        }
        proof {
            lemma_count_better_bound(dv, msv, i as int, n as int);
        }
        res.push((bibs[i], (cnt as u32) + 1));
        i += 1;
    }
    res
}

/// The reported total agrees with the four category scores: a total of
/// exactly 0 always passes (not yet totalled); otherwise the total must
/// lie within 0.011 points (11 thousandths) of either the mean or the
/// straight sum of the categories.  The mean comparison is scaled by
/// four so that everything stays in integers: |sum - 4*total| < 44
/// thousandths is |sum/4 - total| < 0.011 points.
pub open spec fn score_math_ok(s: WDSFScore) -> bool {
    let sum = s.technical_quality + s.movement_to_music + s.partnering_skills + s.choreography;
    ||| s.total == 0
    ||| abs(sum - 4 * s.total) < 44
    ||| abs(sum - s.total) < 11
}

/// Verifies a WDSF category-score record against its reported total.
pub fn verify_wdsf_score(score: &WDSFScore) -> (r: bool)
    ensures
        r == score_math_ok(*score),
{
    if score.total == 0 {
        return true;
    }
    let sum: u64 = score.technical_quality as u64 + score.movement_to_music as u64
        + score.partnering_skills as u64 + score.choreography as u64;
    let quad_total: u64 = 4 * (score.total as u64);
    let mean_diff: u64 = if sum >= quad_total {
        sum - quad_total
    } else {
        quad_total - sum
    };
    let sum_diff: u64 = if sum >= score.total as u64 {
        sum - score.total as u64
    } else {
        score.total as u64 - sum
    };
    mean_diff < 44 || sum_diff < 11
}

} // verus!
