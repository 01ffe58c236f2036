//! Validation and grouped access for disjoint index ranges.
//!
//! A caller describes, for one underlying sequence, several named groups of
//! half-open index ranges.  Validation decides whether every non-empty range
//! lies inside the sequence's bounds and no two non-empty ranges anywhere
//! across the groups share an index.  Once that holds, the accessors produce
//! for each group, in declared order, the covered items (shared references)
//! or the covered indices (handles for exclusive access), without checking
//! again per access.

use core::ops::Range;
use vstd::prelude::*;

verus! {

/// The two ways validation can fail.
#[derive(Clone, Copy, PartialEq, Eq, Structural, Debug)]
pub enum GetManyDisjointGroupedError {
    /// The union of the non-empty requested ranges extends outside the bounds
    /// of the underlying sequence.
    OutOfBounds,
    /// Two non-empty requested ranges, anywhere across all groups, overlap.
    NotDisjoint,
}

/// A range that requests no index at all; such a range is ignored by
/// validation and contributes no item to the accessors' output.
pub open spec fn range_is_empty(r: Range<usize>) -> bool {
    r.start >= r.end
}

/// Two half-open ranges share no index.
pub open spec fn ranges_disjoint(a: Range<usize>, b: Range<usize>) -> bool {
    a.end <= b.start || b.end <= a.start
}

/// `r` lies entirely inside the bounds `b`.
pub open spec fn range_within(r: Range<usize>, b: Range<usize>) -> bool {
    b.start <= r.start && r.end <= b.end
}

/// The mathematical view of a groups structure: one sequence of ranges per group.
pub open spec fn groups_view(groups: Seq<Vec<Range<usize>>>) -> Seq<Seq<Range<usize>>> {
    groups.map(|i: int, g: Vec<Range<usize>>| g@)
}

/// The non-empty ranges of one group, in declared order.
pub open spec fn keep_nonempty(g: Seq<Range<usize>>) -> Seq<Range<usize>>
    decreases g.len(),
{
    if g.len() == 0 {
        Seq::empty()
    } else {
        keep_nonempty(g.drop_last()) + (if range_is_empty(g.last()) {
            Seq::<Range<usize>>::empty()
        } else {
            seq![g.last()]
        })
    }
}

/// All non-empty ranges of all groups, flattened in declared order.
pub open spec fn flat_nonempty(gs: Seq<Seq<Range<usize>>>) -> Seq<Range<usize>>
    decreases gs.len(),
{
    if gs.len() == 0 {
        Seq::empty()
    } else {
        flat_nonempty(gs.drop_last()) + keep_nonempty(gs.last())
    }
}

/// No two ranges of the sequence share an index.
pub open spec fn pairwise_disjoint(s: Seq<Range<usize>>) -> bool {
    forall|i: int, j: int| 0 <= i < j < s.len() ==> ranges_disjoint(s[i], s[j])
}

/// Every range of the sequence lies inside the bounds `b`.
pub open spec fn all_within(s: Seq<Range<usize>>, b: Range<usize>) -> bool {
    forall|i: int| 0 <= i < s.len() ==> range_within(#[trigger] s[i], b)
}

/// The validator's invariant: all non-empty requested ranges are pairwise
/// disjoint and lie inside the bounds.
pub open spec fn groups_valid(bounds: Range<usize>, gs: Seq<Seq<Range<usize>>>) -> bool {
    pairwise_disjoint(flat_nonempty(gs)) && all_within(flat_nonempty(gs), bounds)
}

/// Every range of the sequence is non-empty.
spec fn all_nonempty(s: Seq<Range<usize>>) -> bool {
    forall|i: int| 0 <= i < s.len() ==> !range_is_empty(#[trigger] s[i])
}

/// The ranges of the sequence are ordered by their start index.
spec fn sorted_by_start(s: Seq<Range<usize>>) -> bool {
    forall|i: int, j: int| 0 <= i <= j < s.len() ==> s[i].start <= s[j].start
}

proof fn lemma_keep_nonempty_all(g: Seq<Range<usize>>)
    ensures
        all_nonempty(keep_nonempty(g)),
    decreases g.len(),
{
    if g.len() > 0 {
        lemma_keep_nonempty_all(g.drop_last());
    }
}

proof fn lemma_flat_nonempty_all(gs: Seq<Seq<Range<usize>>>)
    ensures
        all_nonempty(flat_nonempty(gs)),
    decreases gs.len(),
{
    if gs.len() > 0 {
        lemma_flat_nonempty_all(gs.drop_last());
        lemma_keep_nonempty_all(gs.last());
    }
}

/// A value sitting at two distinct positions occurs at least twice in the
/// sequence's multiset.
proof fn lemma_two_positions_count_ge_two(s: Seq<Range<usize>>, i: int, j: int)
    requires
        0 <= i < j < s.len(),
        s[i] == s[j],
    ensures
        s.to_multiset().count(s[i]) >= 2,
{
    broadcast use vstd::seq_lib::group_to_multiset_ensures;
    broadcast use vstd::multiset::group_multiset_axioms;

    let s0 = s.subrange(0, j);
    let s1 = s.subrange(j, s.len() as int);
    assert(s =~= s0 + s1);
    vstd::seq_lib::lemma_multiset_commutative(s0, s1);
    assert(s0[i] == s[i]);
    assert(s0.contains(s[i]));
    assert(s1[0] == s[j]);
    assert(s1.contains(s[i]));
}

/// A value occurring at least twice in the multiset sits at two distinct
/// positions in the sequence.
proof fn lemma_count_ge_two_two_positions(s: Seq<Range<usize>>, v: Range<usize>)
    requires
        s.to_multiset().count(v) >= 2,
    ensures
        exists|i: int, j: int| 0 <= i < j < s.len() && s[i] == v && s[j] == v,
{
    broadcast use vstd::seq_lib::group_to_multiset_ensures;
    broadcast use vstd::multiset::group_multiset_axioms;

    assert(s.contains(v));
    let i = choose|i: int| 0 <= i < s.len() && s[i] == v;
    let s2 = s.remove(i);
    assert(s2.to_multiset() =~= s.to_multiset().remove(v));
    assert(s2.to_multiset().count(v) >= 1);
    assert(s2.contains(v));
    let j2 = choose|j2: int| 0 <= j2 < s2.len() && s2[j2] == v;
    let j = if j2 < i {
        j2
    } else {
        j2 + 1
    };
    assert(s[j] == v);
    if j < i {
        assert(s[j] == v && s[i] == v && j < i);
    } else {
        assert(s[i] == v && s[j] == v && i < j);
    }
}

/// Every element of a sequence occurs in any sequence with the same multiset.
proof fn lemma_permutation_contains(s1: Seq<Range<usize>>, s2: Seq<Range<usize>>)
    requires
        s1.to_multiset() == s2.to_multiset(),
    ensures
        forall|i: int| 0 <= i < s2.len() ==> s1.contains(#[trigger] s2[i]),
{
    broadcast use vstd::seq_lib::group_to_multiset_ensures;

    assert forall|i: int| 0 <= i < s2.len() implies s1.contains(#[trigger] s2[i]) by {
        assert(s2.contains(s2[i]));
        assert(s2.to_multiset().count(s2[i]) > 0);
    }
}

/// Pairwise disjointness is a property of the multiset of ranges: it carries
/// over to any reordering.
proof fn lemma_pairwise_disjoint_permutation(s1: Seq<Range<usize>>, s2: Seq<Range<usize>>)
    requires
        s1.to_multiset() == s2.to_multiset(),
        pairwise_disjoint(s1),
    ensures
        pairwise_disjoint(s2),
{
    broadcast use vstd::seq_lib::group_to_multiset_ensures;

    assert forall|i: int, j: int| 0 <= i < j < s2.len() implies ranges_disjoint(
        s2[i],
        s2[j],
    ) by {
        if s2[i] == s2[j] {
            lemma_two_positions_count_ge_two(s2, i, j);
            lemma_count_ge_two_two_positions(s1, s2[i]);
            let (p, q): (int, int) = choose|p: int, q: int|
                0 <= p < q < s1.len() && s1[p] == s2[i] && s1[q] == s2[i];
            assert(ranges_disjoint(s1[p], s1[q]));
        } else {
            lemma_permutation_contains(s1, s2);
            assert(s1.contains(s2[i]));
            assert(s1.contains(s2[j]));
            let p = choose|p: int| 0 <= p < s1.len() && s1[p] == s2[i];
            let q = choose|q: int| 0 <= q < s1.len() && s1[q] == s2[j];
            if p < q {
                assert(ranges_disjoint(s1[p], s1[q]));
            } else {
                assert(ranges_disjoint(s1[q], s1[p]));
            }
        }
    }
}

/// In a sequence of non-empty ranges where each range ends no later than the
/// next one starts, any earlier range ends no later than any later one starts.
proof fn lemma_chain(s: Seq<Range<usize>>, i: int, j: int)
    requires
        all_nonempty(s),
        forall|t: int| #![trigger s[t]] 0 <= t < s.len() - 1 ==> s[t].end <= s[t + 1].start,
        0 <= i < j < s.len(),
    ensures
        s[i].end <= s[j].start,
    decreases j - i,
{
    if j == i + 1 {
    } else {
        lemma_chain(s, i, j - 1);
        assert(!range_is_empty(s[j - 1]));
    }
}

/// Sorts the ranges by their start index; the result is a reordering of the
/// input.
fn sort_ranges_by_start(values: Vec<Range<usize>>) -> (sorted: Vec<Range<usize>>)
    ensures
        sorted@.to_multiset() == values@.to_multiset(),
        sorted_by_start(sorted@),
{
    let mut rest = values;
    let mut sorted: Vec<Range<usize>> = Vec::new();
    proof {
        broadcast use vstd::seq_lib::group_to_multiset_ensures;
        broadcast use vstd::multiset::group_multiset_axioms;

        vstd::multiset::lemma_multiset_empty_len(sorted@.to_multiset());
        assert(sorted@.to_multiset().add(rest@.to_multiset()) =~= rest@.to_multiset());
    }
    while rest.len() > 0
        invariant
            sorted@.to_multiset().add(rest@.to_multiset()) == values@.to_multiset(),
            sorted_by_start(sorted@),
            forall|i: int, j: int|
                0 <= i < sorted@.len() && 0 <= j < rest@.len() ==> sorted@[i].start
                    <= rest@[j].start,
        decreases rest@.len(),
    {
        let mut m: usize = 0;
        let mut k: usize = 1;
        while k < rest.len()
            invariant
                (m as int) < (k as int),
                k <= rest@.len(),
                rest@.len() > 0,
                forall|t: int| 0 <= t < k ==> rest@[m as int].start <= #[trigger] rest@[t].start,
            decreases rest@.len() - k,
        {
            if rest[k].start < rest[m].start {
                m = k;
            }
            k += 1;
        }
        let ghost rest0 = rest@;
        let ghost sorted0 = sorted@;
        let r = rest.remove(m);
        sorted.push(r);
        proof {
            broadcast use vstd::seq_lib::group_to_multiset_ensures;
            broadcast use vstd::multiset::group_multiset_axioms;

            assert(rest0.contains(r));
            assert(rest0.to_multiset().count(r) > 0);
            assert(rest@.to_multiset() == rest0.to_multiset().remove(r));
            assert(sorted@.to_multiset() == sorted0.to_multiset().insert(r));
            assert(sorted@.to_multiset().add(rest@.to_multiset()) =~= sorted0.to_multiset().add(
                rest0.to_multiset(),
            ));
            assert forall|i: int, j: int|
                0 <= i < sorted@.len() && 0 <= j < rest@.len() implies sorted@[i].start
                <= rest@[j].start by {
                if i < sorted0.len() {
                    if j < m {
                        assert(rest@[j] == rest0[j]);
                    } else {
                        assert(rest@[j] == rest0[j + 1]);
                    }
                } else {
                    assert(sorted@[i] == r);
                    if j < m {
                        assert(rest@[j] == rest0[j]);
                    } else {
                        assert(rest@[j] == rest0[j + 1]);
                    }
                }
            }
            assert forall|i: int, j: int| 0 <= i <= j < sorted@.len() implies sorted@[i].start
                <= sorted@[j].start by {
                if j < sorted0.len() {
                } else {
                    assert(sorted@[j] == r);
                }
            }
        }
    }
    proof {
        broadcast use vstd::seq_lib::group_to_multiset_ensures;
        broadcast use vstd::multiset::group_multiset_axioms;

        assert(sorted@.to_multiset() =~= sorted@.to_multiset().add(rest@.to_multiset()));
    }
    sorted
}

/// Collects the non-empty ranges of all groups, flattened in declared order.
fn flatten_nonempty(groups: &Vec<Vec<Range<usize>>>) -> (values: Vec<Range<usize>>)
    ensures
        values@ == flat_nonempty(groups_view(groups@)),
{
    let ghost gv = groups_view(groups@);
    let mut values: Vec<Range<usize>> = Vec::new();
    let mut g: usize = 0;
    while g < groups.len()
        invariant
            g <= groups@.len(),
            gv == groups_view(groups@),
            values@ == flat_nonempty(gv.take(g as int)),
        decreases groups@.len() - g,
    {
        let grp: &Vec<Range<usize>> = &groups[g];
        let mut k: usize = 0;
        while k < grp.len()
            invariant
                k <= grp@.len(),
                g < groups@.len(),
                gv == groups_view(groups@),
                grp@ == gv[g as int],
                values@ == flat_nonempty(gv.take(g as int)) + keep_nonempty(grp@.take(k as int)),
            decreases grp@.len() - k,
        {
            let start = grp[k].start;
            let end = grp[k].end;
            if start < end {
                values.push(Range { start, end });
            }
            proof {
                assert(grp@.take(k as int + 1).drop_last() =~= grp@.take(k as int));
                assert(grp@.take(k as int + 1).last() == grp@[k as int]);
                if start < end {
                    assert(Range { start, end } == grp@[k as int]);
                    assert(keep_nonempty(grp@.take(k as int + 1)) == keep_nonempty(
                        grp@.take(k as int),
                    ) + seq![grp@[k as int]]);
                } else {
                    assert(keep_nonempty(grp@.take(k as int + 1)) =~= keep_nonempty(
                        grp@.take(k as int),
                    ));
                }
            }
            k += 1;
        }
        proof {
            assert(grp@.take(grp@.len() as int) =~= grp@);
            assert(gv.take(g as int + 1).drop_last() =~= gv.take(g as int));
            assert(gv.take(g as int + 1).last() == gv[g as int]);
        }
        g += 1;
    }
    proof {
        assert(gv.take(groups@.len() as int) =~= gv);
    }
    values
}

/// Decides whether the groups of requested ranges may all be borrowed from a
/// sequence with the given bounds at once: every non-empty range must lie
/// inside `bounds`, and no two non-empty ranges anywhere across the groups may
/// share an index.  Empty ranges are ignored; with no non-empty range at all,
/// validation succeeds against any bounds.
///
/// Disjointness is checked first: when both failures are present at once, the
/// overlap is the one reported.
pub fn check_valid_disjoint_groups(
    bounds: &Range<usize>,
    groups: &Vec<Vec<Range<usize>>>,
) -> (r: Result<(), GetManyDisjointGroupedError>)
    ensures
        ({
            let flat = flat_nonempty(groups_view(groups@));
            &&& (r is Ok <==> groups_valid(*bounds, groups_view(groups@)))
            &&& ((r matches Err(e) && e == GetManyDisjointGroupedError::NotDisjoint)
                <==> !pairwise_disjoint(flat))
            &&& ((r matches Err(e) && e == GetManyDisjointGroupedError::OutOfBounds)
                <==> pairwise_disjoint(flat) && !all_within(flat, *bounds))
        }),
{
    let ghost flat = flat_nonempty(groups_view(groups@));
    let values = flatten_nonempty(groups);
    proof {
        lemma_flat_nonempty_all(groups_view(groups@));
    }
    let sorted = sort_ranges_by_start(values);
    proof {
        broadcast use vstd::seq_lib::group_to_multiset_ensures;

        lemma_permutation_contains(flat, sorted@);
        assert forall|i: int| 0 <= i < sorted@.len() implies !range_is_empty(
            #[trigger] sorted@[i],
        ) by {
            assert(flat.contains(sorted@[i]));
            let p = choose|p: int| 0 <= p < flat.len() && flat[p] == sorted@[i];
        }
    }

    if sorted.len() == 0 {
        proof {
            broadcast use vstd::seq_lib::group_to_multiset_ensures;

            assert(flat.to_multiset().len() == flat.len());
            assert(sorted@.to_multiset().len() == sorted@.len());
            assert(flat.len() == sorted@.len());
        }
        return Ok(());
    }

    let mut idx: usize = 1;
    while idx < sorted.len()
        invariant
            1 <= idx <= sorted@.len(),
            sorted@.len() > 0,
            sorted@.to_multiset() == flat.to_multiset(),
            sorted_by_start(sorted@),
            all_nonempty(sorted@),
            flat == flat_nonempty(groups_view(groups@)),
            forall|t: int| #![trigger sorted@[t]] 0 <= t < idx - 1 ==> sorted@[t].end <= sorted@[t
                + 1].start,
        decreases sorted@.len() - idx,
    {
        if sorted[idx - 1].end > sorted[idx].start {
            proof {
                let a = sorted@[idx - 1];
                let b = sorted@[idx as int];
                assert(a.start <= b.start);
                assert(b.end > b.start);
                assert(!ranges_disjoint(a, b));
                assert(!pairwise_disjoint(sorted@));
                if pairwise_disjoint(flat) {
                    lemma_pairwise_disjoint_permutation(flat, sorted@);
                }
            }
            return Err(GetManyDisjointGroupedError::NotDisjoint);
        }
        idx += 1;
    }
    proof {
        lemma_chain_full(sorted@);
        lemma_pairwise_disjoint_permutation(sorted@, flat);
    }

    let lo = sorted[0].start;
    let hi = sorted[sorted.len() - 1].end;
    if lo >= bounds.start && hi <= bounds.end {
        proof {
            let last = sorted@.len() - 1;
            assert forall|t: int| 0 <= t < sorted@.len() implies range_within(
                #[trigger] sorted@[t],
                *bounds,
            ) by {
                assert(sorted@[0].start <= sorted@[t].start);
                if t < last {
                    lemma_chain(sorted@, t, last);
                    assert(!range_is_empty(sorted@[last]));
                }
            }
            lemma_permutation_contains(sorted@, flat);
            assert forall|t: int| 0 <= t < flat.len() implies range_within(
                #[trigger] flat[t],
                *bounds,
            ) by {
                let p = choose|p: int| 0 <= p < sorted@.len() && sorted@[p] == flat[t];
            }
        }
        Ok(())
    } else {
        proof {
            lemma_permutation_contains(flat, sorted@);
            let last = sorted@.len() - 1;
            if lo < bounds.start {
                assert(!range_within(sorted@[0], *bounds));
                let p = choose|p: int| 0 <= p < flat.len() && flat[p] == sorted@[0];
                assert(!range_within(flat[p], *bounds));
            } else {
                assert(!range_within(sorted@[last], *bounds));
                let p = choose|p: int| 0 <= p < flat.len() && flat[p] == sorted@[last];
                assert(!range_within(flat[p], *bounds));
            }
        }
        Err(GetManyDisjointGroupedError::OutOfBounds)
    }
}

/// The number of indices a range covers.
pub open spec fn range_len(r: Range<usize>) -> nat {
    if r.start < r.end {
        (r.end - r.start) as nat
    } else {
        0
    }
}

/// The indices a range covers, in ascending order.
pub open spec fn range_indices(r: Range<usize>) -> Seq<usize> {
    Seq::new(range_len(r), |k: int| (r.start + k) as usize)
}

/// The indices one group covers: each range's indices in ascending order,
/// ranges in declared order.
pub open spec fn group_indices(g: Seq<Range<usize>>) -> Seq<usize>
    decreases g.len(),
{
    if g.len() == 0 {
        Seq::empty()
    } else {
        group_indices(g.drop_last()) + range_indices(g.last())
    }
}

/// The indices of all groups, concatenated in group order.
pub open spec fn all_groups_indices(gs: Seq<Seq<Range<usize>>>) -> Seq<usize>
    decreases gs.len(),
{
    if gs.len() == 0 {
        Seq::empty()
    } else {
        all_groups_indices(gs.drop_last()) + group_indices(gs.last())
    }
}

/// The total number of indices the ranges of the sequence cover.
pub open spec fn total_len(rs: Seq<Range<usize>>) -> nat
    decreases rs.len(),
{
    if rs.len() == 0 {
        0
    } else {
        total_len(rs.drop_last()) + range_len(rs.last())
    }
}

proof fn lemma_keep_nonempty_contains(g: Seq<Range<usize>>, k: int)
    requires
        0 <= k < g.len(),
        !range_is_empty(g[k]),
    ensures
        keep_nonempty(g).contains(g[k]),
    decreases g.len(),
{
    if k == g.len() - 1 {
        let s = keep_nonempty(g);
        assert(s[s.len() - 1] == g[k]);
        assert(s.contains(g[k]));
    } else {
        lemma_keep_nonempty_contains(g.drop_last(), k);
        let pre = keep_nonempty(g.drop_last());
        let p = choose|p: int| 0 <= p < pre.len() && pre[p] == g[k];
        assert(keep_nonempty(g)[p] == g[k]);
        assert(keep_nonempty(g).contains(g[k]));
    }
}

proof fn lemma_flat_contains(gs: Seq<Seq<Range<usize>>>, g: int, k: int)
    requires
        0 <= g < gs.len(),
        0 <= k < gs[g].len(),
        !range_is_empty(gs[g][k]),
    ensures
        flat_nonempty(gs).contains(gs[g][k]),
    decreases gs.len(),
{
    if g == gs.len() - 1 {
        lemma_keep_nonempty_contains(gs.last(), k);
        let kp = keep_nonempty(gs.last());
        let p = choose|p: int| 0 <= p < kp.len() && kp[p] == gs[g][k];
        assert(flat_nonempty(gs)[flat_nonempty(gs.drop_last()).len() + p] == gs[g][k]);
        assert(flat_nonempty(gs).contains(gs[g][k]));
    } else {
        lemma_flat_contains(gs.drop_last(), g, k);
        let pre = flat_nonempty(gs.drop_last());
        let p = choose|p: int| 0 <= p < pre.len() && pre[p] == gs[g][k];
        assert(flat_nonempty(gs)[p] == gs[g][k]);
        assert(flat_nonempty(gs).contains(gs[g][k]));
    }
}

/// Under a valid request, every non-empty requested range lies inside the
/// bounds.
proof fn lemma_valid_range_within(
    b: Range<usize>,
    gs: Seq<Seq<Range<usize>>>,
    g: int,
    k: int,
)
    requires
        groups_valid(b, gs),
        0 <= g < gs.len(),
        0 <= k < gs[g].len(),
        !range_is_empty(gs[g][k]),
    ensures
        range_within(gs[g][k], b),
{
    lemma_flat_contains(gs, g, k);
    let flat = flat_nonempty(gs);
    let p = choose|p: int| 0 <= p < flat.len() && flat[p] == gs[g][k];
    assert(range_within(flat[p], b));
}

/// In a sequence of non-empty ranges in which every adjacent pair is ordered
/// end-before-start, all pairs are disjoint.
proof fn lemma_chain_full(s: Seq<Range<usize>>)
    requires
        all_nonempty(s),
        forall|t: int| #![trigger s[t]] 0 <= t < s.len() - 1 ==> s[t].end <= s[t + 1].start,
    ensures
        pairwise_disjoint(s),
{
    assert forall|i: int, j: int| 0 <= i < j < s.len() implies ranges_disjoint(s[i], s[j]) by {
        lemma_chain(s, i, j);
    }
}

impl GetManyDisjointGroupedError {
    /// The failure described in words.
    pub fn message(&self) -> (r: &'static str)
        ensures
            *self == GetManyDisjointGroupedError::OutOfBounds ==> r@
                =~= "At least one group exceeds the bounds of the slice"@,
            *self == GetManyDisjointGroupedError::NotDisjoint ==> r@
                =~= "At least one group overlaps another group"@,
    {
        match self {
            GetManyDisjointGroupedError::OutOfBounds => {
                "At least one group exceeds the bounds of the slice"
            },
            GetManyDisjointGroupedError::NotDisjoint => {
                "At least one group overlaps another group"
            },
        }
    }
}

proof fn lemma_keep_step(g: Seq<Range<usize>>, k: int)
    requires
        0 <= k < g.len(),
    ensures
        keep_nonempty(g.take(k + 1)) == keep_nonempty(g.take(k)) + (if range_is_empty(g[k]) {
            Seq::<Range<usize>>::empty()
        } else {
            seq![g[k]]
        }),
{
    assert(g.take(k + 1).drop_last() =~= g.take(k));
    assert(g.take(k + 1).last() == g[k]);
}

proof fn lemma_flat_step(gs: Seq<Seq<Range<usize>>>, g: int)
    requires
        0 <= g < gs.len(),
    ensures
        flat_nonempty(gs.take(g + 1)) == flat_nonempty(gs.take(g)) + keep_nonempty(gs[g]),
{
    assert(gs.take(g + 1).drop_last() =~= gs.take(g));
    assert(gs.take(g + 1).last() == gs[g]);
}

/// The position in `keep_nonempty(g)` at which a non-empty range `g[k]`
/// comes to sit.
spec fn keep_pos(g: Seq<Range<usize>>, k: int) -> int {
    keep_nonempty(g.take(k)).len() as int
}

/// The position in `flat_nonempty(gs)` at which a non-empty range
/// `gs[g][k]` comes to sit.
spec fn flat_pos(gs: Seq<Seq<Range<usize>>>, g: int, k: int) -> int {
    flat_nonempty(gs.take(g)).len() + keep_pos(gs[g], k)
}

proof fn lemma_keep_at(g: Seq<Range<usize>>, k: int)
    requires
        0 <= k < g.len(),
        !range_is_empty(g[k]),
    ensures
        0 <= keep_pos(g, k) < keep_nonempty(g).len(),
        keep_nonempty(g)[keep_pos(g, k)] == g[k],
    decreases g.len(),
{
    if k == g.len() - 1 {
        assert(g.take(k) =~= g.drop_last());
    } else {
        lemma_keep_at(g.drop_last(), k);
        assert(g.drop_last().take(k) =~= g.take(k));
    }
}

proof fn lemma_keep_pos_mono(g: Seq<Range<usize>>, k1: int, k2: int)
    requires
        0 <= k1 < k2 <= g.len(),
        !range_is_empty(g[k1]),
    ensures
        keep_pos(g, k1) < keep_pos(g, k2),
    decreases k2 - k1,
{
    if k2 == k1 + 1 {
        lemma_keep_step(g, k1);
    } else {
        lemma_keep_pos_mono(g, k1, k2 - 1);
        lemma_keep_step(g, k2 - 1);
    }
}

proof fn lemma_flat_len_mono(gs: Seq<Seq<Range<usize>>>, a: int, b: int)
    requires
        0 <= a <= b <= gs.len(),
    ensures
        flat_nonempty(gs.take(a)).len() <= flat_nonempty(gs.take(b)).len(),
    decreases b - a,
{
    if a < b {
        lemma_flat_len_mono(gs, a, b - 1);
        lemma_flat_step(gs, b - 1);
    }
}

proof fn lemma_flat_at(gs: Seq<Seq<Range<usize>>>, g: int, k: int)
    requires
        0 <= g < gs.len(),
        0 <= k < gs[g].len(),
        !range_is_empty(gs[g][k]),
    ensures
        0 <= flat_pos(gs, g, k) < flat_nonempty(gs).len(),
        flat_nonempty(gs)[flat_pos(gs, g, k)] == gs[g][k],
    decreases gs.len(),
{
    lemma_keep_at(gs[g], k);
    if g == gs.len() - 1 {
        assert(gs.take(g) =~= gs.drop_last());
    } else {
        lemma_flat_at(gs.drop_last(), g, k);
        assert(gs.drop_last().take(g) =~= gs.take(g));
        assert(gs.drop_last()[g] == gs[g]);
    }
}

proof fn lemma_flat_pos_distinct(gs: Seq<Seq<Range<usize>>>, g1: int, k1: int, g2: int, k2: int)
    requires
        0 <= g1 < gs.len(),
        0 <= k1 < gs[g1].len(),
        0 <= g2 < gs.len(),
        0 <= k2 < gs[g2].len(),
        g1 < g2 || (g1 == g2 && k1 < k2),
        !range_is_empty(gs[g1][k1]),
        !range_is_empty(gs[g2][k2]),
    ensures
        flat_pos(gs, g1, k1) < flat_pos(gs, g2, k2),
{
    if g1 == g2 {
        lemma_keep_pos_mono(gs[g1], k1, k2);
    } else {
        lemma_keep_at(gs[g1], k1);
        lemma_flat_step(gs, g1);
        lemma_flat_len_mono(gs, g1 + 1, g2);
        assert(keep_pos(gs[g2], k2) >= 0);
    }
}

/// Completeness of rejection for overlap: two non-empty ranges that share an
/// index, wherever they sit across the groups (the same group included),
/// defeat pairwise disjointness of the flattened request, so validation can
/// only report `NotDisjoint` for it.
pub proof fn lemma_overlap_rejected(gs: Seq<Seq<Range<usize>>>, g1: int, k1: int, g2: int, k2: int)
    requires
        0 <= g1 < gs.len(),
        0 <= k1 < gs[g1].len(),
        0 <= g2 < gs.len(),
        0 <= k2 < gs[g2].len(),
        g1 != g2 || k1 != k2,
        !range_is_empty(gs[g1][k1]),
        !range_is_empty(gs[g2][k2]),
        gs[g1][k1].start < gs[g2][k2].end,
        gs[g2][k2].start < gs[g1][k1].end,
    ensures
        !pairwise_disjoint(flat_nonempty(gs)),
        forall|b: Range<usize>| !groups_valid(b, gs),
{
    lemma_flat_at(gs, g1, k1);
    lemma_flat_at(gs, g2, k2);
    let flat = flat_nonempty(gs);
    if g1 < g2 || (g1 == g2 && k1 < k2) {
        lemma_flat_pos_distinct(gs, g1, k1, g2, k2);
        let p1 = flat_pos(gs, g1, k1);
        let p2 = flat_pos(gs, g2, k2);
        assert(!ranges_disjoint(flat[p1], flat[p2]));
    } else {
        lemma_flat_pos_distinct(gs, g2, k2, g1, k1);
        let p1 = flat_pos(gs, g2, k2);
        let p2 = flat_pos(gs, g1, k1);
        assert(!ranges_disjoint(flat[p1], flat[p2]));
    }
}

/// Completeness of rejection for bounds: a non-empty range that leaves the
/// bounds defeats containment of the flattened request, so a request whose
/// non-empty ranges are still pairwise disjoint can only be reported
/// `OutOfBounds` (an overlap, when also present, takes precedence through
/// the validator's contract).
pub proof fn lemma_out_of_bounds_rejected(
    bounds: Range<usize>,
    gs: Seq<Seq<Range<usize>>>,
    g: int,
    k: int,
)
    requires
        0 <= g < gs.len(),
        0 <= k < gs[g].len(),
        !range_is_empty(gs[g][k]),
        !range_within(gs[g][k], bounds),
    ensures
        !all_within(flat_nonempty(gs), bounds),
        !groups_valid(bounds, gs),
{
    lemma_flat_at(gs, g, k);
    let p = flat_pos(gs, g, k);
    assert(!range_within(flat_nonempty(gs)[p], bounds));
}

/// Vacuous acceptance: a request whose groups hold only empty ranges, or no
/// ranges at all, is valid against any bounds.
pub proof fn lemma_vacuous_acceptance(bounds: Range<usize>, gs: Seq<Seq<Range<usize>>>)
    requires
        forall|g: int, k: int|
            0 <= g < gs.len() && 0 <= k < gs[g].len() ==> range_is_empty(#[trigger] gs[g][k]),
    ensures
        flat_nonempty(gs).len() == 0,
        groups_valid(bounds, gs),
    decreases gs.len(),
{
    if gs.len() > 0 {
        lemma_vacuous_acceptance(bounds, gs.drop_last());
        lemma_keep_all_empty(gs.last());
        assert(flat_nonempty(gs) =~= flat_nonempty(gs.drop_last()) + keep_nonempty(gs.last()));
    }
}

proof fn lemma_keep_all_empty(g: Seq<Range<usize>>)
    requires
        forall|k: int| 0 <= k < g.len() ==> range_is_empty(#[trigger] g[k]),
    ensures
        keep_nonempty(g).len() == 0,
    decreases g.len(),
{
    if g.len() > 0 {
        lemma_keep_all_empty(g.drop_last());
    }
}

proof fn lemma_group_indices_concat(a: Seq<Range<usize>>, b: Seq<Range<usize>>)
    ensures
        group_indices(a + b) == group_indices(a) + group_indices(b),
    decreases b.len(),
{
    if b.len() == 0 {
        assert(a + b =~= a);
        assert(group_indices(a) + group_indices(b) =~= group_indices(a));
    } else {
        lemma_group_indices_concat(a, b.drop_last());
        assert((a + b).drop_last() =~= a + b.drop_last());
        assert((a + b).last() == b.last());
        assert(group_indices(a) + group_indices(b.drop_last()) + range_indices(b.last())
            =~= group_indices(a) + (group_indices(b.drop_last()) + range_indices(b.last())));
    }
}

proof fn lemma_group_indices_keep(g: Seq<Range<usize>>)
    ensures
        group_indices(keep_nonempty(g)) == group_indices(g),
    decreases g.len(),
{
    if g.len() > 0 {
        lemma_group_indices_keep(g.drop_last());
        let tail: Seq<Range<usize>> = if range_is_empty(g.last()) {
            Seq::empty()
        } else {
            seq![g.last()]
        };
        lemma_group_indices_concat(keep_nonempty(g.drop_last()), tail);
        if range_is_empty(g.last()) {
            assert(group_indices(tail).len() == 0);
            assert(range_indices(g.last()).len() == 0);
            assert(group_indices(keep_nonempty(g)) =~= group_indices(g));
        } else {
            assert(tail.drop_last() =~= Seq::<Range<usize>>::empty());
            assert(tail.last() == g.last());
            assert(group_indices(tail.drop_last()) =~= Seq::<usize>::empty());
            assert(group_indices(tail) == group_indices(tail.drop_last()) + range_indices(
                g.last(),
            ));
            assert(group_indices(tail) =~= range_indices(g.last()));
        }
    }
}

/// The handles of all groups are exactly the indices of the flattened
/// non-empty ranges, in order.
proof fn lemma_all_groups_indices_flat(gs: Seq<Seq<Range<usize>>>)
    ensures
        all_groups_indices(gs) == group_indices(flat_nonempty(gs)),
    decreases gs.len(),
{
    if gs.len() > 0 {
        lemma_all_groups_indices_flat(gs.drop_last());
        lemma_group_indices_keep(gs.last());
        lemma_group_indices_concat(flat_nonempty(gs.drop_last()), keep_nonempty(gs.last()));
    }
}

proof fn lemma_group_indices_sound(b: Range<usize>, rs: Seq<Range<usize>>)
    requires
        pairwise_disjoint(rs),
        all_within(rs, b),
    ensures
        group_indices(rs).no_duplicates(),
        group_indices(rs).len() == total_len(rs),
        forall|t: int|
            0 <= t < group_indices(rs).len() ==> exists|j: int|
                0 <= j < rs.len() && (#[trigger] rs[j]).start <= #[trigger] group_indices(rs)[t]
                    < rs[j].end,
        forall|t: int|
            0 <= t < group_indices(rs).len() ==> b.start <= #[trigger] group_indices(rs)[t]
                < b.end,
    decreases rs.len(),
{
    if rs.len() == 0 {
    } else {
        let pre = rs.drop_last();
        let last = rs.last();
        assert forall|i: int, j: int| 0 <= i < j < pre.len() implies ranges_disjoint(
            pre[i],
            pre[j],
        ) by {
            assert(ranges_disjoint(rs[i], rs[j]));
        }
        assert forall|i: int| 0 <= i < pre.len() implies range_within(#[trigger] pre[i], b) by {
            assert(range_within(rs[i], b));
        }
        lemma_group_indices_sound(b, pre);
        let gp = group_indices(pre);
        let ri = range_indices(last);
        let all = group_indices(rs);
        assert(all == gp + ri);
        assert forall|t: int| 0 <= t < all.len() implies exists|j: int|
            0 <= j < rs.len() && (#[trigger] rs[j]).start <= #[trigger] all[t] < rs[j].end by {
            if t < gp.len() {
                assert(all[t] == gp[t]);
                let j = choose|j: int|
                    0 <= j < pre.len() && (#[trigger] pre[j]).start <= gp[t] < pre[j].end;
                assert(rs[j].start <= all[t] < rs[j].end);
            } else {
                assert(all[t] == ri[t - gp.len()]);
                assert(ri[t - gp.len()] == (last.start + (t - gp.len())) as usize);
                let j = rs.len() - 1;
                assert(rs[j].start <= all[t] < rs[j].end);
            }
        }
        assert forall|t: int| 0 <= t < all.len() implies b.start <= #[trigger] all[t]
            < b.end by {
            let j = choose|j: int|
                0 <= j < rs.len() && (#[trigger] rs[j]).start <= all[t] < rs[j].end;
            if !range_is_empty(rs[j]) {
                assert(range_within(rs[j], b));
            }
        }
        assert forall|p1: int, p2: int|
            0 <= p1 < all.len() && 0 <= p2 < all.len() && p1 != p2 implies all[p1]
            != all[p2] by {
            if p1 < gp.len() && p2 < gp.len() {
                assert(gp.no_duplicates());
            } else if p1 >= gp.len() && p2 >= gp.len() {
                assert(all[p1] == (last.start + (p1 - gp.len())) as usize);
                assert(all[p2] == (last.start + (p2 - gp.len())) as usize);
            } else {
                let (a, c): (int, int) = if p1 < gp.len() {
                    (p1, p2)
                } else {
                    (p2, p1)
                };
                let j = choose|j: int|
                    0 <= j < pre.len() && (#[trigger] pre[j]).start <= gp[a] < pre[j].end;
                assert(ranges_disjoint(rs[j], last));
                assert(all[c] == (last.start + (c - gp.len())) as usize);
                assert(last.start <= all[c] < last.end);
            }
        }
    }
}

/// Soundness of unchecked access: under a valid request, the index handles
/// of all groups are pairwise distinct, each lies inside the bounds, and
/// their number is the summed length of the non-empty requested ranges — so
/// no two of the references reached through them can alias.
pub proof fn lemma_valid_groups_handles_sound(b: Range<usize>, gs: Seq<Seq<Range<usize>>>)
    requires
        groups_valid(b, gs),
    ensures
        all_groups_indices(gs).no_duplicates(),
        forall|t: int|
            0 <= t < all_groups_indices(gs).len() ==> b.start <= #[trigger] all_groups_indices(
                gs,
            )[t] < b.end,
        all_groups_indices(gs).len() == total_len(flat_nonempty(gs)),
{
    lemma_all_groups_indices_flat(gs);
    lemma_group_indices_sound(b, flat_nonempty(gs));
}

/// Borrowing several groups of index ranges out of one underlying store at
/// the same time.
///
/// The store is modelled by its bounds and by the item it holds at each
/// index.  A request is validated as a whole; once valid, the accessors hand
/// out, per group, the covered items (shared references) or the covered
/// indices (handles through which a caller reaches each item exclusively,
/// one index never appearing twice).
pub trait GetManyDisjointGrouped<Item> {
    /// The addressable extent of the underlying store.
    spec fn spec_bounds(&self) -> Range<usize>;

    /// The item the underlying store holds at index `i`.
    spec fn item_at(&self, i: int) -> Item;

    /// Reports the bounds of the underlying store.
    fn bounds(&self) -> (r: Range<usize>)
        ensures
            r == self.spec_bounds(),
    ;

    /// Checks that all groups are disjoint and inside the bounds of `self`:
    /// disjointness of the non-empty ranges is checked first, then their
    /// containment in the bounds, and the first failure is the one reported.
    fn check_valid_disjoint_groups(&self, groups: &Vec<Vec<Range<usize>>>) -> (r: Result<
        (),
        GetManyDisjointGroupedError,
    >)
        ensures
            ({
                let flat = flat_nonempty(groups_view(groups@));
                &&& (r is Ok <==> groups_valid(self.spec_bounds(), groups_view(groups@)))
                &&& ((r matches Err(e) && e == GetManyDisjointGroupedError::NotDisjoint)
                    <==> !pairwise_disjoint(flat))
                &&& ((r matches Err(e) && e == GetManyDisjointGroupedError::OutOfBounds)
                    <==> pairwise_disjoint(flat) && !all_within(flat, self.spec_bounds()))
            }),
    ;

    /// Gets groups of references to items of the underlying store, each group
    /// covering its ranges in declared order, each range in ascending index
    /// order.  Validity of the request is not checked here at run time: the
    /// caller discharges it by proof, or through
    /// [`Self::get_many_disjoint_grouped`].
    fn get_many_disjoint_grouped_unchecked<'a>(&'a self, groups: &Vec<Vec<Range<usize>>>) -> (out:
        Vec<Vec<&'a Item>>)
        requires
            groups_valid(self.spec_bounds(), groups_view(groups@)),
        ensures
            out@.len() == groups@.len(),
            forall|g: int|
                0 <= g < groups@.len() ==> (#[trigger] out@[g])@.len() == group_indices(
                    groups_view(groups@)[g],
                ).len(),
            forall|g: int, k: int|
                #![trigger out@[g]@[k]]
                0 <= g < groups@.len() && 0 <= k < group_indices(groups_view(groups@)[g]).len()
                    ==> *out@[g]@[k] == self.item_at(
                    group_indices(groups_view(groups@)[g])[k] as int,
                ),
    ;

    /// Gets groups of index handles into the underlying store, one handle per
    /// covered item, each group covering its ranges in declared order, each
    /// range in ascending index order.  Under the validity precondition no
    /// index appears twice, so the handles grant exclusive access item by
    /// item through any bounds-checked indexing of the store.
    fn get_many_disjoint_grouped_mut_unchecked(&self, groups: &Vec<Vec<Range<usize>>>) -> (out:
        Vec<Vec<usize>>)
        requires
            groups_valid(self.spec_bounds(), groups_view(groups@)),
        ensures
            out@.len() == groups@.len(),
            forall|g: int|
                0 <= g < groups@.len() ==> (#[trigger] out@[g])@ == group_indices(
                    groups_view(groups@)[g],
                ),
    ;

    /// Gets groups of references to items of the underlying store, after
    /// checking that the request is valid; on an invalid request the
    /// validator's error is returned and nothing is borrowed.
    fn get_many_disjoint_grouped<'a>(&'a self, groups: Vec<Vec<Range<usize>>>) -> (r: Result<
        Vec<Vec<&'a Item>>,
        GetManyDisjointGroupedError,
    >)
        ensures
            ({
                let gv = groups_view(groups@);
                let flat = flat_nonempty(gv);
                &&& (r is Ok <==> groups_valid(self.spec_bounds(), gv))
                &&& (r matches Ok(out) ==> out@.len() == groups@.len() && (forall|g: int|
                    0 <= g < groups@.len() ==> (#[trigger] out@[g])@.len() == group_indices(
                        gv[g],
                    ).len()) && (forall|g: int, k: int|
                    #![trigger out@[g]@[k]]
                    0 <= g < groups@.len() && 0 <= k < group_indices(gv[g]).len() ==> *out@[g]@[k]
                        == self.item_at(group_indices(gv[g])[k] as int)))
                &&& ((r matches Err(e) && e == GetManyDisjointGroupedError::NotDisjoint)
                    <==> !pairwise_disjoint(flat))
                &&& ((r matches Err(e) && e == GetManyDisjointGroupedError::OutOfBounds)
                    <==> pairwise_disjoint(flat) && !all_within(flat, self.spec_bounds()))
            }),
    ;

    /// Gets groups of index handles into the underlying store, after checking
    /// that the request is valid; on an invalid request the validator's error
    /// is returned.
    fn get_many_disjoint_grouped_mut(&self, groups: Vec<Vec<Range<usize>>>) -> (r: Result<
        Vec<Vec<usize>>,
        GetManyDisjointGroupedError,
    >)
        ensures
            ({
                let gv = groups_view(groups@);
                let flat = flat_nonempty(gv);
                &&& (r is Ok <==> groups_valid(self.spec_bounds(), gv))
                &&& (r matches Ok(out) ==> out@.len() == groups@.len() && (forall|g: int|
                    0 <= g < groups@.len() ==> (#[trigger] out@[g])@ == group_indices(gv[g])))
                &&& ((r matches Err(e) && e == GetManyDisjointGroupedError::NotDisjoint)
                    <==> !pairwise_disjoint(flat))
                &&& ((r matches Err(e) && e == GetManyDisjointGroupedError::OutOfBounds)
                    <==> pairwise_disjoint(flat) && !all_within(flat, self.spec_bounds()))
            }),
    ;
}

impl<Item> GetManyDisjointGrouped<Item> for Vec<Item> {
    open spec fn spec_bounds(&self) -> Range<usize> {
        Range { start: 0usize, end: self@.len() as usize }
    }

    open spec fn item_at(&self, i: int) -> Item {
        self@[i]
    }

    fn bounds(&self) -> (r: Range<usize>) {
        Range { start: 0, end: self.len() }
    }

    fn check_valid_disjoint_groups(&self, groups: &Vec<Vec<Range<usize>>>) -> (r: Result<
        (),
        GetManyDisjointGroupedError,
    >) {
        let b = self.bounds();
        check_valid_disjoint_groups(&b, groups)
    }

    fn get_many_disjoint_grouped_unchecked<'a>(&'a self, groups: &Vec<Vec<Range<usize>>>) -> (out:
        Vec<Vec<&'a Item>>) {
        let ghost gv = groups_view(groups@);
        let mut out: Vec<Vec<&'a Item>> = Vec::new();
        let mut g: usize = 0;
        while g < groups.len()
            invariant
                g <= groups@.len(),
                gv == groups_view(groups@),
                groups_valid(self.spec_bounds(), gv),
                out@.len() == g,
                forall|gg: int|
                    0 <= gg < g ==> (#[trigger] out@[gg])@.len() == group_indices(gv[gg]).len(),
                forall|gg: int, k: int|
                    #![trigger out@[gg]@[k]]
                    0 <= gg < g && 0 <= k < group_indices(gv[gg]).len() ==> *out@[gg]@[k]
                        == self@[group_indices(gv[gg])[k] as int],
            decreases groups@.len() - g,
        {
            let grp: &Vec<Range<usize>> = &groups[g];
            let mut group_out: Vec<&'a Item> = Vec::new();
            let mut k: usize = 0;
            while k < grp.len()
                invariant
                    k <= grp@.len(),
                    g < groups@.len(),
                    gv == groups_view(groups@),
                    grp@ == gv[g as int],
                    groups_valid(self.spec_bounds(), gv),
                    group_out@.len() == group_indices(grp@.take(k as int)).len(),
                    forall|t: int|
                        0 <= t < group_out@.len() ==> *(#[trigger] group_out@[t])
                            == self@[group_indices(grp@.take(k as int))[t] as int],
                decreases grp@.len() - k,
            {
                let start = grp[k].start;
                let end = grp[k].end;
                let ghost base = group_indices(grp@.take(k as int)).len() as int;
                if start < end {
                    proof {
                        lemma_valid_range_within(self.spec_bounds(), gv, g as int, k as int);
                    }
                    let mut idx = start;
                    while idx < end
                        invariant
                            start <= idx <= end,
                            start < end,
                            end <= self@.len(),
                            base == group_indices(grp@.take(k as int)).len(),
                            group_out@.len() == base + idx - start,
                            forall|t: int|
                                0 <= t < base ==> *(#[trigger] group_out@[t])
                                    == self@[group_indices(grp@.take(k as int))[t] as int],
                            forall|u: int|
                                0 <= u < idx - start ==> *(#[trigger] group_out@[base + u])
                                    == self@[start + u],
                        decreases end - idx,
                    {
                        group_out.push(&self[idx]);
                        idx += 1;
                    }
                }
                proof {
                    assert(grp@.take(k as int + 1).drop_last() =~= grp@.take(k as int));
                    assert(grp@.take(k as int + 1).last() == grp@[k as int]);
                    assert(group_indices(grp@.take(k as int + 1)) == group_indices(
                        grp@.take(k as int),
                    ) + range_indices(grp@[k as int]));
                    assert forall|t: int|
                        0 <= t < group_out@.len() implies *(#[trigger] group_out@[t])
                        == self@[group_indices(grp@.take(k as int + 1))[t] as int] by {
                        if t >= base {
                            let u = t - base;
                            assert(*group_out@[base + u] == self@[start + u]);
                            assert(group_indices(grp@.take(k as int + 1))[t] == range_indices(
                                grp@[k as int],
                            )[u]);
                            assert(range_indices(grp@[k as int])[u] == (grp@[k as int].start
                                + u) as usize);
                        }
                    }
                }
                k += 1;
            }
            proof {
                assert(grp@.take(grp@.len() as int) =~= grp@);
            }
            out.push(group_out);
            g += 1;
        }
        out
    }

    fn get_many_disjoint_grouped_mut_unchecked(&self, groups: &Vec<Vec<Range<usize>>>) -> (out:
        Vec<Vec<usize>>) {
        let ghost gv = groups_view(groups@);
        let mut out: Vec<Vec<usize>> = Vec::new();
        let mut g: usize = 0;
        while g < groups.len()
            invariant
                g <= groups@.len(),
                gv == groups_view(groups@),
                out@.len() == g,
                forall|gg: int|
                    0 <= gg < g ==> (#[trigger] out@[gg])@ == group_indices(gv[gg]),
            decreases groups@.len() - g,
        {
            let grp: &Vec<Range<usize>> = &groups[g];
            let mut group_out: Vec<usize> = Vec::new();
            let mut k: usize = 0;
            while k < grp.len()
                invariant
                    k <= grp@.len(),
                    g < groups@.len(),
                    gv == groups_view(groups@),
                    grp@ == gv[g as int],
                    group_out@ == group_indices(grp@.take(k as int)),
                decreases grp@.len() - k,
            {
                let start = grp[k].start;
                let end = grp[k].end;
                let ghost before = group_out@;
                if start < end {
                    let mut idx = start;
                    while idx < end
                        invariant
                            start <= idx <= end,
                            start < end,
                            before == group_indices(grp@.take(k as int)),
                            group_out@ == before + range_indices(grp@[k as int]).take(
                                idx - start,
                            ),
                            grp@ == gv[g as int],
                            g < groups@.len(),
                            gv == groups_view(groups@),
                            grp@[k as int].start == start && grp@[k as int].end == end,
                            0 <= k < grp@.len(),
                        decreases end - idx,
                    {
                        proof {
                            assert(range_indices(grp@[k as int]).take(idx - start + 1)
                                =~= range_indices(grp@[k as int]).take(idx - start).push(idx));
                        }
                        group_out.push(idx);
                        idx += 1;
                    }
                    proof {
                        assert(range_indices(grp@[k as int]).take(range_len(grp@[k as int]) as int)
                            =~= range_indices(grp@[k as int]));
                    }
                }
                proof {
                    assert(grp@.take(k as int + 1).drop_last() =~= grp@.take(k as int));
                    assert(grp@.take(k as int + 1).last() == grp@[k as int]);
                    if start >= end {
                        assert(range_indices(grp@[k as int]) =~= Seq::<usize>::empty());
                        assert(group_out@ =~= before + range_indices(grp@[k as int]));
                    }
                    assert(group_indices(grp@.take(k as int + 1)) == group_indices(
                        grp@.take(k as int),
                    ) + range_indices(grp@[k as int]));
                }
                k += 1;
            }
            proof {
                assert(grp@.take(grp@.len() as int) =~= grp@);
            }
            out.push(group_out);
            g += 1;
        }
        out
    }

    fn get_many_disjoint_grouped<'a>(&'a self, groups: Vec<Vec<Range<usize>>>) -> (r: Result<
        Vec<Vec<&'a Item>>,
        GetManyDisjointGroupedError,
    >) {
        let b = self.bounds();
        match check_valid_disjoint_groups(&b, &groups) {
            Ok(()) => Ok(self.get_many_disjoint_grouped_unchecked(&groups)),
            Err(e) => Err(e),
        }
    }

    fn get_many_disjoint_grouped_mut(&self, groups: Vec<Vec<Range<usize>>>) -> (r: Result<
        Vec<Vec<usize>>,
        GetManyDisjointGroupedError,
    >) {
        let b = self.bounds();
        match check_valid_disjoint_groups(&b, &groups) {
            Ok(()) => Ok(self.get_many_disjoint_grouped_mut_unchecked(&groups)),
            Err(e) => Err(e),
        }
    }
}

} // verus!
