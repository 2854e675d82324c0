//! The Segment Merge Engine: consolidating under-length audio splits.
//!
//! A silence-based splitter produces an ordered list of split files; any
//! split shorter than a minimum duration is merged with a chosen neighbor
//! until every surviving split meets the minimum or only one split remains.
//! This module holds the decision and bookkeeping logic: which split to
//! merge with which neighbor, in which chronological order the two audio
//! streams are concatenated, and what the manifest looks like after a merge.
//! Running the external concatenation tool and replacing files on disk is
//! the caller's part; it performs one planned step, then records it here.

use vstd::prelude::*;
use crate::numerals::spec_pad3;
use crate::numerals::append_pad3;

verus! {

/// Minimum duration a consolidated split must reach, in milliseconds.
pub const MIN_SPLIT_DURATION_MS: u64 = 6000;

/// A single audio split: a file and its probed duration.
pub struct Split {
    /// The path to the audio file for this split.
    pub path: String,
    /// The probed duration of the file, in milliseconds.
    pub duration_ms: u64,
}

/// The ordered, authoritative listing of a project's current splits.
/// The order of `splits` is chronological: it follows the lexicographic
/// order of the zero-padded sequence index in each filename.
pub struct SplitManifest {
    /// The splits, in chronological order.
    pub splits: Vec<Split>,
    /// The project directory the splits live in.
    pub project_dir: String,
}

/// One planned merge step: the under-length split to eliminate and the
/// neighbor whose slot survives and absorbs its audio.
#[derive(Clone, Copy)]
pub struct MergePlan {
    /// Index of the under-length split whose file will be deleted.
    pub victim: usize,
    /// Index of the neighbor whose filename the merged audio is written under.
    pub partner: usize,
}

/// The file paths of a split sequence, in order.
pub open spec fn paths(splits: Seq<Split>) -> Seq<Seq<char>> {
    splits.map_values(|s: Split| s.path@)
}

/// Every split meets the minimum duration.
pub open spec fn all_long_enough(splits: Seq<Split>, min_ms: u64) -> bool {
    forall|i: int| 0 <= i < splits.len() ==> (#[trigger] splits[i]).duration_ms >= min_ms
}

/// Total duration of a split sequence, in milliseconds.
pub open spec fn total_duration(splits: Seq<Split>) -> int
    decreases splits.len(),
{
    if splits.len() == 0 {
        0
    } else {
        splits[0].duration_ms + total_duration(splits.drop_first())
    }
}

/// The merge partner chosen for an under-length split: the successor for the
/// first split, the predecessor for the last, otherwise whichever neighbor
/// is shorter, ties resolving to the predecessor.
pub open spec fn spec_partner(splits: Seq<Split>, victim: int) -> int
    recommends
        splits.len() >= 2,
        0 <= victim < splits.len(),
{
    if victim == 0 {
        1
    } else if victim == splits.len() - 1 {
        victim - 1
    } else if splits[victim - 1].duration_ms <= splits[victim + 1].duration_ms {
        victim - 1
    } else {
        victim + 1
    }
}

/// The split that survives a merge: the partner's file, holding the audio of
/// both, hence the sum of the two durations.
pub open spec fn merged_split(splits: Seq<Split>, victim: int, partner: int) -> Split
    recommends
        0 <= victim < splits.len(),
        0 <= partner < splits.len(),
{
    Split {
        path: splits[partner].path,
        duration_ms: (splits[victim].duration_ms + splits[partner].duration_ms) as u64,
    }
}

/// The manifest after one merge step: the partner's slot holds the merged
/// split and the victim's slot is gone; every other split is untouched.
pub open spec fn merge_result(splits: Seq<Split>, victim: int, partner: int) -> Seq<Split>
    recommends
        0 <= victim < splits.len(),
        0 <= partner < splits.len(),
        victim != partner,
{
    splits.update(partner, merged_split(splits, victim, partner)).remove(victim)
}

/// The index of the first split shorter than the minimum; the sequence
/// length when every split is long enough.
pub open spec fn spec_first_short(splits: Seq<Split>, min_ms: u64) -> int
    decreases splits.len(),
{
    if splits.len() == 0 {
        0
    } else if splits[0].duration_ms < min_ms {
        0
    } else {
        1 + spec_first_short(splits.drop_first(), min_ms)
    }
}

/// `spec_first_short` picks exactly the first violating index.
pub proof fn lemma_first_short_at(splits: Seq<Split>, min_ms: u64, v: int)
    requires
        0 <= v < splits.len(),
        splits[v].duration_ms < min_ms,
        forall|j: int| 0 <= j < v ==> (#[trigger] splits[j]).duration_ms >= min_ms,
    ensures
        spec_first_short(splits, min_ms) == v,
    decreases v,
{
    if v > 0 {
        let d = splits.drop_first();
        assert(forall|j: int| 0 <= j < d.len() ==> (#[trigger] d[j]) == splits[j + 1]);
        lemma_first_short_at(d, min_ms, v - 1);
    }
}

/// The manifest the Merge Engine leaves behind: while more than one split
/// exists and some split is under-length, the first violation merges with
/// the partner its position selects, and the scan restarts.
pub open spec fn spec_merge_all(splits: Seq<Split>, min_ms: u64) -> Seq<Split>
    decreases splits.len(),
{
    if splits.len() <= 1 || all_long_enough(splits, min_ms) {
        splits
    } else {
        let v = spec_first_short(splits, min_ms);
        if 0 <= v < splits.len() {
            spec_merge_all(merge_result(splits, v, spec_partner(splits, v)), min_ms)
        } else {
            splits
        }
    }
}

/// Whether `a` is a subsequence of `b`: `a` lists some of `b`'s elements,
/// in the same relative order.
pub open spec fn is_subseq<A>(a: Seq<A>, b: Seq<A>) -> bool
    decreases a.len() + b.len(),
{
    if a.len() == 0 {
        true
    } else if b.len() == 0 {
        false
    } else {
        (a[0] == b[0] && is_subseq(a.drop_first(), b.drop_first())) || is_subseq(a, b.drop_first())
    }
}

/// Every sequence is a subsequence of itself.
pub proof fn lemma_subseq_refl<A>(a: Seq<A>)
    ensures
        is_subseq(a, a),
    decreases a.len(),
{
    if a.len() > 0 {
        lemma_subseq_refl(a.drop_first());
    }
}

/// Removing one element leaves a subsequence.
pub proof fn lemma_subseq_remove<A>(a: Seq<A>, i: int)
    requires
        0 <= i < a.len(),
    ensures
        is_subseq(a.remove(i), a),
    decreases a.len(),
{
    let r = a.remove(i);
    if i == 0 {
        assert(r =~= a.drop_first());
        if r.len() == 0 {
        } else {
            lemma_subseq_refl(r);
            assert(is_subseq(r, a.drop_first()));
        }
    } else {
        assert(r[0] == a[0]);
        assert(r.drop_first() =~= a.drop_first().remove(i - 1));
        lemma_subseq_remove(a.drop_first(), i - 1);
    }
}

/// Subsequences compose: a subsequence of a subsequence of `c` is itself a
/// subsequence of `c`.
pub proof fn lemma_subseq_trans<A>(a: Seq<A>, b: Seq<A>, c: Seq<A>)
    requires
        is_subseq(a, b),
        is_subseq(b, c),
    ensures
        is_subseq(a, c),
    decreases a.len() + b.len() + c.len(),
{
    if a.len() == 0 {
    } else {
        if b[0] == c[0] && is_subseq(b.drop_first(), c.drop_first()) {
            if a[0] == b[0] && is_subseq(a.drop_first(), b.drop_first()) {
                lemma_subseq_trans(a.drop_first(), b.drop_first(), c.drop_first());
            } else {
                assert(is_subseq(a, b.drop_first()));
                lemma_subseq_trans(a, b.drop_first(), c.drop_first());
            }
        } else {
            assert(is_subseq(b, c.drop_first()));
            lemma_subseq_trans(a, b, c.drop_first());
        }
    }
}

/// Total duration is never negative.
pub proof fn lemma_total_duration_nonneg(splits: Seq<Split>)
    ensures
        total_duration(splits) >= 0,
    decreases splits.len(),
{
    if splits.len() > 0 {
        lemma_total_duration_nonneg(splits.drop_first());
    }
}

/// Replacing one split changes the total by the difference of durations.
pub proof fn lemma_total_duration_update(splits: Seq<Split>, i: int, x: Split)
    requires
        0 <= i < splits.len(),
    ensures
        total_duration(splits.update(i, x)) == total_duration(splits) - splits[i].duration_ms
            + x.duration_ms,
    decreases splits.len(),
{
    let u = splits.update(i, x);
    if i == 0 {
        assert(u.drop_first() =~= splits.drop_first());
    } else {
        assert(u[0] == splits[0]);
        assert(u.drop_first() =~= splits.drop_first().update(i - 1, x));
        lemma_total_duration_update(splits.drop_first(), i - 1, x);
    }
}

/// Removing one split lowers the total by exactly its duration.
pub proof fn lemma_total_duration_remove(splits: Seq<Split>, i: int)
    requires
        0 <= i < splits.len(),
    ensures
        total_duration(splits.remove(i)) == total_duration(splits) - splits[i].duration_ms,
    decreases splits.len(),
{
    let r = splits.remove(i);
    if i == 0 {
        assert(r =~= splits.drop_first());
    } else {
        assert(r[0] == splits[0]);
        assert(r.drop_first() =~= splits.drop_first().remove(i - 1));
        lemma_total_duration_remove(splits.drop_first(), i - 1);
    }
}

/// No single split lasts longer than the whole manifest.
pub proof fn lemma_split_le_total(splits: Seq<Split>, i: int)
    requires
        0 <= i < splits.len(),
    ensures
        splits[i].duration_ms <= total_duration(splits),
{
    lemma_total_duration_remove(splits, i);
    lemma_total_duration_nonneg(splits.remove(i));
}

/// Two distinct splits together last no longer than the whole manifest.
pub proof fn lemma_pair_le_total(splits: Seq<Split>, i: int, j: int)
    requires
        0 <= i < splits.len(),
        0 <= j < splits.len(),
        i != j,
    ensures
        splits[i].duration_ms + splits[j].duration_ms <= total_duration(splits),
{
    lemma_total_duration_remove(splits, j);
    let r = splits.remove(j);
    let i2: int = if i < j { i } else { i - 1 };
    assert(r[i2] == splits[i]);
    lemma_split_le_total(r, i2);
}

/// Concatenation adds totals.
pub proof fn lemma_total_duration_concat(s1: Seq<Split>, s2: Seq<Split>)
    ensures
        total_duration(s1 + s2) == total_duration(s1) + total_duration(s2),
    decreases s1.len(),
{
    if s1.len() == 0 {
        assert(s1 + s2 =~= s2);
    } else {
        assert((s1 + s2)[0] == s1[0]);
        assert((s1 + s2).drop_first() =~= s1.drop_first() + s2);
        lemma_total_duration_concat(s1.drop_first(), s2);
    }
}

/// Total duration of the input splits between two cut points.
pub open spec fn range_duration(splits: Seq<Split>, a: int, b: int) -> int
    recommends
        0 <= a <= b <= splits.len(),
{
    total_duration(splits.subrange(a, b))
}

/// A range's total splits at any interior cut point.
pub proof fn lemma_range_duration_split(splits: Seq<Split>, a: int, b: int, c: int)
    requires
        0 <= a <= b <= c <= splits.len(),
    ensures
        range_duration(splits, a, c) == range_duration(splits, a, b) + range_duration(
            splits,
            b,
            c,
        ),
{
    assert(splits.subrange(a, c) =~= splits.subrange(a, b) + splits.subrange(b, c));
    lemma_total_duration_concat(splits.subrange(a, b), splits.subrange(b, c));
}

/// A one-split range carries exactly that split's duration.
pub proof fn lemma_range_duration_singleton(splits: Seq<Split>, i: int)
    requires
        0 <= i < splits.len(),
    ensures
        range_duration(splits, i, i + 1) == splits[i].duration_ms,
{
    reveal_with_fuel(total_duration, 3);
    assert(splits.subrange(i, i + 1) =~= seq![splits[i]]);
    assert(seq![splits[i]].drop_first() =~= Seq::<Split>::empty());
}

/// The split `c`, standing for the block `[cuts[j], cuts[j + 1])`, carries
/// the path of one of the input splits inside that block.
pub open spec fn block_carries_path(orig: Seq<Split>, cuts: Seq<int>, c: Split, j: int) -> bool {
    exists|t: int| cuts[j] <= t < cuts[j + 1] && c.path == orig[t].path
}

/// `cuts` witnesses that `cur` coarsens `orig` into contiguous blocks of
/// consecutive input splits: the cut points ascend from zero to the input
/// length, so the blocks are disjoint, cover every input, and appear in
/// input order; each current split carries its block's total duration and
/// the path of one split inside its block.
pub open spec fn is_cut_partition(orig: Seq<Split>, cur: Seq<Split>, cuts: Seq<int>) -> bool {
    &&& cuts.len() == cur.len() + 1
    &&& cuts[0] == 0
    &&& cuts[cur.len() as int] == orig.len()
    &&& forall|j: int| 0 <= j < cuts.len() ==> 0 <= #[trigger] cuts[j] <= orig.len()
    &&& forall|j: int| 0 <= j < cur.len() ==> cuts[j] < #[trigger] cuts[j + 1]
    &&& forall|j: int|
        0 <= j < cur.len() ==> (#[trigger] cur[j]).duration_ms == range_duration(
            orig,
            cuts[j],
            cuts[j + 1],
        )
    &&& forall|j: int|
        0 <= j < cur.len() ==> #[trigger] block_carries_path(orig, cuts, cur[j], j)
}

/// The current manifest partitions the input manifest into contiguous
/// blocks of consecutive splits, in input order.
pub open spec fn is_block_coarsening(orig: Seq<Split>, cur: Seq<Split>) -> bool {
    exists|cuts: Seq<int>| is_cut_partition(orig, cur, cuts)
}

/// An untouched manifest coarsens itself, each split its own block.
pub proof fn lemma_coarsening_refl(splits: Seq<Split>)
    ensures
        is_block_coarsening(splits, splits),
{
    let cuts = Seq::new(splits.len() + 1, |i: int| i);
    assert forall|j: int| 0 <= j < splits.len() implies (#[trigger] splits[j]).duration_ms
        == range_duration(splits, cuts[j], cuts[j + 1]) by {
        lemma_range_duration_singleton(splits, j);
    }
    assert forall|j: int| 0 <= j < splits.len() implies block_carries_path(
        splits,
        cuts,
        splits[j],
        j,
    ) by {
        assert(cuts[j] == j);
        assert(cuts[j + 1] == j + 1);
        let t = j;
        assert(cuts[j] <= t < cuts[j + 1] && splits[j].path == splits[t].path);
    }
    assert(is_cut_partition(splits, splits, cuts));
}

/// Merging two adjacent splits fuses their two blocks into one: the result
/// still coarsens the input into contiguous blocks.
pub proof fn lemma_coarsening_step(orig: Seq<Split>, cur: Seq<Split>, v: int, p: int)
    requires
        is_block_coarsening(orig, cur),
        0 <= v < cur.len(),
        0 <= p < cur.len(),
        p == v + 1 || p == v - 1,
        cur[v].duration_ms + cur[p].duration_ms <= u64::MAX,
    ensures
        is_block_coarsening(orig, merge_result(cur, v, p)),
{
    let cuts = choose|cuts: Seq<int>| is_cut_partition(orig, cur, cuts);
    let m: int = if v < p {
        v
    } else {
        p
    };
    let merged = merged_split(cur, v, p);
    let new = merge_result(cur, v, p);
    let cuts2 = cuts.remove(m + 1);
    assert(new.len() == cur.len() - 1);
    assert(forall|j: int| 0 <= j < m ==> #[trigger] new[j] == cur[j]);
    assert(new[m] == merged);
    assert(forall|j: int| m < j < new.len() ==> #[trigger] new[j] == cur[j + 1]);
    assert(forall|j: int| 0 <= j <= m ==> #[trigger] cuts2[j] == cuts[j]);
    assert(forall|j: int| m < j < cuts2.len() ==> #[trigger] cuts2[j] == cuts[j + 1]);
    assert forall|j: int| 0 <= j < new.len() implies (#[trigger] new[j]).duration_ms
        == range_duration(orig, cuts2[j], cuts2[j + 1]) by {
        if j == m {
            lemma_range_duration_split(orig, cuts[m], cuts[m + 1], cuts[m + 2]);
        }
    }
    assert forall|j: int| 0 <= j < new.len() implies block_carries_path(
        orig,
        cuts2,
        new[j],
        j,
    ) by {
        if j == m {
            assert(block_carries_path(orig, cuts, cur[p], p));
            let t = choose|t: int| cuts[p] <= t < cuts[p + 1] && cur[p].path == orig[t].path;
            assert(cuts2[m] <= t < cuts2[m + 1] && new[m].path == orig[t].path);
        } else if j < m {
            assert(block_carries_path(orig, cuts, cur[j], j));
            let t = choose|t: int| cuts[j] <= t < cuts[j + 1] && cur[j].path == orig[t].path;
            assert(cuts2[j] <= t < cuts2[j + 1] && new[j].path == orig[t].path);
        } else {
            assert(block_carries_path(orig, cuts, cur[j + 1], j + 1));
            let t = choose|t: int|
                cuts[j + 1] <= t < cuts[j + 2] && cur[j + 1].path == orig[t].path;
            assert(cuts2[j] <= t < cuts2[j + 1] && new[j].path == orig[t].path);
        }
    }
    assert(cuts2.len() == new.len() + 1);
    assert(cuts2[0] == cuts[0]);
    assert(new.len() > m);
    assert(cuts2[new.len() as int] == cuts[cur.len() as int]);
    assert forall|j: int| 0 <= j < cuts2.len() implies 0 <= #[trigger] cuts2[j]
        <= orig.len() by {
        if j <= m {
            assert(cuts2[j] == cuts[j]);
        } else {
            assert(cuts2[j] == cuts[j + 1]);
        }
    }
    assert forall|j: int| 0 <= j < new.len() implies cuts2[j] < #[trigger] cuts2[j + 1] by {
        if j == m {
            assert(cuts[m] < cuts[m + 1]);
            assert(cuts[m + 1] < cuts[m + 2]);
        }
    }
    assert(is_cut_partition(orig, new, cuts2));
}

impl SplitManifest {
    /// Builds a manifest from already-probed splits; the caller supplies
    /// them in chronological filename order.
    pub fn new(project_dir: String, splits: Vec<Split>) -> (r: Self)
        ensures
            r.splits == splits,
            r.project_dir == project_dir,
    {
        SplitManifest { splits, project_dir }
    }

    /// How many splits the manifest currently holds.
    pub fn len(&self) -> (r: usize)
        ensures
            r == self.splits@.len(),
    {
        self.splits.len()
    }

    /// Finds the first split shorter than the given minimum, scanning in
    /// chronological order; `None` when every split is long enough.
    pub fn find_short_split(&self, min_ms: u64) -> (r: Option<usize>)
        ensures
            match r {
                Some(i) => {
                    &&& i < self.splits@.len()
                    &&& self.splits@[i as int].duration_ms < min_ms
                    &&& forall|j: int|
                        0 <= j < i ==> (#[trigger] self.splits@[j]).duration_ms >= min_ms
                },
                None => all_long_enough(self.splits@, min_ms),
            },
    {
        let mut i: usize = 0;
        while i < self.splits.len()
            invariant
                i <= self.splits@.len(),
                forall|j: int| 0 <= j < i ==> (#[trigger] self.splits@[j]).duration_ms >= min_ms,
            decreases self.splits@.len() - i,
        {
            if self.splits[i].duration_ms < min_ms {
                return Some(i);
            }
            i = i + 1;
        }
        None
    }

    /// Plans the next merge step: the first under-length split becomes the
    /// victim and its partner is chosen by position. Returns `None` exactly
    /// when nothing is left to do: a manifest of at most one split is
    /// accepted as it is, and so is one where every split is long enough.
    pub fn plan_merge(&self, min_ms: u64) -> (r: Option<MergePlan>)
        ensures
            r is None <==> (self.splits@.len() <= 1 || all_long_enough(self.splits@, min_ms)),
            match r {
                Some(p) => {
                    &&& self.splits@.len() >= 2
                    &&& (p.victim as int) < self.splits@.len()
                    &&& self.splits@[p.victim as int].duration_ms < min_ms
                    &&& forall|j: int|
                        0 <= j < p.victim ==> (#[trigger] self.splits@[j]).duration_ms >= min_ms
                    &&& p.partner as int == spec_partner(self.splits@, p.victim as int)
                    &&& (p.partner as int) < self.splits@.len()
                    &&& (p.partner as int == p.victim + 1 || p.partner as int == p.victim - 1)
                },
                None => true,
            },
    {
        if self.splits.len() <= 1 {
            return None;
        }
        match self.find_short_split(min_ms) {
            None => None,
            Some(victim) => {
                let last = self.splits.len() - 1;
                let partner: usize = if victim == 0 {
                    1
                } else if victim == last {
                    victim - 1
                } else if self.splits[victim - 1].duration_ms
                    <= self.splits[victim + 1].duration_ms {
                    victim - 1
                } else {
                    victim + 1
                };
                Some(MergePlan { victim, partner })
            },
        }
    }

    /// Records one completed merge in the manifest: the partner's slot takes
    /// the merged split (the partner's path, the combined duration) and the
    /// victim's slot disappears. Each step removes exactly one split, keeps
    /// the total duration, and keeps the surviving splits in their order.
    pub fn apply_merge(&mut self, plan: MergePlan)
        requires
            (plan.victim as int) < old(self).splits@.len(),
            (plan.partner as int) < old(self).splits@.len(),
            plan.partner as int == plan.victim + 1 || plan.partner as int == plan.victim - 1,
            old(self).splits@[plan.victim as int].duration_ms
                + old(self).splits@[plan.partner as int].duration_ms <= u64::MAX,
        ensures
            final(self).project_dir == old(self).project_dir,
            final(self).splits@ == merge_result(
                old(self).splits@,
                plan.victim as int,
                plan.partner as int,
            ),
            final(self).splits@.len() == old(self).splits@.len() - 1,
            total_duration(final(self).splits@) == total_duration(old(self).splits@),
            paths(final(self).splits@) == paths(old(self).splits@).remove(plan.victim as int),
    {
        let ghost s0 = self.splits@;
        let v = plan.victim;
        let p = plan.partner;
        let victim_dur = self.splits[v].duration_ms;
        let partner_dur = self.splits[p].duration_ms;
        let old_partner = self.splits.remove(p);
        let merged = Split { path: old_partner.path, duration_ms: victim_dur + partner_dur };
        self.splits.insert(p, merged);
        assert(self.splits@ =~= s0.update(p as int, merged_split(s0, v as int, p as int)));
        let ghost s1 = self.splits@;
        self.splits.remove(v);
        assert(self.splits@ == merge_result(s0, v as int, p as int));
        proof {
            lemma_total_duration_update(s0, p as int, merged_split(s0, v as int, p as int));
            lemma_total_duration_remove(s1, v as int);
            assert(paths(self.splits@) =~= paths(s0).remove(v as int)) by {
                assert(forall|k: int|
                    0 <= k < s1.len() && k != v ==> (#[trigger] s1[k]).path == s0[k].path);
            }
        }
    }

    /// Consolidates the manifest in memory: while more than one split exists
    /// and some split is under-length, plans a merge and applies it. On
    /// return every surviving split meets the minimum or exactly one split
    /// remains; the total duration is unchanged; the surviving splits keep
    /// their relative chronological order; and a manifest that already needs
    /// no work comes back untouched.
    pub fn merge_short_splits(&mut self, min_ms: u64)
        requires
            total_duration(old(self).splits@) <= u64::MAX,
        ensures
            final(self).project_dir == old(self).project_dir,
            final(self).splits@ == spec_merge_all(old(self).splits@, min_ms),
            final(self).splits@.len() <= 1 || all_long_enough(final(self).splits@, min_ms),
            total_duration(final(self).splits@) == total_duration(old(self).splits@),
            is_subseq(paths(final(self).splits@), paths(old(self).splits@)),
            is_block_coarsening(old(self).splits@, final(self).splits@),
            old(self).splits@.len() <= 1 || all_long_enough(old(self).splits@, min_ms)
                ==> final(self).splits@ == old(self).splits@,
            old(self).splits@.len() >= 1 ==> final(self).splits@.len() >= 1,
    {
        proof {
            lemma_subseq_refl(paths(self.splits@));
            lemma_coarsening_refl(self.splits@);
        }
        loop
            invariant
                self.project_dir == old(self).project_dir,
                total_duration(self.splits@) == total_duration(old(self).splits@),
                total_duration(self.splits@) <= u64::MAX,
                is_subseq(paths(self.splits@), paths(old(self).splits@)),
                is_block_coarsening(old(self).splits@, self.splits@),
                old(self).splits@.len() >= 1 ==> self.splits@.len() >= 1,
                old(self).splits@.len() <= 1 || all_long_enough(old(self).splits@, min_ms)
                    ==> self.splits@ == old(self).splits@,
                spec_merge_all(self.splits@, min_ms) == spec_merge_all(
                    old(self).splits@,
                    min_ms,
                ),
            ensures
                self.splits@.len() <= 1 || all_long_enough(self.splits@, min_ms),
                spec_merge_all(self.splits@, min_ms) == spec_merge_all(
                    old(self).splits@,
                    min_ms,
                ),
            decreases self.splits@.len(),
        {
            let ghost before = self.splits@;
            match self.plan_merge(min_ms) {
                None => {
                    break;
                },
                Some(plan) => {
                    proof {
                        lemma_pair_le_total(self.splits@, plan.victim as int, plan.partner as int);
                        lemma_first_short_at(self.splits@, min_ms, plan.victim as int);
                        lemma_coarsening_step(
                            old(self).splits@,
                            self.splits@,
                            plan.victim as int,
                            plan.partner as int,
                        );
                    }
                    self.apply_merge(plan);
                    proof {
                        assert(spec_merge_all(before, min_ms) == spec_merge_all(
                            self.splits@,
                            min_ms,
                        ));
                        lemma_subseq_remove(paths(before), plan.victim as int);
                        lemma_subseq_trans(
                            paths(self.splits@),
                            paths(before),
                            paths(old(self).splits@),
                        );
                    }
                },
            }
        }
    }
}

/// The two indices of a planned merge in chronological order: the audio of
/// the earlier split must come first in the concatenation, independent of
/// which slot survives.
pub fn concat_order(plan: &MergePlan) -> (r: (usize, usize))
    ensures
        r.0 == if plan.victim <= plan.partner {
            plan.victim
        } else {
            plan.partner
        },
        r.1 == if plan.victim <= plan.partner {
            plan.partner
        } else {
            plan.victim
        },
{
    if plan.victim <= plan.partner {
        (plan.victim, plan.partner)
    } else {
        (plan.partner, plan.victim)
    }
}

/// The canonical zero-padded filename for a split, counted from one:
/// the name's lexicographic order is the splits' chronological order.
pub fn split_file_name(index: u64) -> (r: String)
    ensures
        r@ == "split-"@ + spec_pad3(index as int) + ".mp3"@,
{
    let mut out = String::new();
    out.append("split-");
    append_pad3(&mut out, index);
    out.append(".mp3");
    assert(out@ =~= "split-"@ + spec_pad3(index as int) + ".mp3"@);
    out
}

} // verus!
