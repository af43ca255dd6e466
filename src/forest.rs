//! The forest: grows independent trees from fresh samples of the matrix,
//! averages each variant's importance over every tree that uses it, and
//! picks the variants to keep for the next round.

use vstd::prelude::*;
use rand::rngs::StdRng;
use crate::matrix::{GenoMatrix, seeded_rng, strictly_increasing, is_slice_draw, chosen_subjects, chosen_variants,
    FRACTION_ONE};
use crate::tree::{Node, NodeData, node_ok, vars_within, lemma_grow_vars, lemma_vars_within_widen, occurrences, occurrences_bounded, lemma_occurrences_bounded,
    MAX_ROWS, MAX_VARIANTS, MAX_CONTRIBUTION, phenos_bounded, columns_fit};
use crate::statistics::{mean, std_deviation, get_cutoff, floor_div, mean_of, sd_of, cutoff_of,
    MAX_STAT_VALUE};

verus! {

/// Largest number of trees in a forest.
pub const MAX_TREES: usize = 2_147_483_647;

/// Settings of one round of growth.
/// `n_tree`: number of trees; `mtry`: share of the active variants drawn
/// per tree and `subj_fraction`: share of the subjects drawn per tree, both
/// in parts per million (`FRACTION_ONE`); `max_depth`: growth stops below
/// this depth; `continuous_outcome`: the phenotype is continuous, not 0/1.
pub struct HyperParameters {
    pub n_tree: i32,
    pub mtry: u64,
    pub max_depth: i32,
    pub subj_fraction: u64,
    pub continuous_outcome: bool,
}

/// A forest: its settings and, once grown, its trees (empty ones included).
pub struct Forest {
    hyperparameters: HyperParameters,
    pub trees: Option<Vec<Node>>,
}

/// Sum of the contributions recorded for variant `v`.
pub open spec fn occ_sum(s: Seq<(usize, i64)>, v: int) -> int
    decreases s.len(),
{
    if s.len() == 0 {
        0
    } else {
        occ_sum(s.drop_last(), v) + if s.last().0 == v { s.last().1 as int } else { 0 }
    }
}

/// Number of contributions recorded for variant `v`.
pub open spec fn occ_count(s: Seq<(usize, i64)>, v: int) -> int
    decreases s.len(),
{
    if s.len() == 0 {
        0
    } else {
        occ_count(s.drop_last(), v) + if s.last().0 == v { 1int } else { 0int }
    }
}

/// Sum of variant `v`'s contributions over all trees.
pub open spec fn forest_sum(trees: Seq<Node>, v: int) -> int
    decreases trees.len(),
{
    if trees.len() == 0 {
        0
    } else {
        forest_sum(trees.drop_last(), v) + occ_sum(occurrences(trees.last()), v)
    }
}

/// Number of variant `v`'s contributions over all trees.
pub open spec fn forest_count(trees: Seq<Node>, v: int) -> int
    decreases trees.len(),
{
    if trees.len() == 0 {
        0
    } else {
        forest_count(trees.drop_last(), v) + occ_count(occurrences(trees.last()), v)
    }
}

/// Importance of a variant that occurs in the forest: the mean of its
/// contributions, rounded down.
pub open spec fn importance_of(trees: Seq<Node>, v: int) -> int {
    forest_sum(trees, v) / forest_count(trees, v)
}

/// Trees as the builder leaves them, and not too many of them.
pub open spec fn trees_ok(trees: Seq<Node>) -> bool {
    &&& trees.len() <= MAX_TREES
    &&& forall|i: int| 0 <= i < trees.len() ==> node_ok(#[trigger] trees[i], trees[i].n as int)
}

/// `table` is the forest's importance table: one entry per variant that
/// occurs in some tree, in ascending order of variant, with its importance.
pub open spec fn is_importance_table(table: Seq<(usize, i64)>, trees: Seq<Node>) -> bool {
    &&& forall|i: int, j: int| 0 <= i < j < table.len() ==> (#[trigger] table[i]).0 < (#[trigger] table[j]).0
    &&& forall|i: int| 0 <= i < table.len() ==> forest_count(trees, (#[trigger] table[i]).0 as int) > 0
        && table[i].1 == importance_of(trees, table[i].0 as int)
    &&& forall|v: int| #[trigger] forest_count(trees, v) > 0 ==> exists|i: int| 0 <= i < table.len() && #[trigger] table[i].0 == v
}

/// The variants of `table` whose importance reaches `cutoff`, in order.
pub open spec fn kept_vars(table: Seq<(usize, i64)>, cutoff: int) -> Seq<usize>
    decreases table.len(),
{
    if table.len() == 0 {
        seq![]
    } else {
        let t = kept_vars(table.drop_last(), cutoff);
        if table.last().1 >= cutoff { t.push(table.last().0) } else { t }
    }
}

/// The importances of a table.
pub open spec fn table_values(table: Seq<(usize, i64)>) -> Seq<i64> {
    table.map_values(|e: (usize, i64)| e.1)
}

proof fn lemma_occ_beyond(s: Seq<(usize, i64)>, bound: int, v: int)
    requires
        forall|i: int| 0 <= i < s.len() ==> (#[trigger] s[i]).0 < bound,
        v >= bound || v < 0,
    ensures
        occ_count(s, v) == 0,
        occ_sum(s, v) == 0,
    decreases s.len(),
{
    if s.len() > 0 {
        let t = s.drop_last();
        assert forall|i: int| 0 <= i < t.len() implies (#[trigger] t[i]).0 < bound by {
            assert(t[i] == s[i]);
        }
        lemma_occ_beyond(t, bound, v);
        assert(s.last() == s[s.len() - 1]);
    }
}

proof fn lemma_increasing_len(s: Seq<(usize, i64)>, bound: int)
    requires
        bound >= 0,
        forall|i: int, j: int| 0 <= i < j < s.len() ==> (#[trigger] s[i]).0 < (#[trigger] s[j]).0,
        forall|i: int| 0 <= i < s.len() ==> (#[trigger] s[i]).0 < bound,
    ensures
        s.len() <= bound,
    decreases s.len(),
{
    if s.len() > 0 {
        let t = s.drop_last();
        assert forall|i: int| 0 <= i < t.len() implies (#[trigger] t[i]).0 < s.last().0 by {
            assert(t[i] == s[i]);
            assert(s.last() == s[s.len() - 1]);
        }
        assert forall|i: int, j: int| 0 <= i < j < t.len() implies (#[trigger] t[i]).0 < (#[trigger] t[j]).0 by {
            assert(t[i] == s[i] && t[j] == s[j]);
        }
        lemma_increasing_len(t, s.last().0 as int);
        assert(s.last() == s[s.len() - 1]);
    }
}

/// Phenotypes of the subjects `subj`.
pub open spec fn sample_phenos(gm: GenoMatrix, subj: Seq<usize>) -> Seq<i64> {
    subj.map_values(|i: usize| gm.phenos()[i as int])
}

/// Genotype columns of the variants `ids`, restricted to the subjects `subj`.
pub open spec fn sample_columns(gm: GenoMatrix, subj: Seq<usize>, ids: Seq<usize>) -> Seq<Seq<u8>> {
    ids.map_values(|g: usize| subj.map_values(|i: usize| gm.genotype(i as int, g as int)))
}

/// `r` is the tree grown under `hp` from the slice of `gm` that the uniform
/// draws `sd` (one per subject) and `vd` (one per active variant) select,
/// with `ps` a reordering of the drawn subjects' phenotypes.
pub open spec fn grown_from_draw(r: Node, gm: GenoMatrix, hp: HyperParameters, sd: Seq<u64>, vd: Seq<u64>,
    ps: Seq<i64>) -> bool {
    let subj = chosen_subjects(sd, gm.phenos(), hp.subj_fraction as int, gm.is_continuous());
    let ids = chosen_variants(vd, gm.active(), hp.mtry as int);
    &&& is_slice_draw(gm, hp.mtry as int, hp.subj_fraction as int, sd, vd, subj, ids)
    &&& strictly_increasing(subj)
    &&& forall|i: int| 0 <= i < subj.len() ==> #[trigger] subj[i] < gm.subject_count()
    &&& subj.len() <= gm.subject_count()
    &&& strictly_increasing(ids)
    &&& forall|i: int| 0 <= i < ids.len() ==> gm.active().contains(#[trigger] ids[i])
    &&& hp.mtry >= FRACTION_ONE ==> ids == gm.active()
    &&& hp.mtry == 0 ==> ids.len() == 0
    &&& hp.subj_fraction == 0 ==> subj.len() == 0
    &&& hp.subj_fraction >= FRACTION_ONE && gm.is_continuous() ==>
            subj == Seq::new(gm.subject_count() as nat, |i: int| i as usize)
    &&& ps.to_multiset() == sample_phenos(gm, subj).to_multiset()
    &&& r == crate::tree::grow_spec(sample_phenos(gm, subj), ps, sample_columns(gm, subj, ids), ids,
            hp.max_depth as int, 0, subj.len() as int, crate::tree::SCORE_ONE as int, hp.continuous_outcome)
}

/// `r` is a tree grown under `hp` from some draw of a slice of `gm`.
pub open spec fn drawn_tree(r: Node, gm: GenoMatrix, hp: HyperParameters) -> bool {
    exists|sd: Seq<u64>, vd: Seq<u64>, ps: Seq<i64>| grown_from_draw(r, gm, hp, sd, vd, ps)
}

/// A draw without subjects or without variants grows the empty tree.
pub proof fn lemma_degenerate_draw_empty(r: Node, gm: GenoMatrix, hp: HyperParameters, sd: Seq<u64>, vd: Seq<u64>,
    ps: Seq<i64>)
    requires
        grown_from_draw(r, gm, hp, sd, vd, ps),
        chosen_subjects(sd, gm.phenos(), hp.subj_fraction as int, gm.is_continuous()).len() == 0
            || chosen_variants(vd, gm.active(), hp.mtry as int).len() == 0,
    ensures
        r == crate::tree::empty_spec(),
{
    let subj = chosen_subjects(sd, gm.phenos(), hp.subj_fraction as int, gm.is_continuous());
    let ids = chosen_variants(vd, gm.active(), hp.mtry as int);
    let gs = sample_columns(gm, subj, ids);
    assert(columns_fit(gs, sample_phenos(gm, subj).len() as int));
    crate::tree::lemma_empty_slice_grows_empty(sample_phenos(gm, subj), ps, gs, ids, hp.max_depth as int,
        subj.len() as int, hp.continuous_outcome);
}

/// Grows one tree: draws a slice of `gm` with `rng`, gathers its rows with a
/// freshly shuffled phenotype copy, and grows the tree from them.
pub fn make_tree(gm: &GenoMatrix, hp: &HyperParameters, rng: &mut StdRng) -> (r: Node)
    requires
        gm.wf(),
    ensures
        node_ok(r, r.n as int),
        vars_within(r, gm.active()),
        drawn_tree(r, *gm, *hp),
        !r.is_empty ==> r.n <= gm.subject_count(),
{
    proof {
        gm.lemma_wf();
    }
    let sample = gm.make_slice(hp.mtry, hp.subj_fraction, rng);
    proof {
        assert forall|k: int| 0 <= k < sample.genotype_ids@.len() implies
            #[trigger] sample.genotype_ids@[k] < gm.variant_count() by {
            assert(gm.active().contains(sample.genotype_ids@[k]));
        }
    }
    let data = gm.get_slice_data(&sample, rng);
    let tree_data = NodeData { phenos: data.0, phenos_shuffle: data.1, genos: data.2 };
    proof {
        let p = tree_data.phenos@;
        let ps = tree_data.phenos_shuffle@;
        assert(phenos_bounded(p)) by {
            assert forall|j: int| 0 <= j < p.len() implies -crate::tree::MAX_PHENOTYPE <= #[trigger] p[j]
                <= crate::tree::MAX_PHENOTYPE by {
                assert(p[j] == gm.phenos()[sample.subj_ids@[j] as int]);
            }
        }
        assert(phenos_bounded(ps)) by {
            assert forall|j: int| 0 <= j < ps.len() implies -crate::tree::MAX_PHENOTYPE <= #[trigger] ps[j]
                <= crate::tree::MAX_PHENOTYPE by {
                vstd::seq_lib::to_multiset_contains(ps, ps[j]);
                assert(ps.contains(ps[j]));
                vstd::seq_lib::to_multiset_contains(p, ps[j]);
                let i = choose|i: int| 0 <= i < p.len() && p[i] == ps[j];
            }
        }
        vstd::seq_lib::to_multiset_len(p);
        vstd::seq_lib::to_multiset_len(ps);
        assert(columns_fit(tree_data.columns(), p.len() as int));
        let ids = sample.genotype_ids@;
        lemma_grow_vars(p, ps, tree_data.columns(), ids, hp.max_depth as int, 0, p.len() as int,
            crate::tree::SCORE_ONE as int, hp.continuous_outcome);
        assert forall|x: usize| ids.contains(x) implies gm.active().contains(x) by {
            let j = choose|j: int| 0 <= j < ids.len() && ids[j] == x;
            assert(gm.active().contains(ids[j]));
        }
    }
    let ghost ids = sample.genotype_ids@;
    let ghost subj = sample.subj_ids@;
    let ghost p = tree_data.phenos@;
    let ghost ps = tree_data.phenos_shuffle@;
    let ghost cols = tree_data.columns();
    proof {
        assert(p =~= sample_phenos(*gm, subj));
        assert(cols =~= sample_columns(*gm, subj, ids)) by {
            assert forall|k: int| 0 <= k < cols.len() implies #[trigger] cols[k] =~= sample_columns(*gm, subj, ids)[k] by {
                assert forall|j: int| 0 <= j < cols[k].len() implies #[trigger] cols[k][j]
                    == sample_columns(*gm, subj, ids)[k][j] by {
                    assert(cols[k] == tree_data.genos@[k]@);
                }
            }
        }
    }
    let r = Node::grow(tree_data, hp.max_depth, sample, hp.continuous_outcome);
    proof {
        lemma_vars_within_widen(r, ids, gm.active());
        let (sd, vd) = choose|sd: Seq<u64>, vd: Seq<u64>|
            is_slice_draw(*gm, hp.mtry as int, hp.subj_fraction as int, sd, vd, subj, ids);
        assert(grown_from_draw(r, *gm, *hp, sd, vd, ps));
    }
    r
}

impl Forest {
    /// The settings.
    pub closed spec fn params(&self) -> HyperParameters {
        self.hyperparameters
    }

    /// The forest holds a collection of trees (it has been grown).
    pub closed spec fn grown(&self) -> bool {
        self.trees is Some
    }

    /// The trees grown so far (none before the first growth).
    pub closed spec fn tree_seq(&self) -> Seq<Node> {
        match self.trees {
            Some(t) => t@,
            None => seq![],
        }
    }

    /// A forest with the given settings and no trees yet.
    pub fn new(hp: HyperParameters) -> (r: Self)
        ensures
            r.params() == hp,
            !r.grown(),
            r.tree_seq().len() == 0,
    {
        Forest { hyperparameters: hp, trees: None }
    }

    /// Replaces the settings; the trees stay until the next growth.
    pub fn update_hyperparameters(&mut self, hp: HyperParameters)
        ensures
            final(self).params() == hp,
            final(self).grown() == old(self).grown(),
            final(self).tree_seq() == old(self).tree_seq(),
    {
        self.hyperparameters = hp
    }

    /// Replaces the trees wholesale (with trees grown elsewhere, in parallel
    /// for instance).
    pub fn set_trees(&mut self, trees: Vec<Node>)
        ensures
            final(self).grown(),
            final(self).tree_seq() == trees@,
            final(self).params() == old(self).params(),
    {
        self.trees = Some(trees);
    }

    /// Grows `n_tree` trees (none for a negative count), replacing any grown
    /// before; tree `i` draws from a generator seeded with `seed + i`
    /// (wrapping), so a seed fixes the whole forest.
    pub fn grow(&mut self, gm: &GenoMatrix, seed: u64)
        requires
            gm.wf(),
        ensures
            final(self).params() == old(self).params(),
            final(self).grown(),
            final(self).tree_seq().len() == if old(self).params().n_tree < 0 { 0 } else {
                old(self).params().n_tree as int },
            trees_ok(final(self).tree_seq()),
            forall|i: int| 0 <= i < final(self).tree_seq().len() ==> vars_within(#[trigger] final(self).tree_seq()[i], gm.active()),
            forall|i: int| 0 <= i < final(self).tree_seq().len() ==>
                drawn_tree(#[trigger] final(self).tree_seq()[i], *gm, old(self).params()),
            forall|i: int| 0 <= i < final(self).tree_seq().len() ==> !(#[trigger] final(self).tree_seq()[i]).is_empty
                ==> final(self).tree_seq()[i].n <= gm.subject_count(),
    {
        let ghost hp0 = self.hyperparameters;
        let n: u64 = if self.hyperparameters.n_tree < 0 { 0 } else { self.hyperparameters.n_tree as u64 };
        let mut t: Vec<Node> = Vec::new();
        let mut i: u64 = 0;
        while i < n
            invariant
                gm.wf(),
                i <= n <= MAX_TREES,
                t@.len() == i,
                forall|k: int| 0 <= k < t@.len() ==> node_ok(#[trigger] t@[k], t@[k].n as int),
                forall|k: int| 0 <= k < t@.len() ==> vars_within(#[trigger] t@[k], gm.active()),
                self.hyperparameters == hp0,
                forall|k: int| 0 <= k < t@.len() ==> drawn_tree(#[trigger] t@[k], *gm, hp0),
                forall|k: int| 0 <= k < t@.len() ==> !(#[trigger] t@[k]).is_empty ==> t@[k].n <= gm.subject_count(),
            decreases n - i,
        {
            let mut rng = seeded_rng(seed.wrapping_add(i));
            let tree = make_tree(gm, &self.hyperparameters, &mut rng);
            let ghost old_t = t@;
            t.push(tree);
            assert forall|k: int| 0 <= k < t@.len() implies drawn_tree(#[trigger] t@[k], *gm, hp0) by {
                if k < old_t.len() {
                    assert(t@[k] == old_t[k]);
                }
            }
            i = i + 1;
        }
        let ghost ts = t@;
        self.trees = Some(t);
        assert(self.tree_seq() == ts);
    }

    /// The importance table: for each variant used by some tree, in
    /// ascending order, the mean of its contributions over all trees.
    /// Variants no tree uses are absent.
    pub fn get_var_importances(&self) -> (r: Vec<(usize, i64)>)
        requires
            trees_ok(self.tree_seq()),
        ensures
            is_importance_table(r@, self.tree_seq()),
            forall|i: int| 0 <= i < r@.len() ==> (#[trigger] r@[i]).0 < MAX_VARIANTS
                && -MAX_CONTRIBUTION <= r@[i].1 <= MAX_CONTRIBUTION,
    {
        let empty: Vec<Node> = Vec::new();
        let trees: &Vec<Node> = match &self.trees {
            Some(t) => t,
            None => &empty,
        };
        let ghost ts = trees@;
        assert(ts == self.tree_seq());
        let mut occs: Vec<Vec<(usize, i64)>> = Vec::new();
        let mut bound: usize = 0;
        let mut t: usize = 0;
        while t < trees.len()
            invariant
                ts == trees@,
                trees_ok(ts),
                t <= ts.len(),
                occs@.len() == t,
                forall|k: int| 0 <= k < t ==> (#[trigger] occs@[k])@ == occurrences(ts[k]),
                forall|k: int| 0 <= k < t ==> occurrences_bounded((#[trigger] occs@[k])@),
                forall|k: int| 0 <= k < t ==> (#[trigger] occs@[k])@.len() < MAX_ROWS,
                bound <= MAX_VARIANTS,
                forall|k: int, j: int| 0 <= k < t && 0 <= j < occs@[k]@.len() ==> (#[trigger] occs@[k]@[j]).0 < bound,
            decreases ts.len() - t,
        {
            let tree = &trees[t];
            assert(node_ok(ts[t as int], ts[t as int].n as int));
            proof {
                lemma_occurrences_bounded(ts[t as int], ts[t as int].n as int);
            }
            let o = tree.get_importance();
            let mut j: usize = 0;
            while j < o.len()
                invariant
                    occurrences_bounded(o@),
                    j <= o@.len(),
                    bound <= MAX_VARIANTS,
                    forall|k: int, a: int| 0 <= k < t && 0 <= a < occs@[k]@.len() ==> (#[trigger] occs@[k]@[a]).0 < bound,
                    forall|a: int| 0 <= a < j ==> (#[trigger] o@[a]).0 < bound,
                decreases o@.len() - j,
            {
                if o[j].0 >= bound {
                    bound = o[j].0 + 1;
                }
                j = j + 1;
            }
            occs.push(o);
            t = t + 1;
        }
        let mut sums: Vec<i128> = Vec::new();
        let mut counts: Vec<u64> = Vec::new();
        let mut v: usize = 0;
        while v < bound
            invariant
                v <= bound,
                sums@.len() == v,
                counts@.len() == v,
                forall|a: int| 0 <= a < v ==> #[trigger] sums@[a] == 0 && counts@[a] == 0,
            decreases bound - v,
        {
            sums.push(0);
            counts.push(0);
            v = v + 1;
        }
        t = 0;
        assert(ts.take(0) =~= Seq::<Node>::empty());
        assert forall|a: int| 0 <= a < bound implies #[trigger] counts@[a] == forest_count(ts.take(t as int), a)
            && sums@[a] == forest_sum(ts.take(t as int), a) && counts@[a] <= t * MAX_ROWS by {
            assert(sums@[a] == 0);
            assert(forest_count(ts.take(0), a) == 0);
            assert(forest_sum(ts.take(0), a) == 0);
        }
        while t < occs.len()
            invariant
                ts == trees@,
                trees_ok(ts),
                occs@.len() == ts.len(),
                forall|k: int| 0 <= k < occs@.len() ==> (#[trigger] occs@[k])@ == occurrences(ts[k]),
                forall|k: int| 0 <= k < occs@.len() ==> occurrences_bounded((#[trigger] occs@[k])@),
                forall|k: int| 0 <= k < occs@.len() ==> (#[trigger] occs@[k])@.len() < MAX_ROWS,
                forall|k: int, j: int| 0 <= k < occs@.len() && 0 <= j < occs@[k]@.len() ==> (#[trigger] occs@[k]@[j]).0 < bound,
                bound <= MAX_VARIANTS,
                t <= occs@.len(),
                sums@.len() == bound,
                counts@.len() == bound,
                forall|a: int| 0 <= a < bound ==> #[trigger] sums@[a] == forest_sum(ts.take(t as int), a),
                forall|a: int| 0 <= a < bound ==> #[trigger] counts@[a] == forest_count(ts.take(t as int), a),
                forall|a: int| 0 <= a < bound ==> #[trigger] counts@[a] <= t * MAX_ROWS,
                forall|a: int| 0 <= a < bound ==> -MAX_CONTRIBUTION * counts@[a] <= #[trigger] sums@[a] <= MAX_CONTRIBUTION * counts@[a],
            decreases occs@.len() - t,
        {
            let o = &occs[t];
            let ghost base_s = sums@;
            let ghost base_c = counts@;
            assert(ts.take(t as int + 1).drop_last() == ts.take(t as int));
            assert(ts.take(t as int + 1).last() == ts[t as int]);
            let mut j: usize = 0;
            while j < o.len()
                invariant
                    o@ == occurrences(ts[t as int]),
                    occurrences_bounded(o@),
                    o@.len() < MAX_ROWS,
                    forall|a: int| 0 <= a < o@.len() ==> (#[trigger] o@[a]).0 < bound,
                    t < occs@.len() <= MAX_TREES,
                    j <= o@.len(),
                    sums@.len() == bound,
                    counts@.len() == bound,
                    base_s.len() == bound,
                    base_c.len() == bound,
                    forall|a: int| 0 <= a < bound ==> #[trigger] sums@[a] == base_s[a] + occ_sum(o@.take(j as int), a),
                    forall|a: int| 0 <= a < bound ==> #[trigger] counts@[a] == base_c[a] + occ_count(o@.take(j as int), a),
                    forall|a: int| 0 <= a < bound ==> #[trigger] base_c[a] <= t * MAX_ROWS,
                    forall|a: int| 0 <= a < bound ==> -MAX_CONTRIBUTION * base_c[a] <= #[trigger] base_s[a] <= MAX_CONTRIBUTION * base_c[a],
                    forall|a: int| 0 <= a < bound ==> 0 <= #[trigger] occ_count(o@.take(j as int), a) <= j,
                    forall|a: int| 0 <= a < bound ==> -MAX_CONTRIBUTION * occ_count(o@.take(j as int), a)
                        <= #[trigger] occ_sum(o@.take(j as int), a) <= MAX_CONTRIBUTION * occ_count(o@.take(j as int), a),
                decreases o@.len() - j,
            {
                let (var, c) = o[j];
                assert(o@.take(j as int + 1).drop_last() == o@.take(j as int));
                assert(o@.take(j as int + 1).last() == o@[j as int]);
                assert(-MAX_CONTRIBUTION <= c <= MAX_CONTRIBUTION);
                let ghost cnt = occ_count(o@.take(j as int), var as int);
                assert(base_c[var as int] + cnt <= t * MAX_ROWS + MAX_ROWS) by (nonlinear_arith)
                    requires base_c[var as int] <= t * MAX_ROWS, cnt <= j, j < MAX_ROWS;
                assert(t * MAX_ROWS + MAX_ROWS <= 0x80_0000_0000_0000) by (nonlinear_arith)
                    requires t < MAX_TREES;
                assert(MAX_CONTRIBUTION * (base_c[var as int] + cnt) <= MAX_CONTRIBUTION * 0x80_0000_0000_0000)
                    by (nonlinear_arith) requires base_c[var as int] + cnt <= 0x80_0000_0000_0000, base_c[var as int] + cnt >= 0;
                sums.set(var, sums[var] + c as i128);
                counts.set(var, counts[var] + 1);
                proof {
                    assert forall|a: int| 0 <= a < bound implies 0 <= #[trigger] occ_count(o@.take(j as int + 1), a) <= j + 1 by {
                        assert(occ_count(o@.take(j as int + 1), a) == occ_count(o@.take(j as int), a)
                            + if o@[j as int].0 == a { 1int } else { 0int });
                    }
                    assert forall|a: int| 0 <= a < bound implies -MAX_CONTRIBUTION * occ_count(o@.take(j as int + 1), a)
                        <= #[trigger] occ_sum(o@.take(j as int + 1), a) <= MAX_CONTRIBUTION * occ_count(o@.take(j as int + 1), a) by {
                        let k0 = occ_count(o@.take(j as int), a);
                        let s0 = occ_sum(o@.take(j as int), a);
                        if a == var {
                            assert(-MAX_CONTRIBUTION * (k0 + 1) <= s0 + c <= MAX_CONTRIBUTION * (k0 + 1)) by (nonlinear_arith)
                                requires -MAX_CONTRIBUTION * k0 <= s0 <= MAX_CONTRIBUTION * k0, -MAX_CONTRIBUTION <= c <= MAX_CONTRIBUTION;
                        }
                    }
                }
                j = j + 1;
            }
            assert(o@.take(j as int) == o@);
            proof {
                assert forall|a: int| 0 <= a < bound implies #[trigger] counts@[a] <= (t + 1) * MAX_ROWS by {
                    assert(counts@[a] <= t * MAX_ROWS + MAX_ROWS);
                    assert((t + 1) * MAX_ROWS == t * MAX_ROWS + MAX_ROWS) by (nonlinear_arith);
                }
                assert forall|a: int| 0 <= a < bound implies -MAX_CONTRIBUTION * counts@[a] <= #[trigger] sums@[a]
                    <= MAX_CONTRIBUTION * counts@[a] by {
                    let x = base_c[a];
                    let y = occ_count(o@, a);
                    assert(MAX_CONTRIBUTION * (x + y) == MAX_CONTRIBUTION * x + MAX_CONTRIBUTION * y) by (nonlinear_arith);
                    assert(-MAX_CONTRIBUTION * (x + y) == -MAX_CONTRIBUTION * x + -MAX_CONTRIBUTION * y) by (nonlinear_arith);
                }
            }
            t = t + 1;
        }
        assert(ts.take(t as int) == ts);
        let mut out: Vec<(usize, i64)> = Vec::new();
        v = 0;
        while v < bound
            invariant
                ts == trees@,
                v <= bound <= MAX_VARIANTS,
                sums@.len() == bound,
                counts@.len() == bound,
                forall|a: int| 0 <= a < bound ==> #[trigger] sums@[a] == forest_sum(ts, a),
                forall|a: int| 0 <= a < bound ==> #[trigger] counts@[a] == forest_count(ts, a),
                forall|a: int| 0 <= a < bound ==> -MAX_CONTRIBUTION * counts@[a] <= #[trigger] sums@[a] <= MAX_CONTRIBUTION * counts@[a],
                forall|i: int, j: int| 0 <= i < j < out@.len() ==> (#[trigger] out@[i]).0 < (#[trigger] out@[j]).0,
                forall|i: int| 0 <= i < out@.len() ==> (#[trigger] out@[i]).0 < v,
                forall|i: int| 0 <= i < out@.len() ==> forest_count(ts, (#[trigger] out@[i]).0 as int) > 0
                    && out@[i].1 == importance_of(ts, out@[i].0 as int)
                    && -MAX_CONTRIBUTION <= out@[i].1 <= MAX_CONTRIBUTION,
                forall|a: int| 0 <= a < v && #[trigger] forest_count(ts, a) > 0 ==>
                    exists|i: int| 0 <= i < out@.len() && #[trigger] out@[i].0 == a,
            decreases bound - v,
        {
            let ghost old_out = out@;
            if counts[v] > 0 {
                let m = floor_div(sums[v], counts[v] as i128);
                proof {
                    crate::statistics::lemma_div_between(sums@[v as int] as int, counts@[v as int] as int,
                        -MAX_CONTRIBUTION as int, MAX_CONTRIBUTION as int);
                }
                out.push((v, m as i64));
                proof {
                    let last = out@.len() - 1;
                    assert(out@[last] == (v, m as i64));
                    assert forall|a: int| 0 <= a < v + 1 && #[trigger] forest_count(ts, a) > 0 implies
                        exists|i: int| 0 <= i < out@.len() && #[trigger] out@[i].0 == a by {
                        if a == v {
                            assert(out@[last].0 == a);
                        } else {
                            let i = choose|i: int| 0 <= i < old_out.len() && #[trigger] old_out[i].0 == a;
                            assert(old_out[i] == out@[i]);
                        }
                    }
                }
            }
            v = v + 1;
        }
        proof {
            assert forall|a: int| #[trigger] forest_count(ts, a) > 0 implies
                exists|i: int| 0 <= i < out@.len() && #[trigger] out@[i].0 == a by {
                if a >= bound || a < 0 {
                    lemma_forest_beyond(ts, occs@, bound as int, a);
                } else {
                    assert(0 <= a < v);
                }
            }
        }
        out
    }

    /// The variants to keep for the next round: those whose importance is at
    /// least the cutoff for keep fraction `p_keep` (thousandths), computed
    /// from the mean and standard deviation of all importances; ascending.
    pub fn keep_vars(&self, p_keep: u32) -> (r: Vec<usize>)
        requires
            trees_ok(self.tree_seq()),
        ensures
            exists|table: Seq<(usize, i64)>| is_importance_table(table, self.tree_seq())
                && r@ == kept_vars(table, cutoff_of(sd_of(table_values(table)), mean_of(table_values(table)), p_keep as int)),
    {
        let imps = self.get_var_importances();
        select_vars(&imps, p_keep)
    }
}

proof fn lemma_forest_remove(t: Seq<Node>, j: int, v: int)
    requires
        0 <= j < t.len(),
    ensures
        forest_sum(t, v) == forest_sum(t.remove(j), v) + occ_sum(occurrences(t[j]), v),
        forest_count(t, v) == forest_count(t.remove(j), v) + occ_count(occurrences(t[j]), v),
    decreases t.len(),
{
    if j == t.len() - 1 {
        assert(t.remove(j) == t.drop_last());
    } else {
        lemma_forest_remove(t.drop_last(), j, v);
        assert(t.remove(j).drop_last() == t.drop_last().remove(j));
        assert(t.remove(j).last() == t.last());
        assert(t.drop_last()[j] == t[j]);
    }
}

/// Importance does not depend on the order of the trees: two forests whose
/// trees are the same up to order give every variant the same sum and
/// number of contributions, hence the same importance.
pub proof fn lemma_importance_order_free(t1: Seq<Node>, t2: Seq<Node>)
    requires
        t1.to_multiset() == t2.to_multiset(),
    ensures
        forall|v: int| #[trigger] forest_sum(t1, v) == forest_sum(t2, v),
        forall|v: int| #[trigger] forest_count(t1, v) == forest_count(t2, v),
        forall|v: int| #[trigger] importance_of(t1, v) == importance_of(t2, v),
    decreases t1.len(),
{
    broadcast use vstd::seq_lib::group_to_multiset_ensures, vstd::multiset::group_multiset_axioms;

    if t1.len() == 0 {
        assert(t2.to_multiset().len() == 0);
        assert(t2.len() == 0);
        assert(t2 =~= t1);
    } else {
        let x = t1.last();
        let r1 = t1.drop_last();
        assert(t1 == r1.push(x));
        assert(t1.to_multiset() =~= r1.to_multiset().insert(x));
        assert(t2.to_multiset().count(x) > 0);
        assert(t2.contains(x));
        let j = choose|j: int| 0 <= j < t2.len() && t2[j] == x;
        let r2 = t2.remove(j);
        assert(r2.to_multiset() =~= t2.to_multiset().remove(x));
        assert(r1.to_multiset() =~= r2.to_multiset());
        lemma_importance_order_free(r1, r2);
        assert forall|v: int| #[trigger] forest_sum(t1, v) == forest_sum(t2, v)
            && forest_count(t1, v) == forest_count(t2, v) by {
            lemma_forest_remove(t2, j, v);
            assert(forest_sum(r1, v) == forest_sum(r2, v));
            assert(forest_count(r1, v) == forest_count(r2, v));
        }
        assert forall|v: int| #[trigger] forest_count(t1, v) == forest_count(t2, v) by {
            assert(forest_sum(t1, v) == forest_sum(t2, v));
        }
        assert forall|v: int| #[trigger] importance_of(t1, v) == importance_of(t2, v) by {
            assert(forest_sum(t1, v) == forest_sum(t2, v));
        }
    }
}

/// Empty trees do not count: adding the empty node to a forest, at any
/// place, leaves every variant's contributions (hence the importance table)
/// unchanged.
pub proof fn lemma_empty_tree_ignored(trees: Seq<Node>, i: int)
    requires
        0 <= i <= trees.len(),
    ensures
        forall|v: int| #[trigger] forest_sum(trees.insert(i, crate::tree::empty_spec()), v) == forest_sum(trees, v),
        forall|v: int| #[trigger] forest_count(trees.insert(i, crate::tree::empty_spec()), v) == forest_count(trees, v),
{
    broadcast use vstd::seq_lib::group_to_multiset_ensures, vstd::multiset::group_multiset_axioms;

    let e = crate::tree::empty_spec();
    let pushed = trees.push(e);
    assert(pushed.drop_last() == trees);
    assert(occurrences(e) == Seq::<(usize, i64)>::empty());
    assert forall|v: int| #[trigger] forest_sum(pushed, v) == forest_sum(trees, v)
        && forest_count(pushed, v) == forest_count(trees, v) by {
        assert(occ_sum(occurrences(e), v) == 0);
        assert(occ_count(occurrences(e), v) == 0);
    }
    assert(trees.insert(i, e).to_multiset() =~= pushed.to_multiset());
    lemma_importance_order_free(trees.insert(i, e), pushed);
    assert forall|v: int| #[trigger] forest_count(trees.insert(i, e), v) == forest_count(trees, v) by {
        assert(forest_count(pushed, v) == forest_count(trees, v));
    }
}

proof fn lemma_forest_beyond(ts: Seq<Node>, occs: Seq<Vec<(usize, i64)>>, bound: int, a: int)
    requires
        occs.len() == ts.len(),
        forall|k: int| 0 <= k < occs.len() ==> (#[trigger] occs[k])@ == occurrences(ts[k]),
        forall|k: int, j: int| 0 <= k < occs.len() && 0 <= j < occs[k]@.len() ==> (#[trigger] occs[k]@[j]).0 < bound,
        a >= bound || a < 0,
    ensures
        forest_count(ts, a) == 0,
    decreases ts.len(),
{
    if ts.len() > 0 {
        let n = ts.len() - 1;
        lemma_forest_beyond(ts.drop_last(), occs.drop_last(), bound, a);
        let o = occs[n]@;
        assert forall|j: int| 0 <= j < o.len() implies (#[trigger] o[j]).0 < bound by {
            assert(occs[n]@[j] == o[j]);
        }
        lemma_occ_beyond(o, bound, a);
    }
}

/// The variants of an importance table whose importance reaches the cutoff
/// for keep fraction `p_keep` (thousandths), computed from the mean and
/// standard deviation of the table's importances; in table order.
pub fn select_vars(importances: &Vec<(usize, i64)>, p_keep: u32) -> (r: Vec<usize>)
    requires
        forall|i: int, j: int| 0 <= i < j < importances@.len() ==> (#[trigger] importances@[i]).0 < (#[trigger] importances@[j]).0,
        forall|i: int| 0 <= i < importances@.len() ==> (#[trigger] importances@[i]).0 < MAX_VARIANTS
            && -MAX_CONTRIBUTION <= importances@[i].1 <= MAX_CONTRIBUTION,
    ensures
        r@ == kept_vars(importances@, cutoff_of(sd_of(table_values(importances@)),
            mean_of(table_values(importances@)), p_keep as int)),
{
    proof {
        lemma_increasing_len(importances@, MAX_VARIANTS as int);
    }
    let mut values: Vec<i64> = Vec::new();
    let mut i: usize = 0;
    while i < importances.len()
        invariant
            i <= importances@.len(),
            values@ == table_values(importances@.take(i as int)),
        decreases importances@.len() - i,
    {
        values.push(importances[i].1);
        assert(values@ =~= table_values(importances@.take(i as int + 1)));
        i = i + 1;
    }
    assert(importances@.take(i as int) == importances@);
    assert forall|k: int| 0 <= k < values@.len() implies -MAX_STAT_VALUE <= #[trigger] values@[k] <= MAX_STAT_VALUE by {
        assert(values@[k] == importances@[k].1);
    }
    let m = mean(&values);
    let sd = std_deviation(&values);
    proof {
        crate::statistics::lemma_mean_bounded(values@, MAX_STAT_VALUE as int);
    }
    let cutoff = get_cutoff(sd, m, p_keep);
    let mut vars: Vec<usize> = Vec::new();
    i = 0;
    while i < importances.len()
        invariant
            i <= importances@.len(),
            vars@ == kept_vars(importances@.take(i as int), cutoff as int),
        decreases importances@.len() - i,
    {
        assert(importances@.take(i as int + 1).drop_last() == importances@.take(i as int));
        if importances[i].1 >= cutoff {
            vars.push(importances[i].0);
        }
        i = i + 1;
    }
    assert(importances@.take(i as int) == importances@);
    vars
}

} // verus!
