//! The sampling matrix: phenotypes and a sparse subject-by-variant genotype
//! matrix, from which each tree draws its own slice of subjects and variants.

use vstd::prelude::*;
use rand::Rng;
use rand::SeedableRng;
use rand::seq::SliceRandom;
use rand::rngs::StdRng;
use sprs::{CsMat, TriMat};
use crate::tree::{MAX_ROWS, MAX_VARIANTS, phenos_bounded};

verus! {

/// sprs's triplet matrix (`TriMat<u8>` is `TriMatBase<Vec<usize>, Vec<u8>>`),
/// in which the genotypes are gathered before compression; opaque here.
#[verifier::external_type_specification]
#[verifier::external_body]
#[verifier::reject_recursive_types(IStorage)]
#[verifier::reject_recursive_types(DStorage)]
pub struct ExTriMatBase<IStorage, DStorage>(sprs::TriMatBase<IStorage, DStorage>);


/// rand's seedable standard generator, the source of every random draw;
/// opaque here.
#[verifier::external_type_specification]
#[verifier::external_body]
pub struct ExStdRng(StdRng);

/// The entries appended to a triplet matrix: (row, column, value).
pub uninterp spec fn triplet_entries(t: TriMat<u8>) -> Seq<(usize, usize, u8)>;

/// The shape a triplet matrix was made with: (rows, columns).
pub uninterp spec fn triplet_shape(t: TriMat<u8>) -> (usize, usize);

/// Genotypes held in sprs's compressed sparse row matrix. Verus cannot
/// declare that type (its bounds name sprs's own index trait), so it is held
/// here, out of the verifier's sight, and read through `stored_value`.
#[verifier::external_body]
pub struct GenotypeStore {
    cells: CsMat<u8>,
}

/// The stored cells of the matrix, by (row, column).
pub uninterp spec fn csr_cells(m: GenotypeStore) -> Map<(usize, usize), u8>;

/// Relies on sprs's `TriMatI::new`: an empty triplet matrix of the given shape.
#[verifier::external_body]
fn new_triplets(rows: usize, cols: usize) -> (t: TriMat<u8>)
    ensures
        triplet_entries(t) == Seq::<(usize, usize, u8)>::empty(),
        triplet_shape(t) == (rows, cols),
{
    TriMat::new((rows, cols))
}

/// Relies on sprs's `TriMatI::add_triplet`: appends one entry; it panics
/// outside the shape.
#[verifier::external_body]
fn add_triplet(t: &mut TriMat<u8>, row: usize, col: usize, val: u8)
    requires
        row < triplet_shape(*old(t)).0,
        col < triplet_shape(*old(t)).1,
    ensures
        triplet_entries(*final(t)) == triplet_entries(*old(t)).push((row, col, val)),
        triplet_shape(*final(t)) == triplet_shape(*old(t)),
{
    t.add_triplet(row, col, val)
}

/// Entries at pairwise distinct positions.
pub open spec fn distinct_positions(e: Seq<(usize, usize, u8)>) -> bool {
    forall|i: int, j: int| 0 <= i < j < e.len() ==> (#[trigger] e[i].0, e[i].1) != (#[trigger] e[j].0, e[j].1)
}

/// Relies on sprs's `TriMatI::to_csr`: one stored cell per position that has
/// entries (the entries at one position are summed, so with distinct
/// positions each cell holds its entry's value).
#[verifier::external_body]
fn to_csr(t: &TriMat<u8>) -> (m: GenotypeStore)
    requires
        distinct_positions(triplet_entries(*t)),
    ensures
        forall|i: int| 0 <= i < triplet_entries(*t).len() ==>
            csr_cells(m).contains_key((#[trigger] triplet_entries(*t)[i].0, triplet_entries(*t)[i].1))
            && csr_cells(m)[(triplet_entries(*t)[i].0, triplet_entries(*t)[i].1)] == triplet_entries(*t)[i].2,
        forall|k: (usize, usize)| #[trigger] csr_cells(m).contains_key(k) ==>
            exists|i: int| 0 <= i < triplet_entries(*t).len() && (#[trigger] triplet_entries(*t)[i].0, triplet_entries(*t)[i].1) == k,
{
    GenotypeStore { cells: t.to_csr() }
}

/// Relies on sprs's `CsMatBase::get`: the value stored at (row, col), if any.
#[verifier::external_body]
fn stored_value(m: &GenotypeStore, row: usize, col: usize) -> (r: Option<u8>)
    ensures
        csr_cells(*m).contains_key((row, col)) ==> r == Some(csr_cells(*m)[(row, col)]),
        !csr_cells(*m).contains_key((row, col)) ==> r is None,
{
    m.cells.get(row, col).copied()
}

/// Relies on rand's `SeedableRng::seed_from_u64`: a generator whose draws
/// depend on the seed only.
#[verifier::external_body]
pub(crate) fn seeded_rng(seed: u64) -> StdRng {
    StdRng::seed_from_u64(seed)
}

/// Relies on rand's `Rng::gen_range`: a uniform draw from `0..bound`; it
/// panics on an empty range.
#[verifier::external_body]
fn draw_below(rng: &mut StdRng, bound: u64) -> (r: u64)
    requires
        bound > 0,
    ensures
        r < bound,
{
    rng.gen_range(0..bound)
}

/// Relies on rand's `SliceRandom::shuffle`: the values in a uniformly random
/// order.
#[verifier::external_body]
fn shuffle_values(v: &mut Vec<i64>, rng: &mut StdRng)
    ensures
        final(v)@.to_multiset() == old(v)@.to_multiset(),
{
    v.shuffle(rng)
}

/// The subjects and variants drawn for one tree, both in ascending order.
pub struct GenoMatrixSlice {
    pub subj_ids: Vec<usize>,
    pub genotype_ids: Vec<usize>,
}

/// A sampling fraction of one, in parts per million.
pub const FRACTION_ONE: u64 = 1_000_000;

/// Phenotypes, genotypes and the active variants.
///
/// `phenotypes` holds one value per subject (0 or 1 for a binary outcome);
/// the genotype of subject `s` at variant `g` is what the sparse matrix
/// stores there, 0 where it stores nothing. The active variants, in
/// ascending order, are those a slice may draw; masking only removes from
/// them.
pub struct GenoMatrix {
    pub ids: Vec<String>,
    pub phenotypes: Vec<i64>,
    pub n_subjects: usize,
    pub n_genotypes: usize,
    continuous_outcome: bool,
    class_zero: u64,
    class_one: u64,
    genotypes: GenotypeStore,
    genotype_indices: Vec<usize>,
}

/// Number of entries equal to `v`.
pub open spec fn count_value(p: Seq<i64>, v: int) -> int
    decreases p.len(),
{
    if p.len() == 0 {
        0
    } else {
        count_value(p.drop_last(), v) + if p.last() == v { 1int } else { 0int }
    }
}

/// Entries in strictly ascending order.
pub open spec fn strictly_increasing(s: Seq<usize>) -> bool {
    forall|i: int, j: int| 0 <= i < j < s.len() ==> #[trigger] s[i] < #[trigger] s[j]
}

/// The entries of `s` that `vars` contains (`keep`), or those it does not
/// (`!keep`), in order.
pub open spec fn filter_by(s: Seq<usize>, vars: Seq<usize>, keep: bool) -> Seq<usize>
    decreases s.len(),
{
    if s.len() == 0 {
        seq![]
    } else {
        let t = filter_by(s.drop_last(), vars, keep);
        if vars.contains(s.last()) == keep { t.push(s.last()) } else { t }
    }
}

/// Value of a cell: what is stored there, or 0.
pub open spec fn cell_value(cells: Map<(usize, usize), u8>, row: int, col: int) -> u8 {
    if cells.contains_key((row as usize, col as usize)) { cells[(row as usize, col as usize)] } else { 0 }
}

/// The genotype grid as sequences.
pub open spec fn grid_of(rows: Seq<Vec<u8>>) -> Seq<Seq<u8>> {
    rows.map_values(|r: Vec<u8>| r@)
}

/// Entry `(row, col)` of the grid.
pub open spec fn grid_at(grid: Seq<Seq<u8>>, row: int, col: int) -> u8 {
    grid[row][col]
}

/// Position `(a.0, a.1)` comes before `(row, col)` in row-major order.
pub open spec fn before(a: (usize, usize, u8), row: int, col: int) -> bool {
    a.0 < row || (a.0 == row && a.1 < col)
}

pub proof fn lemma_count_value_bounded(p: Seq<i64>, v: int)
    ensures
        0 <= count_value(p, v) <= p.len(),
    decreases p.len(),
{
    if p.len() > 0 {
        lemma_count_value_bounded(p.drop_last(), v);
    }
}

pub proof fn lemma_filter_by(s: Seq<usize>, vars: Seq<usize>, keep: bool)
    ensures
        forall|i: int| 0 <= i < filter_by(s, vars, keep).len() ==>
            s.contains(#[trigger] filter_by(s, vars, keep)[i]) && vars.contains(filter_by(s, vars, keep)[i]) == keep,
        strictly_increasing(s) ==> strictly_increasing(filter_by(s, vars, keep)),
        filter_by(s, vars, keep).len() <= s.len(),
    decreases s.len(),
{
    if s.len() > 0 {
        let t = s.drop_last();
        lemma_filter_by(t, vars, keep);
        let f = filter_by(s, vars, keep);
        let ft = filter_by(t, vars, keep);
        assert forall|i: int| 0 <= i < f.len() implies s.contains(#[trigger] f[i]) && vars.contains(f[i]) == keep by {
            if i < ft.len() {
                assert(f[i] == ft[i]);
                let j = choose|j: int| 0 <= j < t.len() && t[j] == ft[i];
                assert(s[j] == t[j]);
            } else {
                assert(f[i] == s.last());
                assert(s[s.len() - 1] == s.last());
            }
        }
        if strictly_increasing(s) {
            assert forall|i: int, j: int| 0 <= i < j < f.len() implies #[trigger] f[i] < #[trigger] f[j] by {
                if j < ft.len() {
                    assert(f[i] == ft[i] && f[j] == ft[j]);
                    assert(strictly_increasing(t)) by {
                        assert forall|a: int, b: int| 0 <= a < b < t.len() implies #[trigger] t[a] < #[trigger] t[b] by {
                            assert(t[a] == s[a] && t[b] == s[b]);
                        }
                    }
                } else {
                    assert(f[i] == ft[i]);
                    let k = choose|k: int| 0 <= k < t.len() && t[k] == ft[i];
                    assert(s[k] == t[k]);
                    assert(f[j] == s[s.len() - 1]);
                }
            }
        }
    }
}

/// Masking is idempotent: masking the same variants a second time changes
/// nothing.
pub proof fn lemma_mask_idempotent(active: Seq<usize>, vars: Seq<usize>)
    ensures
        filter_by(filter_by(active, vars, false), vars, false) == filter_by(active, vars, false),
    decreases active.len(),
{
    if active.len() > 0 {
        let t = active.drop_last();
        lemma_mask_idempotent(t, vars);
        let f = filter_by(t, vars, false);
        if !vars.contains(active.last()) {
            assert(filter_by(active, vars, false) == f.push(active.last()));
            assert(f.push(active.last()).drop_last() == f);
        }
    }
}

/// Once variants are masked, no later sample draws them: a sample drawn
/// from active variants that all survived the mask holds none of them.
pub proof fn lemma_masked_never_sampled(
    active: Seq<usize>,
    vars: Seq<usize>,
    later_active: Seq<usize>,
    sample: Seq<usize>,
)
    requires
        forall|i: int| 0 <= i < later_active.len() ==> filter_by(active, vars, false).contains(#[trigger] later_active[i]),
        forall|i: int| 0 <= i < sample.len() ==> later_active.contains(#[trigger] sample[i]),
    ensures
        forall|i: int| 0 <= i < sample.len() ==> !vars.contains(#[trigger] sample[i]),
{
    lemma_filter_by(active, vars, false);
    let f = filter_by(active, vars, false);
    assert forall|i: int| 0 <= i < sample.len() implies !vars.contains(#[trigger] sample[i]) by {
        let j = choose|j: int| 0 <= j < later_active.len() && later_active[j] == sample[i];
        assert(f.contains(later_active[j]));
        let k = choose|k: int| 0 <= k < f.len() && f[k] == later_active[j];
    }
}

/// Masking and keeping only shrink the active set: what stays was active.
pub proof fn lemma_restrict_shrinks(active: Seq<usize>, vars: Seq<usize>, keep: bool)
    ensures
        forall|i: int| 0 <= i < filter_by(active, vars, keep).len() ==>
            active.contains(#[trigger] filter_by(active, vars, keep)[i]),
{
    lemma_filter_by(active, vars, keep);
}

/// A fraction capped at one.
pub open spec fn capped(frac: int) -> int {
    if frac > FRACTION_ONE { FRACTION_ONE as int } else { frac }
}

/// Number of equally likely values a subject's draw is taken from: one per
/// part per million, times the number of subjects `n` for a binary outcome.
pub open spec fn subject_draw_range(n: int, cont: bool) -> int {
    if cont { FRACTION_ONE as int } else { FRACTION_ONE * n }
}

/// How many of those values draw the subject: its fraction (capped at one)
/// in parts per million, times the size of its own class for a binary
/// outcome. The subject's chance is thus the fraction, times its class's
/// share of the subjects for a binary outcome.
pub open spec fn subject_threshold(frac: int, cont: bool, class_size: int) -> int {
    if cont { capped(frac) } else { capped(frac) * class_size }
}

/// The subjects drawn by the draws `draws` (one per subject, in order).
pub open spec fn chosen_subjects(draws: Seq<u64>, phenos: Seq<i64>, frac: int, cont: bool) -> Seq<usize>
    decreases draws.len(),
{
    if draws.len() == 0 {
        seq![]
    } else {
        let k = draws.len() - 1;
        let t = chosen_subjects(draws.drop_last(), phenos, frac, cont);
        if draws[k] < subject_threshold(frac, cont, count_value(phenos, phenos[k] as int)) {
            t.push(k as usize)
        } else {
            t
        }
    }
}

/// The active variants drawn by the draws `draws` (one per active variant,
/// in order, each out of `FRACTION_ONE`).
pub open spec fn chosen_variants(draws: Seq<u64>, active: Seq<usize>, frac: int) -> Seq<usize>
    decreases draws.len(),
{
    if draws.len() == 0 {
        seq![]
    } else {
        let k = draws.len() - 1;
        let t = chosen_variants(draws.drop_last(), active, frac);
        if draws[k] < frac { t.push(active[k]) } else { t }
    }
}

/// `subj` and `ids` are the slice of `gm` that uniform draws `sd` (one per
/// subject) and `vd` (one per active variant) give under the fractions.
pub open spec fn is_slice_draw(gm: GenoMatrix, var_frac: int, subj_frac: int, sd: Seq<u64>, vd: Seq<u64>,
    subj: Seq<usize>, ids: Seq<usize>) -> bool {
    &&& sd.len() == gm.subject_count()
    &&& forall|i: int| 0 <= i < sd.len() ==> #[trigger] sd[i] < subject_draw_range(gm.subject_count(), gm.is_continuous())
    &&& vd.len() == gm.active().len()
    &&& forall|i: int| 0 <= i < vd.len() ==> #[trigger] vd[i] < FRACTION_ONE
    &&& subj == chosen_subjects(sd, gm.phenos(), subj_frac, gm.is_continuous())
    &&& ids == chosen_variants(vd, gm.active(), var_frac)
}

/// Whether a subject whose class holds `class_size` subjects is drawn by the
/// uniform draw `draw` (see `subject_threshold`).
pub fn subject_drawn(draw: u64, frac: u64, continuous: bool, class_size: u64) -> (r: bool)
    requires
        class_size <= MAX_ROWS,
    ensures
        r == (draw < subject_threshold(frac as int, continuous, class_size as int)),
{
    let f = if frac > FRACTION_ONE { FRACTION_ONE } else { frac };
    if continuous {
        draw < f
    } else {
        assert(f * class_size <= FRACTION_ONE * MAX_ROWS) by (nonlinear_arith)
            requires f <= FRACTION_ONE, class_size <= MAX_ROWS;
        draw < f * class_size
    }
}

impl GenoMatrix {
    /// The subjects' phenotypes.
    pub closed spec fn phenos(&self) -> Seq<i64> {
        self.phenotypes@
    }

    /// The subjects' identifiers.
    pub closed spec fn subject_ids(&self) -> Seq<String> {
        self.ids@
    }

    /// Number of subjects.
    pub closed spec fn subject_count(&self) -> int {
        self.n_subjects as int
    }

    /// Number of variants (columns).
    pub closed spec fn variant_count(&self) -> int {
        self.n_genotypes as int
    }

    /// The active variants, ascending.
    pub closed spec fn active(&self) -> Seq<usize> {
        self.genotype_indices@
    }

    /// Genotype of subject `row` at variant `col`.
    pub closed spec fn genotype(&self, row: int, col: int) -> u8 {
        cell_value(csr_cells(self.genotypes), row, col)
    }

    /// The outcome is continuous rather than binary.
    pub closed spec fn is_continuous(&self) -> bool {
        self.continuous_outcome
    }

    pub closed spec fn wf(&self) -> bool {
        &&& self.phenotypes@.len() == self.n_subjects <= MAX_ROWS
        &&& self.n_genotypes <= MAX_VARIANTS
        &&& phenos_bounded(self.phenotypes@)
        &&& !self.continuous_outcome ==> forall|i: int| 0 <= i < self.phenotypes@.len() ==>
                #[trigger] self.phenotypes@[i] == 0 || self.phenotypes@[i] == 1
        &&& self.class_zero == count_value(self.phenotypes@, 0)
        &&& self.class_one == count_value(self.phenotypes@, 1)
        &&& strictly_increasing(self.genotype_indices@)
        &&& forall|i: int| 0 <= i < self.genotype_indices@.len() ==> #[trigger] self.genotype_indices@[i] < self.n_genotypes
    }

    pub proof fn lemma_wf(&self)
        requires
            self.wf(),
        ensures
            self.phenos().len() == self.subject_count() <= MAX_ROWS,
            self.variant_count() <= MAX_VARIANTS,
            phenos_bounded(self.phenos()),
            strictly_increasing(self.active()),
            forall|i: int| 0 <= i < self.active().len() ==> #[trigger] self.active()[i] < self.variant_count(),
    {
    }

    /// Builds the matrix from one phenotype and one row of `n_genotypes`
    /// genotypes per subject. Every variant starts active. For a binary
    /// outcome the class sizes are counted once, here.
    pub fn new(
        ids: Vec<String>,
        phenotypes: Vec<i64>,
        genotypes: &Vec<Vec<u8>>,
        n_genotypes: usize,
        continuous_outcome: bool,
    ) -> (r: Self)
        requires
            phenotypes@.len() == genotypes@.len() <= MAX_ROWS,
            n_genotypes <= MAX_VARIANTS,
            forall|i: int| 0 <= i < genotypes@.len() ==> (#[trigger] genotypes@[i])@.len() == n_genotypes,
            phenos_bounded(phenotypes@),
            !continuous_outcome ==> forall|i: int| 0 <= i < phenotypes@.len() ==>
                #[trigger] phenotypes@[i] == 0 || phenotypes@[i] == 1,
        ensures
            r.wf(),
            r.subject_ids() == ids@,
            r.phenos() == phenotypes@,
            r.subject_count() == phenotypes@.len(),
            r.variant_count() == n_genotypes,
            r.is_continuous() == continuous_outcome,
            r.active().len() == n_genotypes,
            forall|i: int| 0 <= i < n_genotypes ==> #[trigger] r.active()[i] == i,
            forall|s: int, g: int| 0 <= s < phenotypes@.len() && 0 <= g < n_genotypes ==>
                #[trigger] r.genotype(s, g) == genotypes@[s]@[g],
    {
        let rows = genotypes.len();
        let ghost grid = grid_of(genotypes@);
        let mut tri = new_triplets(rows, n_genotypes);
        let mut s: usize = 0;
        while s < rows
            invariant
                rows == genotypes@.len() <= MAX_ROWS,
                grid == grid_of(genotypes@),
                forall|i: int| 0 <= i < genotypes@.len() ==> (#[trigger] genotypes@[i])@.len() == n_genotypes,
                s <= rows,
                triplet_shape(tri) == (rows, n_genotypes),
                forall|i: int| 0 <= i < triplet_entries(tri).len() ==> {
                    let e = #[trigger] triplet_entries(tri)[i];
                    e.0 < rows && e.1 < n_genotypes && e.2 == grid_at(grid, e.0 as int, e.1 as int)
                        && e.2 != 0 && e.0 < s
                },
                forall|i: int, j: int| 0 <= i < j < triplet_entries(tri).len() ==>
                    before(#[trigger] triplet_entries(tri)[i], triplet_entries(tri)[j].0 as int,
                        #[trigger] triplet_entries(tri)[j].1 as int),
                forall|a: int, b: int| 0 <= a < s && 0 <= b < n_genotypes && #[trigger] grid_at(grid, a, b) != 0 ==>
                    exists|i: int| 0 <= i < triplet_entries(tri).len()
                        && #[trigger] triplet_entries(tri)[i] == (a as usize, b as usize, grid_at(grid, a, b)),
            decreases rows - s,
        {
            let row = &genotypes[s];
            assert(grid[s as int] == row@);
            let mut g: usize = 0;
            while g < n_genotypes
                invariant
                    rows == genotypes@.len() <= MAX_ROWS,
                    grid == grid_of(genotypes@),
                    forall|i: int| 0 <= i < genotypes@.len() ==> (#[trigger] genotypes@[i])@.len() == n_genotypes,
                    s < rows,
                    row@ == grid[s as int],
                    row@.len() == n_genotypes,
                    g <= n_genotypes,
                    triplet_shape(tri) == (rows, n_genotypes),
                    forall|i: int| 0 <= i < triplet_entries(tri).len() ==> {
                        let e = #[trigger] triplet_entries(tri)[i];
                        e.0 < rows && e.1 < n_genotypes && e.2 == grid_at(grid, e.0 as int, e.1 as int)
                            && e.2 != 0 && before(e, s as int, g as int)
                    },
                    forall|i: int, j: int| 0 <= i < j < triplet_entries(tri).len() ==>
                        before(#[trigger] triplet_entries(tri)[i], triplet_entries(tri)[j].0 as int,
                            #[trigger] triplet_entries(tri)[j].1 as int),
                    forall|a: int, b: int| (0 <= a < s || (a == s && 0 <= b < g)) && 0 <= b < n_genotypes
                        && #[trigger] grid_at(grid, a, b) != 0 ==>
                        exists|i: int| 0 <= i < triplet_entries(tri).len()
                            && #[trigger] triplet_entries(tri)[i] == (a as usize, b as usize, grid_at(grid, a, b)),
                decreases n_genotypes - g,
            {
                let v = row[g];
                if v != 0 {
                    let ghost old_e = triplet_entries(tri);
                    add_triplet(&mut tri, s, g, v);
                    proof {
                        let e = triplet_entries(tri);
                        assert(e.len() == old_e.len() + 1);
                        assert(grid_at(grid, s as int, g as int) == v);
                        assert forall|a: int, b: int| (0 <= a < s || (a == s && 0 <= b < g + 1)) && 0 <= b < n_genotypes
                            && #[trigger] grid_at(grid, a, b) != 0 implies
                            exists|i: int| 0 <= i < e.len() && #[trigger] e[i] == (a as usize, b as usize, grid_at(grid, a, b)) by {
                            if a == s && b == g {
                                assert(e[old_e.len() as int] == (a as usize, b as usize, grid_at(grid, a, b)));
                            } else {
                                let i = choose|i: int| 0 <= i < old_e.len() && #[trigger] old_e[i] == (a as usize, b as usize, grid_at(grid, a, b));
                                assert(e[i] == old_e[i]);
                            }
                        }
                        assert forall|i: int, j: int| 0 <= i < j < e.len() implies
                            before(#[trigger] e[i], e[j].0 as int, #[trigger] e[j].1 as int) by {
                            assert(e[i] == old_e[i]);
                            if j < old_e.len() {
                                assert(e[j] == old_e[j]);
                            }
                        }
                        assert forall|i: int| 0 <= i < e.len() implies {
                            let x = #[trigger] e[i];
                            x.0 < rows && x.1 < n_genotypes && x.2 == grid_at(grid, x.0 as int, x.1 as int)
                                && x.2 != 0 && before(x, s as int, g + 1)
                        } by {
                            if i < old_e.len() {
                                assert(e[i] == old_e[i]);
                            }
                        }
                    }
                }
                g = g + 1;
            }
            s = s + 1;
        }
        let ghost e = triplet_entries(tri);
        assert(distinct_positions(e)) by {
            assert forall|i: int, j: int| 0 <= i < j < e.len() implies
                (#[trigger] e[i].0, e[i].1) != (#[trigger] e[j].0, e[j].1) by {
                assert(before(e[i], e[j].0 as int, e[j].1 as int));
            }
        }
        let store = to_csr(&tri);
        let mut indices: Vec<usize> = Vec::new();
        let mut k: usize = 0;
        while k < n_genotypes
            invariant
                k <= n_genotypes,
                indices@.len() == k,
                forall|i: int| 0 <= i < k ==> #[trigger] indices@[i] == i,
            decreases n_genotypes - k,
        {
            indices.push(k);
            k = k + 1;
        }
        let mut class_zero: u64 = 0;
        let mut class_one: u64 = 0;
        let mut i: usize = 0;
        while i < phenotypes.len()
            invariant
                i <= phenotypes@.len() <= MAX_ROWS,
                class_zero == count_value(phenotypes@.take(i as int), 0),
                class_one == count_value(phenotypes@.take(i as int), 1),
            decreases phenotypes@.len() - i,
        {
            proof {
                lemma_count_value_bounded(phenotypes@.take(i as int), 0);
                lemma_count_value_bounded(phenotypes@.take(i as int), 1);
            }
            assert(phenotypes@.take(i as int + 1).drop_last() == phenotypes@.take(i as int));
            if phenotypes[i] == 0 {
                class_zero = class_zero + 1;
            } else if phenotypes[i] == 1 {
                class_one = class_one + 1;
            }
            i = i + 1;
        }
        assert(phenotypes@.take(i as int) == phenotypes@);
        let r = GenoMatrix {
            ids,
            phenotypes,
            n_subjects: rows,
            n_genotypes,
            continuous_outcome,
            class_zero,
            class_one,
            genotypes: store,
            genotype_indices: indices,
        };
        proof {
            let cells = csr_cells(r.genotypes);
            assert forall|s: int, g: int| 0 <= s < rows && 0 <= g < n_genotypes implies
                #[trigger] r.genotype(s, g) == genotypes@[s]@[g] by {
                assert(grid[s] == genotypes@[s]@);
                let v = grid_at(grid, s, g);
                if v != 0 {
                    let i = choose|i: int| 0 <= i < e.len() && #[trigger] e[i] == (s as usize, g as usize, v);
                    assert(cells.contains_key((e[i].0, e[i].1)));
                } else if cells.contains_key((s as usize, g as usize)) {
                    let i = choose|i: int| 0 <= i < e.len() && (#[trigger] e[i].0, e[i].1) == (s as usize, g as usize);
                    assert(e[i].2 == grid_at(grid, e[i].0 as int, e[i].1 as int));
                }
            }
            assert(strictly_increasing(r.genotype_indices@));
        }
        r
    }

    /// Draws the subjects and variants for one tree. Each active variant is
    /// drawn with probability `var_frac / FRACTION_ONE`. Each subject is drawn
    /// with probability `subj_frac / FRACTION_ONE` for a continuous outcome;
    /// for a binary one, with that probability times the share of subjects in
    /// its own class. Fractions above `FRACTION_ONE` count as one. The result
    /// is what `is_slice_draw` makes of the uniform draws taken.
    pub fn make_slice(&self, var_frac: u64, subj_frac: u64, rng: &mut StdRng) -> (r: GenoMatrixSlice)
        requires
            self.wf(),
        ensures
            exists|sd: Seq<u64>, vd: Seq<u64>|
                is_slice_draw(*self, var_frac as int, subj_frac as int, sd, vd, r.subj_ids@, r.genotype_ids@),
            strictly_increasing(r.subj_ids@),
            forall|i: int| 0 <= i < r.subj_ids@.len() ==> #[trigger] r.subj_ids@[i] < self.subject_count(),
            r.subj_ids@.len() <= self.subject_count(),
            strictly_increasing(r.genotype_ids@),
            forall|i: int| 0 <= i < r.genotype_ids@.len() ==> self.active().contains(#[trigger] r.genotype_ids@[i]),
            var_frac >= FRACTION_ONE ==> r.genotype_ids@ == self.active(),
            var_frac == 0 ==> r.genotype_ids@.len() == 0,
            subj_frac == 0 ==> r.subj_ids@.len() == 0,
            subj_frac >= FRACTION_ONE && self.is_continuous() ==>
                r.subj_ids@ == Seq::new(self.subject_count() as nat, |i: int| i as usize),
    {
        let frac = if subj_frac > FRACTION_ONE { FRACTION_ONE } else { subj_frac };
        let n = self.n_subjects;
        proof {
            lemma_count_value_bounded(self.phenotypes@, 0);
            lemma_count_value_bounded(self.phenotypes@, 1);
        }
        let ghost mut sd: Seq<u64> = seq![];
        let mut subjs: Vec<usize> = Vec::new();
        let mut s: usize = 0;
        while s < n
            invariant
                self.wf(),
                n == self.n_subjects,
                s <= n,
                frac == capped(subj_frac as int),
                self.class_zero <= n,
                self.class_one <= n,
                sd.len() == s,
                forall|i: int| 0 <= i < sd.len() ==> #[trigger] sd[i] < subject_draw_range(n as int, self.continuous_outcome),
                subjs@ == chosen_subjects(sd, self.phenotypes@, subj_frac as int, self.continuous_outcome),
                strictly_increasing(subjs@),
                subjs@.len() <= s,
                forall|i: int| 0 <= i < subjs@.len() ==> #[trigger] subjs@[i] < s,
                subj_frac == 0 ==> subjs@.len() == 0,
                subj_frac >= FRACTION_ONE && self.continuous_outcome ==>
                    subjs@ == Seq::new(s as nat, |i: int| i as usize),
            decreases n - s,
        {
            let d: u64;
            let take: bool;
            if self.continuous_outcome {
                d = draw_below(rng, FRACTION_ONE);
                take = subject_drawn(d, subj_frac, true, 0);
            } else {
                let class = if self.phenotypes[s] == 0 { self.class_zero } else { self.class_one };
                assert(class == count_value(self.phenotypes@, self.phenotypes@[s as int] as int));
                assert(FRACTION_ONE * n <= FRACTION_ONE * MAX_ROWS) by (nonlinear_arith)
                    requires n <= MAX_ROWS;
                d = draw_below(rng, FRACTION_ONE * (n as u64));
                take = subject_drawn(d, subj_frac, false, class);
                assert(subj_frac == 0 ==> capped(subj_frac as int) * class == 0) by (nonlinear_arith)
                    requires subj_frac == 0 ==> capped(subj_frac as int) == 0;
            }
            proof {
                let sd2 = sd.push(d);
                assert(sd2.drop_last() == sd);
                assert(sd2[s as int] == d);
                sd = sd2;
            }
            if take {
                subjs.push(s);
            }
            proof {
                if subj_frac >= FRACTION_ONE && self.continuous_outcome {
                    assert(subjs@ =~= Seq::new((s + 1) as nat, |i: int| i as usize));
                }
            }
            s = s + 1;
        }
        let ghost mut vd: Seq<u64> = seq![];
        let mut g_ids: Vec<usize> = Vec::new();
        let mut i: usize = 0;
        while i < self.genotype_indices.len()
            invariant
                self.wf(),
                i <= self.genotype_indices@.len(),
                vd.len() == i,
                forall|k: int| 0 <= k < vd.len() ==> #[trigger] vd[k] < FRACTION_ONE,
                g_ids@ == chosen_variants(vd, self.genotype_indices@, var_frac as int),
                strictly_increasing(g_ids@),
                forall|k: int| 0 <= k < g_ids@.len() ==>
                    exists|j: int| 0 <= j < i && #[trigger] g_ids@[k] == self.genotype_indices@[j],
                var_frac >= FRACTION_ONE ==> g_ids@ == self.genotype_indices@.take(i as int),
                var_frac == 0 ==> g_ids@.len() == 0,
            decreases self.genotype_indices@.len() - i,
        {
            let g = self.genotype_indices[i];
            let d = draw_below(rng, FRACTION_ONE);
            proof {
                let vd2 = vd.push(d);
                assert(vd2.drop_last() == vd);
                assert(vd2[i as int] == d);
                vd = vd2;
            }
            if d < var_frac {
                proof {
                    assert forall|k: int| 0 <= k < g_ids@.len() implies #[trigger] g_ids@[k] < g by {
                        let j = choose|j: int| 0 <= j < i && #[trigger] g_ids@[k] == self.genotype_indices@[j];
                    }
                }
                g_ids.push(g);
                proof {
                    assert forall|k: int| 0 <= k < g_ids@.len() implies
                        exists|j: int| 0 <= j < i + 1 && #[trigger] g_ids@[k] == self.genotype_indices@[j] by {
                        if k == g_ids@.len() - 1 {
                            assert(g_ids@[k] == self.genotype_indices@[i as int]);
                        } else {
                            let j = choose|j: int| 0 <= j < i && #[trigger] g_ids@.drop_last()[k] == self.genotype_indices@[j];
                            assert(g_ids@.drop_last()[k] == g_ids@[k]);
                        }
                    }
                }
            }
            assert(self.genotype_indices@.take(i as int + 1) == self.genotype_indices@.take(i as int).push(g));
            i = i + 1;
        }
        assert(self.genotype_indices@.take(i as int) == self.genotype_indices@);
        proof {
            assert forall|k: int| 0 <= k < g_ids@.len() implies self.active().contains(#[trigger] g_ids@[k]) by {
                let j = choose|j: int| 0 <= j < i && #[trigger] g_ids@[k] == self.genotype_indices@[j];
            }
            assert(is_slice_draw(*self, var_frac as int, subj_frac as int, sd, vd, subjs@, g_ids@));
        }
        let r = GenoMatrixSlice { subj_ids: subjs, genotype_ids: g_ids };
        assert(is_slice_draw(*self, var_frac as int, subj_frac as int, sd, vd, r.subj_ids@, r.genotype_ids@));
        r
    }

    /// The rows of a slice: the phenotypes of its subjects, a shuffled copy of
    /// them, and per variant the genotypes of its subjects.
    pub fn get_slice_data(&self, gm: &GenoMatrixSlice, rng: &mut StdRng) -> (r: (Vec<i64>, Vec<i64>, Vec<Vec<u8>>))
        requires
            self.wf(),
            forall|i: int| 0 <= i < gm.subj_ids@.len() ==> #[trigger] gm.subj_ids@[i] < self.subject_count(),
            forall|k: int| 0 <= k < gm.genotype_ids@.len() ==> #[trigger] gm.genotype_ids@[k] < self.variant_count(),
        ensures
            r.0@.len() == gm.subj_ids@.len(),
            forall|j: int| 0 <= j < r.0@.len() ==> #[trigger] r.0@[j] == self.phenos()[gm.subj_ids@[j] as int],
            r.1@.to_multiset() == r.0@.to_multiset(),
            r.2@.len() == gm.genotype_ids@.len(),
            forall|k: int| 0 <= k < r.2@.len() ==> (#[trigger] r.2@[k])@.len() == gm.subj_ids@.len(),
            forall|k: int, j: int| 0 <= k < r.2@.len() && 0 <= j < gm.subj_ids@.len() ==>
                #[trigger] r.2@[k]@[j] == self.genotype(gm.subj_ids@[j] as int, gm.genotype_ids@[k] as int),
    {
        let mut p_vec: Vec<i64> = Vec::new();
        let mut i: usize = 0;
        while i < gm.subj_ids.len()
            invariant
                self.wf(),
                forall|i: int| 0 <= i < gm.subj_ids@.len() ==> #[trigger] gm.subj_ids@[i] < self.subject_count(),
                i <= gm.subj_ids@.len(),
                p_vec@.len() == i,
                forall|j: int| 0 <= j < i ==> #[trigger] p_vec@[j] == self.phenos()[gm.subj_ids@[j] as int],
            decreases gm.subj_ids@.len() - i,
        {
            p_vec.push(self.phenotypes[gm.subj_ids[i]]);
            i = i + 1;
        }
        let mut g_vec: Vec<Vec<u8>> = Vec::new();
        let mut k: usize = 0;
        while k < gm.genotype_ids.len()
            invariant
                k <= gm.genotype_ids@.len(),
                g_vec@.len() == k,
                forall|a: int| 0 <= a < k ==> (#[trigger] g_vec@[a])@.len() == gm.subj_ids@.len(),
                forall|a: int, j: int| 0 <= a < k && 0 <= j < gm.subj_ids@.len() ==>
                    #[trigger] g_vec@[a]@[j] == self.genotype(gm.subj_ids@[j] as int, gm.genotype_ids@[a] as int),
            decreases gm.genotype_ids@.len() - k,
        {
            let g = gm.genotype_ids[k];
            let mut gv: Vec<u8> = Vec::new();
            let mut j: usize = 0;
            while j < gm.subj_ids.len()
                invariant
                    j <= gm.subj_ids@.len(),
                    g == gm.genotype_ids@[k as int],
                    gv@.len() == j,
                    forall|b: int| 0 <= b < j ==> #[trigger] gv@[b] == self.genotype(gm.subj_ids@[b] as int, g as int),
                decreases gm.subj_ids@.len() - j,
            {
                let v = match stored_value(&self.genotypes, gm.subj_ids[j], g) {
                    Some(v) => v,
                    None => 0,
                };
                gv.push(v);
                j = j + 1;
            }
            g_vec.push(gv);
            k = k + 1;
        }
        let mut pheno2 = p_vec.clone();
        assert(pheno2@ == p_vec@);
        shuffle_values(&mut pheno2, rng);
        (p_vec, pheno2, g_vec)
    }

    /// Removes the given variants from the active set, for good; variants
    /// that are not active are ignored.
    pub fn mask(&mut self, variants: &Vec<usize>)
        requires
            old(self).wf(),
        ensures
            final(self).wf(),
            final(self).active() == filter_by(old(self).active(), variants@, false),
            final(self).phenos() == old(self).phenos(),
            final(self).subject_count() == old(self).subject_count(),
            final(self).variant_count() == old(self).variant_count(),
            final(self).is_continuous() == old(self).is_continuous(),
            forall|s: int, g: int| #[trigger] final(self).genotype(s, g) == old(self).genotype(s, g),
    {
        self.restrict_active(variants, false);
    }

    /// Keeps active only those active variants that are listed; the others
    /// are masked for good.
    pub fn set_genotype_indices(&mut self, variants: Vec<usize>)
        requires
            old(self).wf(),
        ensures
            final(self).wf(),
            final(self).active() == filter_by(old(self).active(), variants@, true),
            final(self).phenos() == old(self).phenos(),
            final(self).subject_count() == old(self).subject_count(),
            final(self).variant_count() == old(self).variant_count(),
            final(self).is_continuous() == old(self).is_continuous(),
            forall|s: int, g: int| #[trigger] final(self).genotype(s, g) == old(self).genotype(s, g),
    {
        self.restrict_active(&variants, true);
    }

    fn restrict_active(&mut self, variants: &Vec<usize>, keep: bool)
        requires
            old(self).wf(),
        ensures
            final(self).wf(),
            final(self).genotype_indices@ == filter_by(old(self).genotype_indices@, variants@, keep),
            final(self).phenotypes == old(self).phenotypes,
            final(self).n_subjects == old(self).n_subjects,
            final(self).n_genotypes == old(self).n_genotypes,
            final(self).continuous_outcome == old(self).continuous_outcome,
            final(self).class_zero == old(self).class_zero,
            final(self).class_one == old(self).class_one,
            final(self).genotypes == old(self).genotypes,
    {
        let ng = self.n_genotypes;
        let mut marks: Vec<bool> = Vec::new();
        let mut k: usize = 0;
        while k < ng
            invariant
                k <= ng,
                marks@.len() == k,
                forall|g: int| 0 <= g < k ==> !(#[trigger] marks@[g]),
            decreases ng - k,
        {
            marks.push(false);
            k = k + 1;
        }
        let mut i: usize = 0;
        while i < variants.len()
            invariant
                i <= variants@.len(),
                marks@.len() == ng,
                forall|g: int| 0 <= g < ng ==> #[trigger] marks@[g] == variants@.take(i as int).contains(g as usize),
            decreases variants@.len() - i,
        {
            let v = variants[i];
            proof {
                assert(variants@.take(i as int + 1) == variants@.take(i as int).push(v));
                broadcast use vstd::seq_lib::group_seq_properties;
            }
            if v < ng {
                marks.set(v, true);
            }
            i = i + 1;
        }
        assert(variants@.take(i as int) == variants@);
        let ghost old_ids = self.genotype_indices@;
        let mut kept: Vec<usize> = Vec::new();
        let mut a: usize = 0;
        while a < self.genotype_indices.len()
            invariant
                self.genotype_indices@ == old_ids,
                self.n_genotypes == ng,
                forall|x: int| 0 <= x < old_ids.len() ==> #[trigger] old_ids[x] < ng,
                marks@.len() == ng,
                forall|g: int| 0 <= g < ng ==> #[trigger] marks@[g] == variants@.contains(g as usize),
                a <= old_ids.len(),
                kept@ == filter_by(old_ids.take(a as int), variants@, keep),
            decreases old_ids.len() - a,
        {
            let g = self.genotype_indices[a];
            assert(old_ids.take(a as int + 1).drop_last() == old_ids.take(a as int));
            assert(marks@[g as int] == variants@.contains(g));
            if marks[g] == keep {
                kept.push(g);
            }
            a = a + 1;
        }
        assert(old_ids.take(a as int) == old_ids);
        proof {
            lemma_filter_by(old_ids, variants@, keep);
            let f = filter_by(old_ids, variants@, keep);
            assert forall|x: int| 0 <= x < f.len() implies #[trigger] f[x] < ng by {
                let j = choose|j: int| 0 <= j < old_ids.len() && old_ids[j] == f[x];
            }
        }
        self.genotype_indices = kept;
    }
}

} // verus!
