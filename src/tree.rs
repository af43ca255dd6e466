//! Decision trees grown over a sampled slice of the genotype matrix, each
//! split scored against a shuffled-phenotype baseline.
//!
//! Binary outcome: a split's score is the Gini impurity of its two branches
//! (genotype 0 and genotype 1) taken relative to the parent's score, weighted
//! by branch size over all rows of the node; lower is better, and the first
//! variant with the lowest score wins. Rows with another genotype count in
//! the weights' denominator only. Continuous outcome: the score is the
//! reduction of the standard deviation; higher is better, the first variant
//! with the highest score wins, and a variant without reduction is no
//! candidate. A variant whose shuffled baseline does at least as well as the
//! real phenotypes scores with the baseline's value and marks its node as a
//! penalty. Growth stops once the depth exceeds the maximum depth.

use vstd::prelude::*;
use crate::matrix::GenoMatrixSlice;
use crate::utils::{first_min, first_max, as_ints, magnitude, first_min_index, first_max_index};
use crate::statistics::{sd_of, std_deviation, floor_div, lemma_variance_bounded};

verus! {

/// Fixed-point value of a binary-outcome score of 1.0.
pub const SCORE_ONE: i64 = 1_000_000;

/// Largest number of subjects in one tree.
pub const MAX_ROWS: usize = 16_777_216;

/// Largest magnitude of a phenotype value.
pub const MAX_PHENOTYPE: i64 = 2_147_483_648;

/// Bound on how far a binary-outcome score may move from its parent's score.
pub const SCORE_STEP: i64 = 3_000_000;

/// Largest magnitude of any node score.
pub const MAX_SCORE: i64 = 70_368_744_177_664;

/// Bound on variant indices.
pub const MAX_VARIANTS: usize = 67_108_864;

/// A vertex of a decision tree. A node without children is terminal; the
/// empty node stands for a tree (or branch) that found no usable split.
/// `node_n` subjects reach the node out of the tree's `n`; `left` holds the
/// subjects with genotype 0 at `var`, `right` those with genotype 1. `neg`
/// marks a split that did no better than its shuffled baseline, whose
/// importance counts against the variant.
pub struct Node {
    pub score: i64,
    pub is_empty: bool,
    pub n: usize,
    pub neg: bool,
    pub var: usize,
    pub node_n: usize,
    pub left: Option<Box<Node>>,
    pub right: Option<Box<Node>>,
}

/// The rows that reach a node: phenotypes, a shuffled copy of them, and per
/// sampled variant the genotypes of those rows.
pub struct NodeData {
    pub phenos: Vec<i64>,
    pub phenos_shuffle: Vec<i64>,
    pub genos: Vec<Vec<u8>>,
}

/// The empty node.
pub open spec fn empty_spec() -> Node {
    Node { score: 0, is_empty: true, n: 0, neg: true, var: 0, node_n: 0, left: None, right: None }
}

/// Every value lies within the phenotype bound.
pub open spec fn phenos_bounded(p: Seq<i64>) -> bool {
    forall|i: int| 0 <= i < p.len() ==> -MAX_PHENOTYPE <= #[trigger] p[i] <= MAX_PHENOTYPE
}

/// Genotype columns all of length `len`.
pub open spec fn columns_fit(gs: Seq<Seq<u8>>, len: int) -> bool {
    forall|k: int| 0 <= k < gs.len() ==> (#[trigger] gs[k]).len() == len
}

impl NodeData {
    /// The genotype columns as sequences.
    pub open spec fn columns(&self) -> Seq<Seq<u8>> {
        self.genos@.map_values(|c: Vec<u8>| c@)
    }

    pub open spec fn wf(&self) -> bool {
        &&& self.phenos@.len() == self.phenos_shuffle@.len() <= MAX_ROWS
        &&& phenos_bounded(self.phenos@)
        &&& phenos_bounded(self.phenos_shuffle@)
        &&& columns_fit(self.columns(), self.phenos@.len() as int)
    }
}

/// The entries of `v` at the positions where `g` holds `gv`, in order.
pub open spec fn select<T>(v: Seq<T>, g: Seq<u8>, gv: u8) -> Seq<T>
    decreases v.len(),
{
    if v.len() == 0 {
        seq![]
    } else {
        let s = select(v.drop_last(), g, gv);
        if g[v.len() - 1] == gv { s.push(v.last()) } else { s }
    }
}

/// Number of rows with phenotype `pv` and genotype `gv`.
pub open spec fn count_pg(p: Seq<i64>, g: Seq<u8>, pv: int, gv: int) -> int
    decreases p.len(),
{
    if p.len() == 0 {
        0
    } else {
        count_pg(p.drop_last(), g, pv, gv) + if p.last() == pv && g[p.len() - 1] == gv {
            1int
        } else {
            0int
        }
    }
}

/// Weighted impurity of one branch holding `c0` rows of class 0 and `c1` of
/// class 1, relative to parent score `s`, out of `n` rows in all:
/// `(c0 + c1) / n * (s - p0^2 - p1^2)`, rounded down.
pub open spec fn gini_term(s: int, c0: int, c1: int, n: int) -> int {
    let nb = c0 + c1;
    (nb * nb * s - SCORE_ONE * (c0 * c0 + c1 * c1)) / (nb * n)
}

/// Score of splitting binary phenotypes `p` by genotypes `g` under parent
/// score `s`; `SCORE_ONE` (no use) when a branch is empty.
pub open spec fn gini_of(p: Seq<i64>, g: Seq<u8>, s: int) -> int {
    let c00 = count_pg(p, g, 0, 0);
    let c10 = count_pg(p, g, 1, 0);
    let c01 = count_pg(p, g, 0, 1);
    let c11 = count_pg(p, g, 1, 1);
    if c00 + c10 == 0 || c01 + c11 == 0 {
        SCORE_ONE as int
    } else {
        gini_term(s, c00, c10, p.len() as int) + gini_term(s, c01, c11, p.len() as int)
    }
}

/// Reduction of the standard deviation of `p` achieved by splitting it by
/// genotypes `g`, the branches weighted by size over all rows; 0 when the
/// split does not reduce it.
pub open spec fn sdr_of(p: Seq<i64>, g: Seq<u8>) -> int {
    let top = sd_of(p);
    let b0 = select(p, g, 0);
    let b1 = select(p, g, 1);
    let w = if p.len() == 0 {
        0
    } else {
        ((b0.len() as int) * sd_of(b0) + (b1.len() as int) * sd_of(b1)) / (p.len() as int)
    };
    if w > top { 0 } else { top - w }
}

pub proof fn lemma_select_len<T>(v: Seq<T>, g: Seq<u8>, a: u8, b: u8)
    requires
        a != b,
    ensures
        select(v, g, a).len() + select(v, g, b).len() <= v.len(),
    decreases v.len(),
{
    if v.len() > 0 {
        lemma_select_len(v.drop_last(), g, a, b);
    }
}

proof fn lemma_select_bounded(v: Seq<i64>, g: Seq<u8>, gv: u8, b: int)
    requires
        forall|i: int| 0 <= i < v.len() ==> -b <= #[trigger] v[i] <= b,
    ensures
        forall|i: int| 0 <= i < select(v, g, gv).len() ==> -b <= #[trigger] select(v, g, gv)[i] <= b,
    decreases v.len(),
{
    if v.len() > 0 {
        let t = v.drop_last();
        assert forall|i: int| 0 <= i < t.len() implies -b <= #[trigger] t[i] <= b by {
            assert(t[i] == v[i]);
        }
        lemma_select_bounded(t, g, gv, b);
        let st = select(t, g, gv);
        let sv = select(v, g, gv);
        assert forall|i: int| 0 <= i < sv.len() implies -b <= #[trigger] sv[i] <= b by {
            if i < st.len() {
                assert(sv[i] == st[i]);
            } else {
                assert(sv[i] == v.last());
                assert(v.last() == v[v.len() - 1]);
            }
        }
    }
}

proof fn lemma_counts_bounded(p: Seq<i64>, g: Seq<u8>)
    ensures
        0 <= count_pg(p, g, 0, 0),
        0 <= count_pg(p, g, 1, 0),
        0 <= count_pg(p, g, 0, 1),
        0 <= count_pg(p, g, 1, 1),
        count_pg(p, g, 0, 0) + count_pg(p, g, 1, 0) + count_pg(p, g, 0, 1) + count_pg(p, g, 1, 1)
            <= p.len(),
    decreases p.len(),
{
    if p.len() > 0 {
        lemma_counts_bounded(p.drop_last(), g);
    }
}

/// One branch term in integer arithmetic, with the bounds that keep the sum
/// of two terms within `SCORE_STEP` of the parent score.
fn gini_term_exec(s: i64, c0: u64, c1: u64, n: u64) -> (r: i128)
    requires
        c0 + c1 >= 1,
        c0 + c1 <= n <= MAX_ROWS,
        -MAX_SCORE <= s <= MAX_SCORE,
    ensures
        r == gini_term(s as int, c0 as int, c1 as int, n as int),
        r * n <= (c0 + c1) * magnitude(s as int),
        r * n + n > -(c0 + c1) * (magnitude(s as int) + SCORE_ONE),
{
    let nb: i128 = (c0 + c1) as i128;
    let a0 = c0 as i128;
    let a1 = c1 as i128;
    let nn = n as i128;
    assert(nb * nb <= 0x1_0000_0000_0000) by (nonlinear_arith)
        requires 1 <= nb <= 16_777_216;
    assert(nb * nn <= 0x1_0000_0000_0000) by (nonlinear_arith)
        requires 1 <= nb <= nn <= 16_777_216;
    assert(nb * nn >= 1) by (nonlinear_arith)
        requires 1 <= nb <= nn;
    let sq = nb * nb;
    assert(-0x1_0000_0000_0000 * MAX_SCORE <= sq * (s as i128) <= 0x1_0000_0000_0000 * MAX_SCORE)
        by (nonlinear_arith)
        requires 0 <= sq <= 0x1_0000_0000_0000, -MAX_SCORE <= s <= MAX_SCORE;
    assert(0 <= a0 * a0 + a1 * a1 <= sq) by (nonlinear_arith)
        requires 0 <= a0, 0 <= a1, nb == a0 + a1, sq == nb * nb;
    let q = a0 * a0 + a1 * a1;
    let x = sq * (s as i128) - (SCORE_ONE as i128) * q;
    let d = nb * nn;
    let r = floor_div(x, d);
    proof {
        let xi = x as int;
        let di = d as int;
        let ri = r as int;
        vstd::arithmetic::div_mod::lemma_fundamental_div_mod(xi, di);
        assert(ri * di <= xi < ri * di + di) by (nonlinear_arith)
            requires xi == di * ri + xi % di, 0 <= xi % di < di;
        let k = magnitude(s as int);
        {
            assert(xi <= sq * k) by (nonlinear_arith)
                requires xi == sq * s - SCORE_ONE * q, q >= 0, s <= k, sq >= 0;
            assert(ri * nn <= nb * k) by (nonlinear_arith)
                requires ri * di <= xi, xi <= sq * k, sq == nb * nb, di == nb * nn, nb >= 1;
        }
        {
            assert(xi >= -sq * (k + SCORE_ONE)) by (nonlinear_arith)
                requires xi == sq * s - SCORE_ONE * q, q <= sq, -k <= s, sq >= 0;
            assert(ri * nn + nn > -nb * (k + SCORE_ONE)) by (nonlinear_arith)
                requires xi < ri * di + di, xi >= -sq * (k + SCORE_ONE), sq == nb * nb,
                    di == nb * nn, nb >= 1;
        }
    }
    r
}

/// Gini split score of binary phenotypes `p` by genotypes `g` under the
/// parent score `parent_score` (see `gini_of`).
pub fn calc_gini(p: &Vec<i64>, g: &Vec<u8>, parent_score: i64) -> (r: i64)
    requires
        p@.len() == g@.len() <= MAX_ROWS,
        -(MAX_SCORE - SCORE_STEP) <= parent_score <= MAX_SCORE - SCORE_STEP,
    ensures
        r == gini_of(p@, g@, parent_score as int),
        -(magnitude(parent_score as int) + SCORE_STEP) <= r <= magnitude(parent_score as int) + SCORE_STEP,
        ({
            let n0 = count_pg(p@, g@, 0, 0) + count_pg(p@, g@, 1, 0);
            let n1 = count_pg(p@, g@, 0, 1) + count_pg(p@, g@, 1, 1);
            let n = p@.len() as int;
            n0 > 0 && n1 > 0 ==> 2 * n * r <= (n0 + n1) * (2 * parent_score - SCORE_ONE)
                && n * r + 2 * n > (n0 + n1) * (parent_score - SCORE_ONE)
        }),
{
    proof {
        lemma_gini_range(p@, g@, parent_score as int);
    }
    let mut c00: u64 = 0;
    let mut c10: u64 = 0;
    let mut c01: u64 = 0;
    let mut c11: u64 = 0;
    let mut i: usize = 0;
    while i < p.len()
        invariant
            i <= p@.len() == g@.len() <= MAX_ROWS,
            c00 == count_pg(p@.take(i as int), g@, 0, 0),
            c10 == count_pg(p@.take(i as int), g@, 1, 0),
            c01 == count_pg(p@.take(i as int), g@, 0, 1),
            c11 == count_pg(p@.take(i as int), g@, 1, 1),
        decreases p@.len() - i,
    {
        proof {
            lemma_counts_bounded(p@.take(i as int), g@);
        }
        assert(p@.take(i as int + 1).drop_last() == p@.take(i as int));
        let pv = p[i];
        let gv = g[i];
        if pv == 0 && gv == 0 {
            c00 = c00 + 1;
        } else if pv == 1 && gv == 0 {
            c10 = c10 + 1;
        } else if pv == 0 && gv == 1 {
            c01 = c01 + 1;
        } else if pv == 1 && gv == 1 {
            c11 = c11 + 1;
        }
        i = i + 1;
    }
    assert(p@.take(i as int) == p@);
    proof {
        lemma_counts_bounded(p@, g@);
    }
    if c00 + c10 == 0 || c01 + c11 == 0 {
        return SCORE_ONE;
    }
    let n = p.len() as u64;
    let t0 = gini_term_exec(parent_score, c00, c10, n);
    let t1 = gini_term_exec(parent_score, c01, c11, n);
    proof {
        let k = magnitude(parent_score as int);
        {
            let n0 = (c00 + c10) as int;
            let n1 = (c01 + c11) as int;
            let ni = n as int;
            assert(k >= 0);
            assert((t0 + t1) * ni <= ni * k) by (nonlinear_arith)
                requires t0 * ni <= n0 * k, t1 * ni <= n1 * k, n0 + n1 <= ni, k >= 0;
            assert((t0 + t1) * ni + 2 * ni > -ni * (k + SCORE_ONE)) by (nonlinear_arith)
                requires t0 * ni + ni > -n0 * (k + SCORE_ONE), t1 * ni + ni > -n1 * (k + SCORE_ONE),
                    n0 + n1 <= ni, n0 >= 0, n1 >= 0, k >= 0;
            assert(t0 + t1 <= k) by (nonlinear_arith)
                requires (t0 + t1) * ni <= ni * k, ni >= 1;
            assert(t0 + t1 > -(k + SCORE_ONE) - 2) by (nonlinear_arith)
                requires (t0 + t1) * ni + 2 * ni > -ni * (k + SCORE_ONE), ni >= 1;
        }
        assert(-(MAX_SCORE as int) <= t0 + t1 <= MAX_SCORE);
    }
    (t0 + t1) as i64
}

/// Standard-deviation reduction of phenotypes `p` split by genotypes `g`
/// (see `sdr_of`).
pub fn calc_sdr(p: &Vec<i64>, g: &Vec<u8>) -> (r: i64)
    requires
        p@.len() == g@.len() <= MAX_ROWS,
        forall|i: int| 0 <= i < p@.len() ==> -MAX_PHENOTYPE <= #[trigger] p@[i] <= MAX_PHENOTYPE,
    ensures
        r == sdr_of(p@, g@),
        0 <= r <= 2 * MAX_PHENOTYPE,
{
    let top = std_deviation(p);
    let mut g0vec: Vec<i64> = Vec::new();
    let mut g1vec: Vec<i64> = Vec::new();
    let mut i: usize = 0;
    while i < p.len()
        invariant
            i <= p@.len() == g@.len() <= MAX_ROWS,
            g0vec@ == select(p@.take(i as int), g@, 0),
            g1vec@ == select(p@.take(i as int), g@, 1),
        decreases p@.len() - i,
    {
        assert(p@.take(i as int + 1).drop_last() == p@.take(i as int));
        proof {
            lemma_select_len(p@.take(i as int), g@, 0, 1);
        }
        if g[i] == 0 {
            g0vec.push(p[i]);
        } else if g[i] == 1 {
            g1vec.push(p[i]);
        }
        i = i + 1;
    }
    assert(p@.take(i as int) == p@);
    proof {
        lemma_select_len(p@, g@, 0, 1);
        lemma_select_bounded(p@, g@, 0, MAX_PHENOTYPE as int);
        lemma_select_bounded(p@, g@, 1, MAX_PHENOTYPE as int);
        lemma_variance_bounded(p@, MAX_PHENOTYPE as int);
        lemma_variance_bounded(g0vec@, MAX_PHENOTYPE as int);
        lemma_variance_bounded(g1vec@, MAX_PHENOTYPE as int);
    }
    let sd0 = std_deviation(&g0vec);
    let sd1 = std_deviation(&g1vec);
    proof {
        let b = 2 * MAX_PHENOTYPE;
        assert(top <= b) by (nonlinear_arith)
            requires top * top <= b * b, top >= 0, b >= 0;
        assert(sd0 <= b) by (nonlinear_arith)
            requires sd0 * sd0 <= b * b, sd0 >= 0, b >= 0;
        assert(sd1 <= b) by (nonlinear_arith)
            requires sd1 * sd1 <= b * b, sd1 >= 0, b >= 0;
    }
    if p.len() == 0 {
        return if 0 > top { 0 } else { top };
    }
    let n0 = g0vec.len() as i128;
    let n1 = g1vec.len() as i128;
    assert(0 <= n0 * (sd0 as i128) <= 0x1_0000_0000_0000_0000) by (nonlinear_arith)
        requires 0 <= n0 <= 16_777_216, 0 <= sd0 <= 2 * MAX_PHENOTYPE;
    assert(0 <= n1 * (sd1 as i128) <= 0x1_0000_0000_0000_0000) by (nonlinear_arith)
        requires 0 <= n1 <= 16_777_216, 0 <= sd1 <= 2 * MAX_PHENOTYPE;
    let w = (n0 * (sd0 as i128) + n1 * (sd1 as i128)) / (p.len() as i128);
    if w > top as i128 {
        0
    } else {
        (top as i128 - w) as i64
    }
}

/// Each column restricted to the rows where `g` holds `gv`.
pub open spec fn select_columns(gs: Seq<Seq<u8>>, g: Seq<u8>, gv: u8) -> Seq<Seq<u8>> {
    gs.map_values(|c: Seq<u8>| select(c, g, gv))
}

/// A variant's candidate score and penalty flag, or `None` when it is no
/// candidate: the real score when it beats the shuffled baseline, else the
/// baseline's score marked as a penalty.
pub open spec fn candidate(p: Seq<i64>, ps: Seq<i64>, g: Seq<u8>, parent: int, cont: bool) -> Option<(int, bool)> {
    if cont {
        let a = sdr_of(p, g);
        let b = sdr_of(ps, g);
        if a <= 0 { None } else if a > b { Some((a, false)) } else { Some((b, true)) }
    } else {
        let a = gini_of(p, g, parent);
        let b = gini_of(ps, g, parent);
        if a < b { Some((a, false)) } else { Some((b, true)) }
    }
}

/// The candidates among the columns, in column order: (column, score, penalty).
pub open spec fn candidates(p: Seq<i64>, ps: Seq<i64>, gs: Seq<Seq<u8>>, parent: int, cont: bool) -> Seq<(int, int, bool)>
    decreases gs.len(),
{
    if gs.len() == 0 {
        seq![]
    } else {
        let c = candidates(p, ps, gs.drop_last(), parent, cont);
        match candidate(p, ps, gs.last(), parent, cont) {
            Some(t) => c.push((gs.len() - 1, t.0, t.1)),
            None => c,
        }
    }
}

/// The scores of the candidates.
pub open spec fn candidate_scores(c: Seq<(int, int, bool)>) -> Seq<int> {
    c.map_values(|t: (int, int, bool)| t.1)
}

/// Position of the winning candidate: the first lowest score for a binary
/// outcome, the first highest for a continuous one.
pub open spec fn winner(c: Seq<(int, int, bool)>, cont: bool) -> int {
    if cont { first_max(candidate_scores(c)) } else { first_min(candidate_scores(c)) }
}

/// The tree grown from rows with phenotypes `p`, shuffled phenotypes `ps`
/// and genotype columns `gs` for the variants `ids`, at depth `depth` of a
/// tree of `n` subjects, under parent score `parent`.
pub open spec fn grow_spec(
    p: Seq<i64>,
    ps: Seq<i64>,
    gs: Seq<Seq<u8>>,
    ids: Seq<usize>,
    max_depth: int,
    depth: int,
    n: int,
    parent: int,
    cont: bool,
) -> Node
    decreases max_depth - depth + 1,
{
    let c = candidates(p, ps, gs, parent, cont);
    if c.len() == 0 {
        empty_spec()
    } else {
        let w = c[winner(c, cont)];
        let g = gs[w.0];
        let lp = select(p, g, 0);
        let rp = select(p, g, 1);
        if lp.len() == 0 || rp.len() == 0 {
            empty_spec()
        } else if depth > max_depth {
            Node {
                score: w.1 as i64,
                is_empty: false,
                n: n as usize,
                neg: w.2,
                var: ids[w.0],
                node_n: p.len() as usize,
                left: None,
                right: None,
            }
        } else {
            Node {
                score: w.1 as i64,
                is_empty: false,
                n: n as usize,
                neg: w.2,
                var: ids[w.0],
                node_n: p.len() as usize,
                left: Some(Box::new(grow_spec(lp, select(ps, g, 0), select_columns(gs, g, 0), ids,
                    max_depth, depth + 1, n, w.1, cont))),
                right: Some(Box::new(grow_spec(rp, select(ps, g, 1), select_columns(gs, g, 1), ids,
                    max_depth, depth + 1, n, w.1, cont))),
            }
        }
    }
}

/// A branch of `c0 + c1 > 0` rows out of `n` scores within the range its
/// parent score `s` allows: weighted by `(c0 + c1) / n`, its term lies
/// between `s - 1` and `s - 1/2` (in units of `SCORE_ONE`, the lower bound
/// less the rounding). A branch of one class only scores exactly
/// `(c0 + c1) / n * (s - 1)`, which is 0 under the root's parent score 1.
pub proof fn lemma_gini_term_range(s: int, c0: int, c1: int, n: int)
    requires
        c0 >= 0,
        c1 >= 0,
        c0 + c1 >= 1,
        c0 + c1 <= n,
    ensures
        2 * n * gini_term(s, c0, c1, n) <= (c0 + c1) * (2 * s - SCORE_ONE),
        n * gini_term(s, c0, c1, n) + n > (c0 + c1) * (s - SCORE_ONE),
        (c0 == 0 || c1 == 0) ==> gini_term(s, c0, c1, n) == ((c0 + c1) * (s - SCORE_ONE)) / n,
        (c0 == 0 || c1 == 0) && s == SCORE_ONE ==> gini_term(s, c0, c1, n) == 0,
{
    let nb = c0 + c1;
    let q = c0 * c0 + c1 * c1;
    let x = nb * nb * s - SCORE_ONE * q;
    let d = nb * n;
    let t = gini_term(s, c0, c1, n);
    assert(d >= 1) by (nonlinear_arith) requires nb >= 1, n >= nb, d == nb * n;
    assert(t == x / d);
    vstd::arithmetic::div_mod::lemma_fundamental_div_mod(x, d);
    assert(t * d <= x < t * d + d) by (nonlinear_arith)
        requires x == d * t + x % d, 0 <= x % d < d;
    assert(2 * q >= nb * nb && q <= nb * nb) by (nonlinear_arith)
        requires q == c0 * c0 + c1 * c1, nb == c0 + c1, c0 >= 0, c1 >= 0;
    assert(2 * n * t <= nb * (2 * s - SCORE_ONE)) by (nonlinear_arith)
        requires t * d <= x, x == nb * nb * s - SCORE_ONE * q, 2 * q >= nb * nb, d == nb * n, nb >= 1;
    assert(n * t + n > nb * (s - SCORE_ONE)) by (nonlinear_arith)
        requires x < t * d + d, x == nb * nb * s - SCORE_ONE * q, q <= nb * nb, d == nb * n, nb >= 1;
    if c0 == 0 || c1 == 0 {
        let a = nb * (s - SCORE_ONE);
        assert(q == nb * nb) by (nonlinear_arith)
            requires q == c0 * c0 + c1 * c1, nb == c0 + c1, c0 == 0 || c1 == 0;
        assert(x == nb * a) by (nonlinear_arith)
            requires x == nb * nb * s - SCORE_ONE * q, q == nb * nb, a == nb * (s - SCORE_ONE);
        let u = a / n;
        vstd::arithmetic::div_mod::lemma_fundamental_div_mod(a, n);
        let r = a % n;
        assert(x == u * d + nb * r && 0 <= nb * r < d) by (nonlinear_arith)
            requires a == n * u + r, 0 <= r < n, x == nb * a, d == nb * n, nb >= 1;
        vstd::arithmetic::div_mod::lemma_fundamental_div_mod_converse(x, d, u, nb * r);
        if s == SCORE_ONE {
            assert(a == 0) by (nonlinear_arith) requires a == nb * (s - SCORE_ONE), s == SCORE_ONE;
        }
    }
}

/// A split whose two branches both hold rows scores within the range its
/// parent score `s` allows: between `w * (s - 1)` (less the rounding) and
/// `w * (s - 1/2)`, where `w` is the share of rows in the two branches (in
/// units of `SCORE_ONE`).
pub proof fn lemma_gini_range(p: Seq<i64>, g: Seq<u8>, s: int)
    ensures
        ({
            let n0 = count_pg(p, g, 0, 0) + count_pg(p, g, 1, 0);
            let n1 = count_pg(p, g, 0, 1) + count_pg(p, g, 1, 1);
            let n = p.len() as int;
            n0 > 0 && n1 > 0 ==> 2 * n * gini_of(p, g, s) <= (n0 + n1) * (2 * s - SCORE_ONE)
                && n * gini_of(p, g, s) + 2 * n > (n0 + n1) * (s - SCORE_ONE)
        }),
{
    let c00 = count_pg(p, g, 0, 0);
    let c10 = count_pg(p, g, 1, 0);
    let c01 = count_pg(p, g, 0, 1);
    let c11 = count_pg(p, g, 1, 1);
    let n = p.len() as int;
    lemma_counts_bounded(p, g);
    if c00 + c10 > 0 && c01 + c11 > 0 {
        lemma_gini_term_range(s, c00, c10, n);
        lemma_gini_term_range(s, c01, c11, n);
        let t0 = gini_term(s, c00, c10, n);
        let t1 = gini_term(s, c01, c11, n);
        assert(2 * n * (t0 + t1) == 2 * n * t0 + 2 * n * t1) by (nonlinear_arith);
        assert(n * (t0 + t1) == n * t0 + n * t1) by (nonlinear_arith);
        assert((c00 + c10 + c01 + c11) * (2 * s - SCORE_ONE)
            == (c00 + c10) * (2 * s - SCORE_ONE) + (c01 + c11) * (2 * s - SCORE_ONE)) by (nonlinear_arith);
        assert((c00 + c10 + c01 + c11) * (s - SCORE_ONE)
            == (c00 + c10) * (s - SCORE_ONE) + (c01 + c11) * (s - SCORE_ONE)) by (nonlinear_arith);
    }
}

/// Every non-empty node of the tree splits on a variant that `ids` contains.
pub open spec fn vars_within(node: Node, ids: Seq<usize>) -> bool
    decreases node,
{
    if node.is_empty {
        true
    } else {
        &&& ids.contains(node.var)
        &&& node.left is Some ==> vars_within(*node.left->Some_0, ids)
        &&& node.right is Some ==> vars_within(*node.right->Some_0, ids)
    }
}

proof fn lemma_candidate_columns(p: Seq<i64>, ps: Seq<i64>, gs: Seq<Seq<u8>>, parent: int, cont: bool)
    ensures
        forall|i: int| 0 <= i < candidates(p, ps, gs, parent, cont).len() ==>
            0 <= (#[trigger] candidates(p, ps, gs, parent, cont)[i]).0 < gs.len(),
    decreases gs.len(),
{
    if gs.len() > 0 {
        lemma_candidate_columns(p, ps, gs.drop_last(), parent, cont);
        let c0 = candidates(p, ps, gs.drop_last(), parent, cont);
        let c = candidates(p, ps, gs, parent, cont);
        assert forall|i: int| 0 <= i < c.len() implies 0 <= (#[trigger] c[i]).0 < gs.len() by {
            if i < c0.len() {
                assert(c[i] == c0[i]);
            }
        }
    }
}

/// A grown tree splits only on the variants it was given.
pub proof fn lemma_grow_vars(
    p: Seq<i64>,
    ps: Seq<i64>,
    gs: Seq<Seq<u8>>,
    ids: Seq<usize>,
    max_depth: int,
    depth: int,
    n: int,
    parent: int,
    cont: bool,
)
    requires
        gs.len() == ids.len(),
    ensures
        vars_within(grow_spec(p, ps, gs, ids, max_depth, depth, n, parent, cont), ids),
    decreases max_depth - depth + 1,
{
    let c = candidates(p, ps, gs, parent, cont);
    if c.len() > 0 {
        lemma_candidate_columns(p, ps, gs, parent, cont);
        if cont {
            crate::utils::lemma_first_max(candidate_scores(c));
        } else {
            crate::utils::lemma_first_min(candidate_scores(c));
        }
        let w = c[winner(c, cont)];
        assert(ids.contains(ids[w.0]));
        let g = gs[w.0];
        if depth <= max_depth {
            lemma_grow_vars(select(p, g, 0), select(ps, g, 0), select_columns(gs, g, 0), ids,
                max_depth, depth + 1, n, w.1, cont);
            lemma_grow_vars(select(p, g, 1), select(ps, g, 1), select_columns(gs, g, 1), ids,
                max_depth, depth + 1, n, w.1, cont);
        }
    }
}

/// A tree that splits only on variants of `a` splits only on variants of
/// any `b` that holds all of `a`.
pub proof fn lemma_vars_within_widen(node: Node, a: Seq<usize>, b: Seq<usize>)
    requires
        vars_within(node, a),
        forall|x: usize| a.contains(x) ==> b.contains(x),
    ensures
        vars_within(node, b),
    decreases node,
{
    if !node.is_empty {
        if node.left is Some {
            lemma_vars_within_widen(*node.left->Some_0, a, b);
        }
        if node.right is Some {
            lemma_vars_within_widen(*node.right->Some_0, a, b);
        }
    }
}

/// A slice without subjects or without variants grows the empty node.
pub proof fn lemma_empty_slice_grows_empty(
    p: Seq<i64>,
    ps: Seq<i64>,
    gs: Seq<Seq<u8>>,
    ids: Seq<usize>,
    max_depth: int,
    n: int,
    cont: bool,
)
    requires
        p.len() == 0 || gs.len() == 0,
        columns_fit(gs, p.len() as int),
    ensures
        grow_spec(p, ps, gs, ids, max_depth, 0, n, SCORE_ONE as int, cont) == empty_spec(),
{
    let c = candidates(p, ps, gs, SCORE_ONE as int, cont);
    if c.len() > 0 && p.len() == 0 {
        let w = c[winner(c, cont)];
        assert(select(p, gs[w.0], 0).len() == 0);
    }
}

/// Rows accounted to a child: its subject count, or 1 for an empty child
/// (which was grown from at least one row).
pub open spec fn child_rows(c: Node) -> int {
    if c.is_empty { 1 } else { c.node_n as int }
}

/// A tree of `n` subjects as the builder leaves it: bounded scores and
/// variant indices, and children that split their parent's rows.
pub open spec fn node_ok(node: Node, n: int) -> bool
    decreases node,
{
    if node.is_empty {
        node.left is None && node.right is None
    } else {
        &&& node.n == n
        &&& 2 <= node.node_n <= n <= MAX_ROWS
        &&& -MAX_SCORE <= node.score <= MAX_SCORE
        &&& node.var < MAX_VARIANTS
        &&& ((node.left is None && node.right is None) || (node.left is Some && node.right is Some
            && node_ok(*node.left->Some_0, n) && node_ok(*node.right->Some_0, n)
            && child_rows(*node.left->Some_0) + child_rows(*node.right->Some_0) <= node.node_n))
    }
}

/// Largest magnitude of one node's importance contribution.
pub const MAX_CONTRIBUTION: i64 = 211_106_232_532_992;

/// What a child takes back from its parent's importance: its subject count
/// times its score, or nothing for an empty or missing child.
pub open spec fn child_part(c: Option<Box<Node>>) -> int {
    match c {
        Some(b) => if b.is_empty { 0 } else { (b.node_n as int) * (b.score as int) },
        None => 0,
    }
}

/// Importance contribution of a non-empty node: its share of subjects times
/// its score, less the same for its non-empty children, over the tree's
/// subject count (rounded down); negated for a penalty node.
pub open spec fn contribution(node: Node) -> int {
    let raw = (node.node_n as int) * (node.score as int) - child_part(node.left) - child_part(node.right);
    let c = raw / (node.n as int);
    if node.neg { -c } else { c }
}

/// One (variant, contribution) entry per non-empty node, the node before its
/// left subtree before its right subtree.
pub open spec fn occurrences(node: Node) -> Seq<(usize, i64)>
    decreases node,
{
    if node.is_empty {
        seq![]
    } else {
        let l = match node.left { Some(b) => occurrences(*b), None => seq![] };
        let r = match node.right { Some(b) => occurrences(*b), None => seq![] };
        seq![(node.var, contribution(node) as i64)] + l + r
    }
}

/// Every occurrence names a variant below `MAX_VARIANTS` with a contribution
/// of magnitude at most `MAX_CONTRIBUTION`.
pub open spec fn occurrences_bounded(s: Seq<(usize, i64)>) -> bool {
    forall|i: int| 0 <= i < s.len() ==> (#[trigger] s[i]).0 < MAX_VARIANTS
        && -MAX_CONTRIBUTION <= s[i].1 <= MAX_CONTRIBUTION
}

/// Facts about a well-formed child that its parent's code needs.
pub proof fn lemma_child_ok(c: Node, n: int)
    requires
        node_ok(c, n),
    ensures
        !c.is_empty ==> 0 <= c.node_n <= n && -MAX_SCORE <= c.score <= MAX_SCORE && c.n == n,
        node_ok(c, c.n as int),
{
}

proof fn lemma_contribution_bounded(node: Node, n: int)
    requires
        node_ok(node, n),
        !node.is_empty,
    ensures
        -MAX_CONTRIBUTION <= contribution(node) <= MAX_CONTRIBUTION,
{
    let m = MAX_SCORE as int;
    let a = (node.node_n as int) * (node.score as int);
    assert(-m * n <= a <= m * n) by (nonlinear_arith)
        requires 0 <= node.node_n <= n, -m <= node.score <= m, a == (node.node_n as int) * (node.score as int);
    let l = child_part(node.left);
    let r = child_part(node.right);
    if node.left is Some {
        let b = *node.left->Some_0;
        lemma_child_ok(b, n);
        lemma_child_ok(*node.right->Some_0, n);
        if !b.is_empty {
            assert(-m * n <= l <= m * n) by (nonlinear_arith)
                requires 0 <= b.node_n <= n, -m <= b.score <= m, l == (b.node_n as int) * (b.score as int);
        }
    }
    if node.right is Some {
        let b = *node.right->Some_0;
        if !b.is_empty {
            assert(-m * n <= r <= m * n) by (nonlinear_arith)
                requires 0 <= b.node_n <= n, -m <= b.score <= m, r == (b.node_n as int) * (b.score as int);
        }
    }
    assert(-m * n <= 0 <= m * n) by (nonlinear_arith) requires n >= 0, m >= 0;
    let raw = a - l - r;
    assert((-3 * m) * n <= raw <= (3 * m) * n) by (nonlinear_arith)
        requires -m * n <= a <= m * n, -m * n <= l <= m * n, -m * n <= r <= m * n, raw == a - l - r;
    crate::statistics::lemma_div_between(raw, n, -3 * m, 3 * m);
}

pub proof fn lemma_occurrences_bounded(node: Node, n: int)
    requires
        node_ok(node, n),
    ensures
        occurrences_bounded(occurrences(node)),
        node.is_empty ==> occurrences(node).len() == 0,
        !node.is_empty ==> occurrences(node).len() < node.node_n,
    decreases node,
{
    if !node.is_empty {
        lemma_contribution_bounded(node, n);
        let l = match node.left { Some(b) => occurrences(*b), None => seq![] };
        let r = match node.right { Some(b) => occurrences(*b), None => seq![] };
        if node.left is Some {
            lemma_occurrences_bounded(*node.left->Some_0, n);
            lemma_occurrences_bounded(*node.right->Some_0, n);
        }
        let o = occurrences(node);
        assert(o == seq![(node.var, contribution(node) as i64)] + l + r);
        assert forall|i: int| 0 <= i < o.len() implies (#[trigger] o[i]).0 < MAX_VARIANTS
            && -MAX_CONTRIBUTION <= o[i].1 <= MAX_CONTRIBUTION by {
            if i == 0 {
            } else if i < 1 + l.len() {
                assert(o[i] == l[i - 1]);
            } else {
                assert(o[i] == r[i - 1 - l.len()]);
            }
        }
    }
}

pub proof fn lemma_select_same_len<A, B>(v: Seq<A>, w: Seq<B>, g: Seq<u8>, gv: u8)
    requires
        v.len() == w.len(),
    ensures
        select(v, g, gv).len() == select(w, g, gv).len(),
    decreases v.len(),
{
    if v.len() > 0 {
        lemma_select_same_len(v.drop_last(), w.drop_last(), g, gv);
    }
}

fn select_vec<T: Copy>(v: &Vec<T>, g: &Vec<u8>, gv: u8) -> (r: Vec<T>)
    requires
        v@.len() == g@.len(),
    ensures
        r@ == select(v@, g@, gv),
{
    let mut r: Vec<T> = Vec::new();
    let mut i: usize = 0;
    while i < v.len()
        invariant
            i <= v@.len() == g@.len(),
            r@ == select(v@.take(i as int), g@, gv),
        decreases v@.len() - i,
    {
        assert(v@.take(i as int + 1).drop_last() == v@.take(i as int));
        if g[i] == gv {
            r.push(v[i]);
        }
        i = i + 1;
    }
    assert(v@.take(i as int) == v@);
    r
}

impl Node {
    /// The empty node: a tree that found no usable split.
    pub fn empty_node() -> (r: Self)
        ensures
            r == empty_spec(),
    {
        Node { score: 0, is_empty: true, n: 0, neg: true, var: 0, node_n: 0, left: None, right: None }
    }

    /// The importance contributions of the tree's non-empty nodes, one entry
    /// per node (a variant may occur more than once).
    pub fn get_importance(&self) -> (r: Vec<(usize, i64)>)
        requires
            node_ok(*self, self.n as int),
        ensures
            r@ == occurrences(*self),
    {
        let mut out: Vec<(usize, i64)> = Vec::new();
        self.collect_importance(&mut out);
        assert(out@ == seq![] + occurrences(*self));
        out
    }

    fn collect_importance(&self, out: &mut Vec<(usize, i64)>)
        requires
            node_ok(*self, self.n as int),
        ensures
            final(out)@ == old(out)@ + occurrences(*self),
        decreases self,
    {
        if self.is_empty {
            assert(old(out)@ + occurrences(*self) == old(out)@);
            return;
        }
        proof {
            lemma_contribution_bounded(*self, self.n as int);
        }
        proof {
            if self.left is Some {
                lemma_child_ok(*self.left->Some_0, self.n as int);
                lemma_child_ok(*self.right->Some_0, self.n as int);
            }
        }
        let n = self.n as i128;
        assert(-0x1_0000_0000_0000_0000_0000 <= (self.node_n as i128) * (self.score as i128)
            <= 0x1_0000_0000_0000_0000_0000) by (nonlinear_arith)
            requires 0 <= self.node_n <= MAX_ROWS, -MAX_SCORE <= self.score <= MAX_SCORE;
        let mut raw: i128 = (self.node_n as i128) * (self.score as i128);
        match &self.left {
            Some(b) => {
                if !b.is_empty {
                    assert(-0x1_0000_0000_0000_0000_0000 <= (b.node_n as i128) * (b.score as i128)
                        <= 0x1_0000_0000_0000_0000_0000) by (nonlinear_arith)
                        requires 0 <= b.node_n <= MAX_ROWS, -MAX_SCORE <= b.score <= MAX_SCORE;
                    raw = raw - (b.node_n as i128) * (b.score as i128);
                }
            },
            None => {},
        }
        match &self.right {
            Some(b) => {
                if !b.is_empty {
                    assert(-0x1_0000_0000_0000_0000_0000 <= (b.node_n as i128) * (b.score as i128)
                        <= 0x1_0000_0000_0000_0000_0000) by (nonlinear_arith)
                        requires 0 <= b.node_n <= MAX_ROWS, -MAX_SCORE <= b.score <= MAX_SCORE;
                    raw = raw - (b.node_n as i128) * (b.score as i128);
                }
            },
            None => {},
        }
        let c = floor_div(raw, n);
        let imp: i64 = if self.neg { -(c as i64) } else { c as i64 };
        out.push((self.var, imp));
        let ghost mid = out@;
        match &self.left {
            Some(b) => { b.collect_importance(out); },
            None => {},
        }
        let ghost mid2 = out@;
        match &self.right {
            Some(b) => { b.collect_importance(out); },
            None => {},
        }
        proof {
            let l = match &self.left { Some(b) => occurrences(**b), None => seq![] };
            let r = match &self.right { Some(b) => occurrences(**b), None => seq![] };
            assert(mid2 == mid + l);
            assert(out@ == mid + l + r);
            assert(occurrences(*self) == seq![(self.var, contribution(*self) as i64)] + l + r);
            assert(out@ =~= old(out)@ + occurrences(*self));
        }
    }

    /// Grows a tree from the rows of a sampled slice: the root sees all of
    /// them, with parent score `SCORE_ONE`. A slice without subjects or
    /// without variants gives the empty node.
    pub fn grow(node_data: NodeData, max_depth: i32, ms: GenoMatrixSlice, continuous_outcome: bool) -> (r: Self)
        requires
            node_data.wf(),
            node_data.genos@.len() == ms.genotype_ids@.len(),
            forall|k: int| 0 <= k < ms.genotype_ids@.len() ==> #[trigger] ms.genotype_ids@[k] < MAX_VARIANTS,
        ensures
            r == grow_spec(node_data.phenos@, node_data.phenos_shuffle@, node_data.columns(),
                ms.genotype_ids@, max_depth as int, 0, node_data.phenos@.len() as int,
                SCORE_ONE as int, continuous_outcome),
            node_ok(r, node_data.phenos@.len() as int),
            node_data.phenos@.len() == 0 || node_data.genos@.len() == 0 ==> r == empty_spec(),
    {
        proof {
            if node_data.phenos@.len() == 0 || node_data.genos@.len() == 0 {
                lemma_empty_slice_grows_empty(node_data.phenos@, node_data.phenos_shuffle@, node_data.columns(),
                    ms.genotype_ids@, max_depth as int, node_data.phenos@.len() as int, continuous_outcome);
            }
        }
        let node_n = node_data.phenos.len();
        Node::new_node(&node_data, &ms, max_depth, 0, node_n, SCORE_ONE, continuous_outcome)
    }

    /// Builds the node for the rows of `node_data` at depth `depth`, and below
    /// it the rest of the tree.
    fn new_node(
        node_data: &NodeData,
        ms: &GenoMatrixSlice,
        max_depth: i32,
        depth: i64,
        n: usize,
        parent_score: i64,
        continuous_outcome: bool,
    ) -> (r: Node)
        requires
            node_data.wf(),
            node_data.genos@.len() == ms.genotype_ids@.len(),
            forall|k: int| 0 <= k < ms.genotype_ids@.len() ==> #[trigger] ms.genotype_ids@[k] < MAX_VARIANTS,
            node_data.phenos@.len() <= n <= MAX_ROWS,
            0 <= depth <= 0x8000_0000,
            -(MAX_SCORE - SCORE_STEP) <= parent_score <= MAX_SCORE - SCORE_STEP,
            !continuous_outcome ==> magnitude(parent_score as int)
                <= (n - node_data.phenos@.len() + 1) * SCORE_STEP,
        ensures
            r == grow_spec(node_data.phenos@, node_data.phenos_shuffle@, node_data.columns(),
                ms.genotype_ids@, max_depth as int, depth as int, n as int, parent_score as int,
                continuous_outcome),
            node_ok(r, n as int),
            !r.is_empty ==> r.node_n == node_data.phenos@.len(),
        decreases max_depth - depth + 1,
    {
        let ghost p = node_data.phenos@;
        let ghost ps = node_data.phenos_shuffle@;
        let ghost gs = node_data.columns();
        let ghost rows = p.len() as int;
        proof {
            if !continuous_outcome {
                assert((n - rows + 1) * SCORE_STEP <= (MAX_ROWS + 1) * SCORE_STEP) by (nonlinear_arith)
                    requires n - rows + 1 <= MAX_ROWS + 1;
            }
        }
        let mut cand_col: Vec<usize> = Vec::new();
        let mut cand_score: Vec<i64> = Vec::new();
        let mut cand_pen: Vec<bool> = Vec::new();
        let mut k: usize = 0;
        while k < node_data.genos.len()
            invariant
                node_data.wf(),
                k <= node_data.genos@.len(),
                gs == node_data.columns(),
                p == node_data.phenos@,
                ps == node_data.phenos_shuffle@,
                -(MAX_SCORE - SCORE_STEP) <= parent_score <= MAX_SCORE - SCORE_STEP,
                cand_col@.len() == cand_score@.len() == cand_pen@.len()
                    == candidates(p, ps, gs.take(k as int), parent_score as int, continuous_outcome).len(),
                forall|j: int| 0 <= j < cand_col@.len() ==>
                    candidates(p, ps, gs.take(k as int), parent_score as int, continuous_outcome)[j]
                    == (#[trigger] cand_col@[j] as int, cand_score@[j] as int, cand_pen@[j]),
                forall|j: int| 0 <= j < cand_col@.len() ==> #[trigger] cand_col@[j] < k,
                forall|j: int| 0 <= j < cand_score@.len() ==> (continuous_outcome ==> 0 <= #[trigger] cand_score@[j] <= 2 * MAX_PHENOTYPE),
                forall|j: int| 0 <= j < cand_score@.len() ==> (!continuous_outcome ==>
                    -(magnitude(parent_score as int) + SCORE_STEP) <= #[trigger] cand_score@[j]
                    <= magnitude(parent_score as int) + SCORE_STEP),
            decreases node_data.genos@.len() - k,
        {
            assert(gs.take(k as int + 1).drop_last() == gs.take(k as int));
            assert(gs.take(k as int + 1).last() == gs[k as int]);
            match score_variant(node_data, k, parent_score, continuous_outcome) {
                Some(t) => {
                    cand_col.push(k);
                    cand_score.push(t.0);
                    cand_pen.push(t.1);
                },
                None => {},
            }
            k = k + 1;
        }
        assert(gs.take(k as int) == gs);
        let ghost c = candidates(p, ps, gs, parent_score as int, continuous_outcome);
        if cand_score.len() == 0 {
            return Node::empty_node();
        }
        assert forall|j: int| 0 <= j < cand_score@.len() implies
            #[trigger] as_ints(cand_score@)[j] == candidate_scores(c)[j] by {
            assert(c[j] == (cand_col@[j] as int, cand_score@[j] as int, cand_pen@[j]));
        }
        assert(as_ints(cand_score@) =~= candidate_scores(c));
        let best = if continuous_outcome { first_max_index(&cand_score) } else { first_min_index(&cand_score) };
        assert(best == winner(c, continuous_outcome));
        let col = cand_col[best];
        let score = cand_score[best];
        let neg = cand_pen[best];
        assert(c[best as int] == (col as int, score as int, neg));
        let g = &node_data.genos[col];
        assert(gs[col as int] == g@);
        let (ld, rd) = node_data.split(g);
        if ld.phenos.len() == 0 || rd.phenos.len() == 0 {
            return Node::empty_node();
        }
        proof {
            lemma_select_len(p, g@, 0, 1);
        }
        let var = ms.genotype_ids[col];
        if depth > max_depth as i64 {
            return Node {
                score,
                is_empty: false,
                n,
                neg,
                var,
                node_n: node_data.phenos.len(),
                left: None,
                right: None,
            };
        }
        proof {
            let lr = ld.phenos@.len() as int;
            let rr = rd.phenos@.len() as int;
            assert(lr + rr <= rows && lr >= 1 && rr >= 1);
            assert(ld.genos@.len() == ld.columns().len());
            assert(rd.genos@.len() == rd.columns().len());
            let sc = cand_score@[best as int];
            assert(sc == score);
            if !continuous_outcome {
                assert(magnitude(score as int) <= (n - rows + 2) * SCORE_STEP);
                assert(magnitude(score as int) <= (n - lr + 1) * SCORE_STEP);
                assert(magnitude(score as int) <= (n - rr + 1) * SCORE_STEP);
            } else {
                assert(0 <= score <= 2 * MAX_PHENOTYPE);
            }
        }
        let left = Node::new_node(&ld, ms, max_depth, depth + 1, n, score, continuous_outcome);
        let right = Node::new_node(&rd, ms, max_depth, depth + 1, n, score, continuous_outcome);
        Node {
            score,
            is_empty: false,
            n,
            neg,
            var,
            node_n: node_data.phenos.len(),
            left: Some(Box::new(left)),
            right: Some(Box::new(right)),
        }
    }
}

/// Candidate score of column `k`, against the real and the shuffled
/// phenotypes (see `candidate`).
fn score_variant(data: &NodeData, k: usize, parent_score: i64, continuous_outcome: bool) -> (r: Option<(i64, bool)>)
    requires
        data.wf(),
        k < data.genos@.len(),
        -(MAX_SCORE - SCORE_STEP) <= parent_score <= MAX_SCORE - SCORE_STEP,
    ensures
        r is None <==> candidate(data.phenos@, data.phenos_shuffle@, data.columns()[k as int],
            parent_score as int, continuous_outcome) is None,
        r matches Some(t) ==> candidate(data.phenos@, data.phenos_shuffle@, data.columns()[k as int],
            parent_score as int, continuous_outcome) == Some((t.0 as int, t.1)),
        r matches Some(t) ==> (continuous_outcome ==> 0 <= t.0 <= 2 * MAX_PHENOTYPE),
        r matches Some(t) ==> (!continuous_outcome ==> -(magnitude(parent_score as int) + SCORE_STEP)
            <= t.0 <= magnitude(parent_score as int) + SCORE_STEP),
{
    let g = &data.genos[k];
    assert(data.columns()[k as int] == g@);
    if continuous_outcome {
        let a = calc_sdr(&data.phenos, g);
        let b = calc_sdr(&data.phenos_shuffle, g);
        if a <= 0 {
            None
        } else if a > b {
            Some((a, false))
        } else {
            Some((b, true))
        }
    } else {
        let a = calc_gini(&data.phenos, g, parent_score);
        let b = calc_gini(&data.phenos_shuffle, g, parent_score);
        if a < b {
            Some((a, false))
        } else {
            Some((b, true))
        }
    }
}

impl NodeData {
    /// The rows with genotype `gv` in column `g`, every field restricted alike.
    fn restrict(&self, g: &Vec<u8>, gv: u8) -> (r: NodeData)
        requires
            self.wf(),
            g@.len() == self.phenos@.len(),
        ensures
            r.phenos@ == select(self.phenos@, g@, gv),
            r.phenos_shuffle@ == select(self.phenos_shuffle@, g@, gv),
            r.columns() == select_columns(self.columns(), g@, gv),
            r.wf(),
    {
        let phenos = select_vec(&self.phenos, g, gv);
        let phenos_shuffle = select_vec(&self.phenos_shuffle, g, gv);
        let mut genos: Vec<Vec<u8>> = Vec::new();
        let mut k: usize = 0;
        while k < self.genos.len()
            invariant
                self.wf(),
                g@.len() == self.phenos@.len(),
                k <= self.genos@.len(),
                genos@.len() == k,
                forall|j: int| 0 <= j < k ==> (#[trigger] genos@[j])@ == select(self.columns()[j], g@, gv),
            decreases self.genos@.len() - k,
        {
            assert(self.columns()[k as int] == self.genos@[k as int]@);
            let c = select_vec(&self.genos[k], g, gv);
            genos.push(c);
            k = k + 1;
        }
        let r = NodeData { phenos, phenos_shuffle, genos };
        proof {
            assert(r.columns() =~= select_columns(self.columns(), g@, gv));
            lemma_select_same_len(self.phenos@, self.phenos_shuffle@, g@, gv);
            lemma_select_bounded(self.phenos@, g@, gv, MAX_PHENOTYPE as int);
            lemma_select_bounded(self.phenos_shuffle@, g@, gv, MAX_PHENOTYPE as int);
            lemma_select_len(self.phenos@, g@, gv, if gv == 0 { 1u8 } else { 0u8 });
            assert forall|j: int| 0 <= j < r.columns().len() implies
                (#[trigger] r.columns()[j]).len() == r.phenos@.len() by {
                lemma_select_same_len(self.columns()[j], self.phenos@, g@, gv);
            }
        }
        r
    }

    /// The two children of a split on column `g`: genotype 0 and genotype 1.
    fn split(&self, g: &Vec<u8>) -> (r: (NodeData, NodeData))
        requires
            self.wf(),
            g@.len() == self.phenos@.len(),
        ensures
            r.0.phenos@ == select(self.phenos@, g@, 0),
            r.0.phenos_shuffle@ == select(self.phenos_shuffle@, g@, 0),
            r.0.columns() == select_columns(self.columns(), g@, 0),
            r.0.wf(),
            r.1.phenos@ == select(self.phenos@, g@, 1),
            r.1.phenos_shuffle@ == select(self.phenos_shuffle@, g@, 1),
            r.1.columns() == select_columns(self.columns(), g@, 1),
            r.1.wf(),
    {
        (self.restrict(g, 0), self.restrict(g, 1))
    }
}

} // verus!
