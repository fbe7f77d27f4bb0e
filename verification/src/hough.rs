//! Hough voting over a 4D grid of similarity transformations (x and y
//! translation, rotation, scale): the bin numbering, the vote map and the
//! choice of the winning bin, and the correspondences that vote.
//!
//! Bin coordinates arrive here as integers; mapping a transformation to its
//! bin happens before. Feature points carry their `f32` fields as bit
//! patterns.

use std::collections::BTreeMap;
use vstd::prelude::*;
use vstd::multiset::Multiset;
use vstd::std_specs::btree::increasing_seq;
use vstd::std_specs::iter::IteratorSpec;
use vstd::std_specs::cmp::OrdSpec;
use vstd::arithmetic::div_mod::{lemma_div_denominator, lemma_fundamental_div_mod_converse};
use crate::clustering::KpmError;

verus! {

/// A feature point: position, orientation and scale (each the bit pattern of
/// an `f32`) and whether it is a maximum (else a minimum) of the
/// difference-of-Gaussians response.
#[derive(Clone, Copy, Debug, PartialEq, Eq)]
pub struct FeaturePoint {
    pub x_bits: u32,
    pub y_bits: u32,
    pub angle_bits: u32,
    pub scale_bits: u32,
    pub maxima: bool,
}

impl Default for FeaturePoint {
    /// The origin, angle and scale `0.0`, a maximum.
    fn default() -> (r: Self)
        ensures
            r.x_bits == 0 && r.y_bits == 0 && r.angle_bits == 0 && r.scale_bits == 0 && r.maxima,
    {
        FeaturePoint { x_bits: 0, y_bits: 0, angle_bits: 0, scale_bits: 0, maxima: true }
    }
}

/// A query feature matched to a reference feature, by their positions in
/// the two feature lists.
#[derive(Clone, Copy, Debug, PartialEq, Eq)]
pub struct Match {
    /// Position in the query feature list.
    pub ins: usize,
    /// Position in the reference feature list.
    pub ref_: usize,
}

impl Default for Match {
    fn default() -> (r: Self)
        ensures
            r.ins == 0 && r.ref_ == 0,
    {
        Match { ins: 0, ref_: 0 }
    }
}

/// Fewest votes a bin needs to win.
pub const MIN_VOTES_THRESHOLD: i32 = 3;

/// Bin counts along the four axes of the vote grid.
pub struct GridModel {
    pub nx: int,
    pub ny: int,
    pub na: int,
    pub ns: int,
}

/// Bin counts along the four axes and the strides of the linear bin index.
pub struct BinGrid {
    num_x_bins: i32,
    num_y_bins: i32,
    num_angle_bins: i32,
    num_scale_bins: i32,
    a: i32,
    b: i32,
}

/// Every axis has a bin and every bin index fits in an `i32`.
pub open spec fn grid_ok(g: GridModel) -> bool {
    &&& g.nx > 0
    &&& g.ny > 0
    &&& g.na > 0
    &&& g.ns > 0
    &&& g.nx * g.ny * g.na * g.ns <= i32::MAX
}

/// Every axis has a bin.
pub open spec fn grid_pos(g: GridModel) -> bool {
    g.nx > 0 && g.ny > 0 && g.na > 0 && g.ns > 0
}

/// Index of cell `t` (of the sixteen) of the vote neighbourhood whose lower
/// corner is `(bx, by, ba, bs)`.
pub open spec fn cell_index(g: GridModel, bx: int, by: int, ba: int, bs: int, t: int) -> int {
    bin_index_of(g, bx + t / 8, by + (t / 4) % 2, (ba + (t / 2) % 2) % g.na, bs + t % 2)
}

/// Every cell of the vote neighbourhood whose lower corner is
/// `(bx, by, ba, bs)` has an index that fits in an `i32`.
pub open spec fn vote_cells_fit(g: GridModel, bx: int, by: int, ba: int, bs: int) -> bool {
    forall|t: int| 0 <= t < 16 ==> #[trigger] cell_index(g, bx, by, ba, bs, t) <= i32::MAX
}

/// `(bx, by, ba, bs)` names a bin of the grid.
pub open spec fn in_grid(g: GridModel, bx: int, by: int, ba: int, bs: int) -> bool {
    0 <= bx < g.nx && 0 <= by < g.ny && 0 <= ba < g.na && 0 <= bs < g.ns
}

/// Linear index of a bin: x varies fastest, then y, angle and scale.
pub open spec fn bin_index_of(g: GridModel, bx: int, by: int, ba: int, bs: int) -> int {
    bx + by * g.nx + ba * (g.nx * g.ny) + bs * (g.nx * g.ny * g.na)
}

/// The bin with linear index `idx`: its digits in the mixed radix
/// `(nx, ny, na)`.
pub open spec fn bins_of(g: GridModel, idx: int) -> (int, int, int, int) {
    (idx % g.nx, (idx / g.nx) % g.ny, (idx / (g.nx * g.ny)) % g.na, idx / (g.nx * g.ny * g.na))
}

impl View for BinGrid {
    type V = GridModel;

    closed spec fn view(&self) -> GridModel {
        GridModel {
            nx: self.num_x_bins as int,
            ny: self.num_y_bins as int,
            na: self.num_angle_bins as int,
            ns: self.num_scale_bins as int,
        }
    }
}

proof fn lemma_grid_products(nx: int, ny: int, na: int, ns: int)
    by (nonlinear_arith)
    requires
        nx > 0,
        ny > 0,
        na > 0,
        ns > 0,
        nx * ny * na * ns <= i32::MAX,
    ensures
        0 < nx * ny <= nx * ny * na <= nx * ny * na * ns,
{
}

proof fn lemma_grid_pos(nx: int, ny: int, na: int, ns: int)
    by (nonlinear_arith)
    requires
        nx > 0,
        ny > 0,
        na > 0,
        ns > 0,
    ensures
        0 < nx * ny <= nx * ny * na <= nx * ny * na * ns,
{
}

proof fn lemma_grid_prefix_products(nx: int, ny: int, na: int)
    by (nonlinear_arith)
    requires
        nx > 0,
        ny > 0,
        na > 0,
        nx * ny * na <= i32::MAX,
    ensures
        0 < nx * ny <= nx * ny * na,
{
}

/// Numbering bins and reading the number back are inverse: every bin gets
/// an index in `0..nx*ny*na*ns` and is recovered from it.
pub proof fn lemma_bin_index_roundtrip(g: GridModel, bx: int, by: int, ba: int, bs: int)
    requires
        grid_pos(g),
        in_grid(g, bx, by, ba, bs),
    ensures
        0 <= bin_index_of(g, bx, by, ba, bs) < g.nx * g.ny * g.na * g.ns,
        bins_of(g, bin_index_of(g, bx, by, ba, bs)) == (bx, by, ba, bs),
{
    let (nx, ny, na, ns) = (g.nx, g.ny, g.na, g.ns);
    lemma_grid_pos(nx, ny, na, ns);
    let idx = bin_index_of(g, bx, by, ba, bs);
    let q1 = by + ny * (ba + na * bs);
    let q2 = ba + na * bs;
    assert(idx == q1 * nx + bx && q1 == q2 * ny + by && 0 <= q2 && 0 <= q1) by (nonlinear_arith)
        requires
            idx == bx + by * nx + ba * (nx * ny) + bs * (nx * ny * na),
            q1 == by + ny * (ba + na * bs),
            q2 == ba + na * bs,
            0 <= ba,
            0 <= bs,
            0 <= by,
            na > 0,
            ny > 0,
    ;
    assert(0 <= idx < nx * ny * na * ns) by (nonlinear_arith)
        requires
            idx == q1 * nx + bx,
            q1 == q2 * ny + by,
            q2 == ba + na * bs,
            0 <= bx < nx,
            0 <= by < ny,
            0 <= ba < na,
            0 <= bs < ns,
    {
        assert(q2 <= na * ns - 1) by (nonlinear_arith)
            requires q2 == ba + na * bs, ba < na, bs < ns, 0 <= ba, 0 <= bs;
        assert(q1 <= ny * na * ns - 1) by (nonlinear_arith)
            requires q1 == q2 * ny + by, by < ny, 0 <= by, q2 <= na * ns - 1, ny > 0;
        assert(idx <= nx * ny * na * ns - 1) by (nonlinear_arith)
            requires idx == q1 * nx + bx, bx < nx, 0 <= bx, q1 <= ny * na * ns - 1, nx > 0;
    }
    lemma_fundamental_div_mod_converse(idx, nx, q1, bx);
    lemma_fundamental_div_mod_converse(q1, ny, q2, by);
    lemma_fundamental_div_mod_converse(q2, na, bs, ba);
    lemma_div_denominator(idx, nx, ny);
    lemma_div_denominator(idx, nx * ny, na);
}

/// Every index in `0..nx*ny*na*ns` names a bin, and numbering that bin
/// gives the index back.
pub proof fn lemma_bins_of_index(g: GridModel, idx: int)
    requires
        grid_pos(g),
        0 <= idx < g.nx * g.ny * g.na * g.ns,
    ensures
        in_grid(g, bins_of(g, idx).0, bins_of(g, idx).1, bins_of(g, idx).2, bins_of(g, idx).3),
        bin_index_of(g, bins_of(g, idx).0, bins_of(g, idx).1, bins_of(g, idx).2, bins_of(g, idx).3) == idx,
{
    let (nx, ny, na, ns) = (g.nx, g.ny, g.na, g.ns);
    lemma_grid_pos(nx, ny, na, ns);
    let (bx, by, ba, bs) = bins_of(g, idx);
    let q1 = idx / nx;
    let q2 = q1 / ny;
    lemma_div_denominator(idx, nx, ny);
    lemma_div_denominator(idx, nx * ny, na);
    assert(q2 == idx / (nx * ny));
    assert(bs == q2 / na);
    assert(idx == nx * q1 + bx && 0 <= bx < nx) by (nonlinear_arith)
        requires q1 == idx / nx, bx == idx % nx, nx > 0;
    assert(q1 == ny * q2 + by && 0 <= by < ny) by (nonlinear_arith)
        requires q2 == q1 / ny, by == q1 % ny, ny > 0;
    assert(q2 == na * bs + ba && 0 <= ba < na) by (nonlinear_arith)
        requires bs == q2 / na, ba == q2 % na, na > 0;
    assert(0 <= bs < ns) by (nonlinear_arith)
        requires
            bs == idx / (nx * ny * na),
            0 <= idx < nx * ny * na * ns,
            nx * ny * na > 0,
    ;
    let m = nx * ny;
    assert(nx * q1 == m * q2 + by * nx) by (nonlinear_arith)
        requires q1 == ny * q2 + by, m == nx * ny;
    assert(m * q2 == ba * m + bs * (m * na)) by (nonlinear_arith)
        requires q2 == na * bs + ba;
}

impl BinGrid {
    /// The strides match the counts and every bin index fits in an `i32`.
    pub closed spec fn wf(&self) -> bool {
        &&& grid_ok(self@)
        &&& self.a == self.num_x_bins * self.num_y_bins
        &&& self.b == self.a * self.num_angle_bins
    }

    /// Every axis has a bin, the bins below the scale axis are numbered
    /// within `i32`, and the strides match the counts.
    pub closed spec fn strides_ok(&self) -> bool {
        &&& grid_pos(self@)
        &&& self@.nx * self@.ny * self@.na <= i32::MAX
        &&& self.a == self.num_x_bins * self.num_y_bins
        &&& self.b == self.a * self.num_angle_bins
    }

    /// A grid with the given bin counts; each must be positive. The grid is
    /// well formed (every bin numbered within `i32`) when the product of
    /// all four counts fits in an `i32`.
    pub fn new(num_x_bins: i32, num_y_bins: i32, num_angle_bins: i32, num_scale_bins: i32) -> (r: Result<Self, KpmError>)
        requires
            num_x_bins > 0 && num_y_bins > 0 && num_angle_bins > 0 && num_scale_bins > 0 ==> num_x_bins * num_y_bins
                * num_angle_bins <= i32::MAX,
        ensures
            num_x_bins <= 0 ==> r matches Err(KpmError::InvalidInput(_)),
            num_x_bins > 0 && num_y_bins <= 0 ==> r matches Err(KpmError::InvalidInput(_)),
            num_x_bins > 0 && num_y_bins > 0 && num_angle_bins <= 0 ==> r matches Err(KpmError::InvalidInput(_)),
            num_x_bins > 0 && num_y_bins > 0 && num_angle_bins > 0 && num_scale_bins <= 0 ==> r matches Err(
                KpmError::InvalidInput(_),
            ),
            num_x_bins > 0 && num_y_bins > 0 && num_angle_bins > 0 && num_scale_bins > 0 ==> (r matches Ok(g)
                && g.strides_ok() && (g.wf() <==> num_x_bins * num_y_bins * num_angle_bins * num_scale_bins <= i32::MAX)
                && g@ == (GridModel {
                nx: num_x_bins as int,
                ny: num_y_bins as int,
                na: num_angle_bins as int,
                ns: num_scale_bins as int,
            })),
    {
        if num_x_bins <= 0 {
            return Err(KpmError::InvalidInput("num_x_bins must be > 0".to_owned()));
        }
        if num_y_bins <= 0 {
            return Err(KpmError::InvalidInput("num_y_bins must be > 0".to_owned()));
        }
        if num_angle_bins <= 0 {
            return Err(KpmError::InvalidInput("num_angle_bins must be > 0".to_owned()));
        }
        if num_scale_bins <= 0 {
            return Err(KpmError::InvalidInput("num_scale_bins must be > 0".to_owned()));
        }
        proof {
            lemma_grid_prefix_products(num_x_bins as int, num_y_bins as int, num_angle_bins as int);
        }
        let a = num_x_bins * num_y_bins;
        let b = a * num_angle_bins;
        Ok(BinGrid { num_x_bins, num_y_bins, num_angle_bins, num_scale_bins, a, b })
    }

    /// Number of x bins.
    pub fn num_x_bins(&self) -> (r: i32)
        ensures
            r == self@.nx,
    {
        self.num_x_bins
    }

    /// Number of y bins.
    pub fn num_y_bins(&self) -> (r: i32)
        ensures
            r == self@.ny,
    {
        self.num_y_bins
    }

    /// Number of angle bins.
    pub fn num_angle_bins(&self) -> (r: i32)
        ensures
            r == self@.na,
    {
        self.num_angle_bins
    }

    /// Number of scale bins.
    pub fn num_scale_bins(&self) -> (r: i32)
        ensures
            r == self@.ns,
    {
        self.num_scale_bins
    }

    /// Replaces the x and y bin counts, keeping the strides in step.
    pub fn set_xy_bins(&mut self, num_x_bins: i32, num_y_bins: i32)
        requires
            old(self).strides_ok(),
            grid_ok(GridModel { nx: num_x_bins as int, ny: num_y_bins as int, ..old(self)@ }),
        ensures
            final(self).wf(),
            final(self).strides_ok(),
            final(self)@ == (GridModel { nx: num_x_bins as int, ny: num_y_bins as int, ..old(self)@ }),
    {
        proof {
            lemma_grid_products(num_x_bins as int, num_y_bins as int, self.num_angle_bins as int, self.num_scale_bins as int);
        }
        self.num_x_bins = num_x_bins;
        self.num_y_bins = num_y_bins;
        self.a = num_x_bins * num_y_bins;
        self.b = self.a * self.num_angle_bins;
    }

    /// Linear index of bin `(bx, by, ba, bs)`.
    pub fn bin_index(&self, bx: i32, by: i32, ba: i32, bs: i32) -> (r: i32)
        requires
            self.strides_ok(),
            in_grid(self@, bx as int, by as int, ba as int, bs as int),
            bin_index_of(self@, bx as int, by as int, ba as int, bs as int) <= i32::MAX,
        ensures
            r == bin_index_of(self@, bx as int, by as int, ba as int, bs as int),
            0 <= r < self@.nx * self@.ny * self@.na * self@.ns,
    {
        proof {
            let (nx, ny, na, ns) = (self@.nx, self@.ny, self@.na, self@.ns);
            lemma_grid_pos(nx, ny, na, ns);
            lemma_bin_index_roundtrip(self@, bx as int, by as int, ba as int, bs as int);
            let (a, b) = (self.a as int, self.b as int);
            assert(0 <= by * nx && 0 <= ba * a && 0 <= bs * b) by (nonlinear_arith)
                requires 0 <= by, 0 <= ba, 0 <= bs, nx > 0, a > 0, b > 0;
        }
        bx + (by * self.num_x_bins) + (ba * self.a) + (bs * self.b)
    }

    /// The bin whose linear index is `index`.
    pub fn bins_from_index(&self, index: i32) -> (r: (i32, i32, i32, i32))
        requires
            self.strides_ok(),
            0 <= index < self@.nx * self@.ny * self@.na * self@.ns,
        ensures
            (r.0 as int, r.1 as int, r.2 as int, r.3 as int) == bins_of(self@, index as int),
            in_grid(self@, r.0 as int, r.1 as int, r.2 as int, r.3 as int),
            bin_index_of(self@, r.0 as int, r.1 as int, r.2 as int, r.3 as int) == index,
    {
        proof {
            lemma_grid_pos(self@.nx, self@.ny, self@.na, self@.ns);
            lemma_bins_of_index(self@, index as int);
        }
        let bx = index % self.num_x_bins;
        let by = (index / self.num_x_bins) % self.num_y_bins;
        let ba = (index / self.a) % self.num_angle_bins;
        let bs = index / self.b;
        (bx, by, ba, bs)
    }
}

/// `i32` keys are totally ordered as the map's specification needs.
proof fn lemma_i32_keys_ordered()
    ensures
        vstd::laws_cmp::obeys_cmp::<i32>(),
{
    broadcast use vstd::laws_cmp::group_laws_cmp;
}

/// Votes held for bin `k` (zero when it has none).
pub open spec fn count_of(m: Map<i32, i32>, k: i32) -> int {
    if m.contains_key(k) {
        m[k] as int
    } else {
        0
    }
}

/// `m` after one more vote for each bin listed in `cells`, in order.
pub open spec fn add_votes(m: Map<i32, i32>, cells: Seq<i32>) -> Map<i32, i32>
    decreases cells.len(),
{
    if cells.len() == 0 {
        m
    } else {
        let m2 = add_votes(m, cells.drop_last());
        m2.insert(cells.last(), (count_of(m2, cells.last()) + 1) as i32)
    }
}

/// The 16 bins of the 2x2x2x2 neighbourhood whose lowest corner is
/// `(bx, by, ba, bs)`, the angle wrapping around; x varies slowest.
pub open spec fn vote_cells(g: GridModel, bx: int, by: int, ba: int, bs: int) -> Seq<i32> {
    Seq::new(
        16,
        |t: int| bin_index_of(g, bx + t / 8, by + (t / 4) % 2, (ba + (t / 2) % 2) % g.na, bs + t % 2) as i32,
    )
}

/// Bin `k` holds the most votes, `c`, and no bin after it holds as many.
pub open spec fn is_max_vote(m: Map<i32, i32>, k: i32, c: i32) -> bool {
    &&& m.contains_key(k)
    &&& m[k] == c
    &&& forall|k2: i32| #[trigger] m.contains_key(k2) ==> m[k2] <= c
    &&& forall|k2: i32| #[trigger] m.contains_key(k2) && m[k2] == c ==> k2 <= k
}

/// Casting the votes of `cells` on `m` keeps every count within `i32`:
/// each bin's count plus the number of times it occurs in `cells`.
pub open spec fn votes_fit(m: Map<i32, i32>, cells: Seq<i32>) -> bool {
    forall|k: i32| #[trigger] cells.contains(k) ==> count_of(m, k) + cells.to_multiset().count(k) <= i32::MAX
}

proof fn lemma_add_votes_exact(m: Map<i32, i32>, cells: Seq<i32>, k: i32)
    requires
        forall|k2: i32| #[trigger] m.contains_key(k2) ==> 0 <= m[k2],
        votes_fit(m, cells),
    ensures
        count_of(add_votes(m, cells), k) == count_of(m, k) + cells.to_multiset().count(k),
        m.contains_key(k) ==> add_votes(m, cells).contains_key(k),
        forall|k2: i32| #[trigger] add_votes(m, cells).contains_key(k2) ==> 0 <= add_votes(m, cells)[k2],
    decreases cells.len(),
{
    broadcast use vstd::seq_lib::group_to_multiset_ensures;
    broadcast use vstd::multiset::group_multiset_axioms;

    if cells.len() == 0 {
        assert(cells.to_multiset().len() == 0);
        assert(cells.to_multiset() =~= Multiset::empty()) by {
            broadcast use vstd::multiset::lemma_multiset_empty_len;
        }
    } else {
        let d = cells.drop_last();
        let x = cells.last();
        assert(cells =~= d.push(x));
        assert(cells.to_multiset() =~= d.to_multiset().insert(x));
        assert forall|k2: i32| #[trigger] d.contains(k2) implies count_of(m, k2) + d.to_multiset().count(k2)
            <= i32::MAX by {
            let j = choose|j: int| 0 <= j < d.len() && d[j] == k2;
            assert(cells[j] == k2);
            assert(cells.contains(k2));
        }
        lemma_add_votes_exact(m, d, k);
        lemma_add_votes_exact(m, d, x);
        assert(cells[cells.len() - 1] == x);
        assert(cells.contains(x));
    }
}

/// A prefix of fitting votes fits.
proof fn lemma_prefix_fits(m: Map<i32, i32>, cells: Seq<i32>, t: nat)
    requires
        votes_fit(m, cells),
        t <= cells.len(),
    ensures
        votes_fit(m, cells.take(t as int)),
{
    broadcast use vstd::seq_lib::lemma_multiset_commutative;
    broadcast use vstd::multiset::group_multiset_axioms;

    let p = cells.take(t as int);
    assert(cells =~= p + cells.skip(t as int));
    assert forall|k: i32| #[trigger] p.contains(k) implies count_of(m, k) + p.to_multiset().count(k) <= i32::MAX by {
        let j = choose|j: int| 0 <= j < p.len() && p[j] == k;
        assert(cells[j] == k);
        assert(cells.contains(k));
        assert(cells.to_multiset() =~= p.to_multiset().add(cells.skip(t as int).to_multiset()));
    }
}

/// The grid and the votes cast on it.
pub struct VotesModel {
    pub grid: GridModel,
    pub votes: Map<i32, i32>,
}

/// Votes per bin of a [`BinGrid`], keyed by linear bin index; bins without a
/// vote are absent.
pub struct HoughVotes {
    grid: BinGrid,
    votes: BTreeMap<i32, i32>,
}

impl View for HoughVotes {
    type V = VotesModel;

    closed spec fn view(&self) -> VotesModel {
        VotesModel { grid: self.grid@, votes: self.votes@ }
    }
}

impl HoughVotes {
    /// The grid is well formed and no bin holds a negative count.
    pub closed spec fn wf(&self) -> bool {
        &&& self.grid.strides_ok()
        &&& forall|k: i32| #[trigger] self.votes@.contains_key(k) ==> 0 <= self.votes@[k]
    }

    /// No vote yet on `grid`.
    pub fn new(grid: BinGrid) -> (r: Self)
        requires
            grid.strides_ok(),
        ensures
            r.wf(),
            r@ == (VotesModel { grid: grid@, votes: Map::empty() }),
    {
        HoughVotes { grid, votes: BTreeMap::new() }
    }

    /// The grid votes are cast on.
    pub fn grid(&self) -> (r: &BinGrid)
        ensures
            r@ == self@.grid,
            self.wf() ==> r.strides_ok(),
    {
        &self.grid
    }

    /// Replaces the x and y bin counts; the votes are kept.
    pub fn set_xy_bins(&mut self, num_x_bins: i32, num_y_bins: i32)
        requires
            old(self).wf(),
            grid_ok(GridModel { nx: num_x_bins as int, ny: num_y_bins as int, ..old(self)@.grid }),
        ensures
            final(self).wf(),
            final(self)@ == (VotesModel {
                grid: GridModel { nx: num_x_bins as int, ny: num_y_bins as int, ..old(self)@.grid },
                votes: old(self)@.votes,
            }),
    {
        self.grid.set_xy_bins(num_x_bins, num_y_bins);
    }

    /// Drops every vote.
    pub fn reset(&mut self)
        requires
            old(self).wf(),
        ensures
            final(self).wf(),
            final(self)@ == (VotesModel { grid: old(self)@.grid, votes: Map::empty() }),
    {
        self.votes.clear();
    }

    /// Casts the votes of one transformation whose lower bin corner is
    /// `(bx, by, ba, bs)`: when the whole 2x2x2x2 neighbourhood lies in the
    /// grid (the angle wrapping around), each of its 16 bins gets one vote
    /// and `true` is returned; otherwise nothing changes and `false` is
    /// returned.
    pub fn vote_bins(&mut self, bx: i32, by: i32, ba: i32, bs: i32) -> (r: bool)
        requires
            old(self).wf(),
            -old(self)@.grid.na <= ba,
            ba + old(self)@.grid.na <= i32::MAX,
            bx < i32::MAX,
            by < i32::MAX,
            bs < i32::MAX,
            (0 <= bx && bx + 1 < old(self)@.grid.nx && 0 <= by && by + 1 < old(self)@.grid.ny && 0 <= bs && bs + 1
                < old(self)@.grid.ns) ==> vote_cells_fit(
                old(self)@.grid,
                bx as int,
                by as int,
                (ba + old(self)@.grid.na) % old(self)@.grid.na,
                bs as int,
            ) && votes_fit(
                old(self)@.votes,
                vote_cells(old(self)@.grid, bx as int, by as int, (ba + old(self)@.grid.na) % old(self)@.grid.na, bs as int),
            ),
        ensures
            final(self).wf(),
            final(self)@.grid == old(self)@.grid,
            r == (0 <= bx && bx + 1 < old(self)@.grid.nx && 0 <= by && by + 1 < old(self)@.grid.ny && 0 <= bs
                && bs + 1 < old(self)@.grid.ns),
            r ==> final(self)@.votes == add_votes(
                old(self)@.votes,
                vote_cells(old(self)@.grid, bx as int, by as int, (ba + old(self)@.grid.na) % old(self)@.grid.na, bs as int),
            ),
            !r ==> final(self)@.votes == old(self)@.votes,
    {
        broadcast use vstd::std_specs::btree::group_btree_axioms;
        proof {
            lemma_i32_keys_ordered();
        }
        let nx = self.grid.num_x_bins();
        let ny = self.grid.num_y_bins();
        let na = self.grid.num_angle_bins();
        let ns = self.grid.num_scale_bins();
        let ba = (ba + na) % na;
        if bx < 0 || bx + 1 >= nx || by < 0 || by + 1 >= ny || bs < 0 || bs + 1 >= ns {
            return false;
        }
        let ghost g = self@.grid;
        let ghost old_votes = self.votes@;
        let ghost cells = vote_cells(g, bx as int, by as int, ba as int, bs as int);
        assert(old_votes == old(self)@.votes);
        assert(old(self).wf());
        assert forall|k: i32| #[trigger] old_votes.contains_key(k) implies 0 <= old_votes[k] by {
            assert(old(self).votes@.contains_key(k));
            assert(old(self)@.votes.contains_key(k));
        }
        let mut t: i32 = 0;
        while t < 16
            invariant
                0 <= t <= 16,
                self.grid.strides_ok(),
                self@.grid == g,
                vote_cells_fit(g, bx as int, by as int, ba as int, bs as int),
                g.nx == nx && g.ny == ny && g.na == na && g.ns == ns,
                0 <= bx && bx + 1 < nx && 0 <= by && by + 1 < ny && 0 <= bs && bs + 1 < ns,
                0 <= ba < na,
                cells == vote_cells(g, bx as int, by as int, ba as int, bs as int),
                forall|k: i32| #[trigger] old_votes.contains_key(k) ==> 0 <= old_votes[k],
                votes_fit(old_votes, cells),
                self.votes@ == add_votes(old_votes, cells.take(t as int)),
            decreases 16 - t,
        {
            let dsx = t / 8;
            let dsy = (t / 4) % 2;
            let dsa = (t / 2) % 2;
            let dss = t % 2;
            proof {
                assert(cell_index(g, bx as int, by as int, ba as int, bs as int, t as int) <= i32::MAX);
            }
            let idx = self.grid.bin_index(bx + dsx, by + dsy, (ba + dsa) % na, bs + dss);
            proof {
                lemma_i32_keys_ordered();
                assert(cells[t as int] == idx);
                assert(cells.take(t as int + 1).drop_last() =~= cells.take(t as int));
                lemma_prefix_fits(old_votes, cells, t as nat);
                lemma_add_votes_exact(old_votes, cells.take(t as int), idx);
                lemma_prefix_fits(old_votes, cells, (t + 1) as nat);
                lemma_add_votes_exact(old_votes, cells.take(t as int + 1), idx);
                assert(cells.take(t as int + 1) =~= cells.take(t as int).push(idx));
                assert(cells.take(t as int + 1).to_multiset() =~= cells.take(t as int).to_multiset().insert(idx)) by {
                    broadcast use vstd::seq_lib::to_multiset_build;
                }
                assert(cells.take(t as int + 1)[t as int] == idx);
                assert(cells.take(t as int + 1).contains(idx));
            }
            let c = match self.votes.get(&idx) {
                Some(v) => *v,
                None => 0,
            };
            assert(c == count_of(self.votes@, idx));
            self.votes.insert(idx, c + 1);
            t = t + 1;
        }
        proof {
            assert(cells.take(16) =~= cells);
            lemma_add_votes_exact(old_votes, cells, 0);
        }
        true
    }

    /// The bin with the most votes and its count; among bins with equally
    /// many votes the one with the largest index. `None` when no vote was
    /// cast.
    pub fn get_maximum_votes(&self) -> (r: Option<(i32, i32)>)
        ensures
            r is None <==> self@.votes.dom().len() == 0,
            r matches Some((k, c)) ==> is_max_vote(self@.votes, k, c),
    {
        broadcast use vstd::std_specs::btree::group_btree_axioms, vstd::laws_cmp::group_laws_cmp;
        let m = &self.votes;
        let mut best: Option<(i32, i32)> = None;
        let iter = m.iter();
        let ghost s = iter.remaining();
        proof {
            let ks = s.map_values(|kv: (&i32, &i32)| *kv.0);
            assert(increasing_seq(ks));
            assert forall|i: int, j: int| 0 <= i < j < s.len() implies *#[trigger] s[i].0 < *#[trigger] s[j].0 by {
                assert(ks[i] == *s[i].0);
                assert(ks[j] == *s[j].0);
                assert(ks[i].cmp_spec(&ks[j]) is Less);
            }
        }
        for kv in it: iter
            invariant
                it.seq() == s,
                s.len() == m@.dom().len(),
                forall|j: int| 0 <= j < s.len() ==> m@.contains_key(*#[trigger] s[j].0) && m@[*s[j].0] == *s[j].1,
                forall|k2: i32| #[trigger] m@.contains_key(k2) ==> s.contains((&k2, &m@[k2])),
                forall|i: int, j: int| 0 <= i < j < s.len() ==> *#[trigger] s[i].0 < *#[trigger] s[j].0,
                best is None <==> it.index() == 0,
                best matches Some((k, c)) ==> m@.contains_key(k) && m@[k] == c,
                best matches Some((k, c)) ==> forall|j: int| 0 <= j < it.index() ==> *#[trigger] s[j].1 <= c,
                best matches Some((k, c)) ==> forall|j: int|
                    0 <= j < it.index() && *#[trigger] s[j].1 == c ==> *s[j].0 <= k,
        {
            let (k, v) = kv;
            match best {
                None => {
                    best = Some((*k, *v));
                },
                Some((_, c)) => {
                    if *v >= c {
                        best = Some((*k, *v));
                    }
                },
            }
        }
        proof {
            if let Some((k, c)) = best {
                assert forall|k2: i32| #[trigger] m@.contains_key(k2) implies m@[k2] <= c && (m@[k2] == c ==> k2
                    <= k) by {
                    assert(s.contains((&k2, &m@[k2])));
                    let j = choose|j: int| 0 <= j < s.len() && s[j] == (&k2, &m@[k2]);
                    assert(*s[j].0 == k2);
                }
            }
        }
        best
    }

    /// The index of the winning bin: the bin with the most votes, provided
    /// it has at least [`MIN_VOTES_THRESHOLD`] of them.
    pub fn winning_bin(&self) -> (r: Result<i32, KpmError>)
        ensures
            r matches Ok(k) ==> is_max_vote(self@.votes, k, self@.votes[k]) && self@.votes[k] >= MIN_VOTES_THRESHOLD,
            r matches Err(e) ==> e is InvalidInput,
            r is Err ==> forall|k: i32, c: i32| #[trigger] is_max_vote(self@.votes, k, c) ==> c < MIN_VOTES_THRESHOLD,
    {
        match self.get_maximum_votes() {
            Some((idx, c)) => {
                if c >= MIN_VOTES_THRESHOLD {
                    assert(is_max_vote(self@.votes, idx, c));
                    Ok(idx)
                } else {
                    proof {
                        assert forall|k: i32, c2: i32| #[trigger] is_max_vote(self@.votes, k, c2) implies c2
                            < MIN_VOTES_THRESHOLD by {
                            assert(self@.votes[idx] <= c2 && self@.votes[k] <= c);
                        }
                    }
                    Err(KpmError::InvalidInput("insufficient votes for feature matching".to_owned()))
                }
            },
            None => {
                proof {
                    assert forall|k: i32, c2: i32| #[trigger] is_max_vote(self@.votes, k, c2) implies c2
                        < MIN_VOTES_THRESHOLD by {
                        assert(self@.votes.dom().contains(k));
                        vstd::set::axiom_set_contains_len(self@.votes.dom(), k);
                    }
                }
                Err(KpmError::InvalidInput("insufficient votes for feature matching".to_owned()))
            },
        }
    }
}

} // verus!
