//! Rasterizer state and coverage

use vstd::prelude::*;

verus! {

/// Winding / Filling Rule
///
/// See (Non-Zero Filling Rule)[https://en.wikipedia.org/wiki/Nonzero-rule] and
/// (Even-Odd Filling)[https://en.wikipedia.org/wiki/Even%E2%80%93odd_rule]
#[derive(Debug, PartialEq, Eq, Structural, Copy, Clone)]
pub enum FillingRule {
    NonZero,
    EvenOdd,
}

impl Default for FillingRule {
    fn default() -> (r: FillingRule)
        ensures
            r == FillingRule::NonZero,
    {
        FillingRule::NonZero
    }
}

/// Path Status
#[derive(Debug, PartialEq, Eq, Structural, Copy, Clone)]
pub enum PathStatus {
    Initial,
    Closed,
    MoveTo,
    LineTo,
}

impl Default for PathStatus {
    fn default() -> (s: PathStatus)
        ensures
            s == PathStatus::Initial,
    {
        PathStatus::Initial
    }
}

/// Rasterizer Anti-Alias using Scanline
#[derive(Debug)]
pub struct RasterizerScanline {
    /// Status of Path
    pub status: PathStatus,
    /// Current x position
    pub x0: i64,
    /// Current y position
    pub y0: i64,
    /// Current y row being worked on, for output
    pub scan_y: i64,
    /// Filling Rule for Polygons
    pub filling_rule: FillingRule,
    /// Gamma Corection Values
    pub gamma: Vec<u64>,
}

/// The entry of the gamma table that a cell area selects: the area in
/// coverage units (`area >> 9`), in magnitude, folded by the filling rule
/// and clamped to `0..=255`
pub open spec fn alpha_index(area: int, rule: FillingRule) -> int {
    let c = crate::fixed::iabs(area / 512);
    let c = if rule == FillingRule::EvenOdd {
        let m = c * 511;
        if m > 256 { 512 - m } else { m }
    } else {
        c
    };
    if c < 0 { 0 } else if c > 255 { 255 } else { c }
}

impl RasterizerScanline {
    /// Create a new RasterizerScanline, with the identity gamma table
    pub fn new() -> (s: Self)
        ensures
            s.status == PathStatus::Initial,
            s.x0 == 0 && s.y0 == 0 && s.scan_y == 0,
            s.filling_rule == FillingRule::NonZero,
            s.gamma@.len() == 256,
            forall|i: int| 0 <= i < 256 ==> #[trigger] s.gamma@[i] == i,
    {
        let mut gamma: Vec<u64> = Vec::new();
        let mut i: u64 = 0;
        while i < 256
            invariant
                i <= 256,
                gamma@.len() == i,
                forall|j: int| 0 <= j < i ==> #[trigger] gamma@[j] == j,
            decreases 256 - i,
        {
            gamma.push(i);
            i += 1;
        }
        Self { status: PathStatus::Initial, x0: 0, y0: 0, scan_y: 0,
               filling_rule: FillingRule::NonZero, gamma }
    }

    /// Calculate alpha term based on area
    pub fn calculate_alpha(&self, area: i64) -> (r: u64)
        requires
            self.gamma@.len() == 256,
            self.filling_rule == FillingRule::EvenOdd ==>
                crate::fixed::iabs((area as int) / 512) * 511 <= i64::MAX,
        ensures
            r == self.gamma@[alpha_index(area as int, self.filling_rule)],
    {
        let aa_shift: u32 = 8;
        let aa_scale: i64 = 1i64 << aa_shift;
        assert(aa_scale == 256) by (bit_vector) requires aa_shift == 8u32, aa_scale == 1i64 << aa_shift;
        let aa_scale2: i64 = aa_scale * 2;
        let aa_mask: i64 = aa_scale - 1;
        let aa_mask2: i64 = aa_scale2 - 1;

        proof { crate::fixed::lemma_shr9(area); }
        let mut cover: i64 = area >> 9i64;
        if cover < 0 {
            cover = -cover;
        }
        if self.filling_rule == FillingRule::EvenOdd {
            cover *= aa_mask2;
            if cover > aa_scale {
                cover = aa_scale2 - cover;
            }
        }
        cover = if cover < aa_mask { cover } else { aa_mask };
        cover = if 0 > cover { 0 } else { cover };
        self.gamma[cover as usize]
    }
}

} // verus!

verus! {

use crate::scan::{ScanlineU8, LAST_X};
use crate::fixed::{iabs, lemma_shl9};

/// A cell of the rasterizer: the cover and the area that the edges of a
/// path leave in pixel `x` of row `y`
#[derive(Debug, Copy, Clone)]
pub struct Cell {
    pub x: i64,
    pub y: i64,
    pub cover: i64,
    pub area: i64,
}

/// Largest magnitude of the position of a cell, and of the first position
/// of a scanline
pub const CELL_X_LIMIT: i64 = 0x2000_0000;

/// Largest number of cells in one row
pub const ROW_CELLS_LIMIT: usize = 0x10_0000;

/// A row of cells whose sums stay in range
pub open spec fn cells_ok(cells: Seq<Cell>) -> bool {
    &&& cells.len() <= ROW_CELLS_LIMIT
    &&& forall|i: int| 0 <= i < cells.len() ==> {
        &&& -CELL_X_LIMIT <= (#[trigger] cells[i]).x <= CELL_X_LIMIT
        &&& iabs(cells[i].cover as int) <= 0x10_0000
        &&& iabs(cells[i].area as int) <= 0x4000_0000
    }
}

/// A scanline as plain values: its spans, its coverage by position (relative
/// to its first position) and the relative position of its last pixel
pub open spec fn scan_state(sl: &ScanlineU8) -> (Seq<(int, int, Seq<u64>)>, Map<i64, u64>, int) {
    (sl.spans_view(), sl.covers@, sl.last_x as int)
}

/// A scanline with no spans
pub open spec fn scan_empty() -> (Seq<(int, int, Seq<u64>)>, Map<i64, u64>, int) {
    (Seq::empty(), Map::empty(), LAST_X as int)
}

/// The scanline after `len` pixels of coverage `c` are added from `x`: they
/// lengthen the last span where they continue it, else start a new span
pub open spec fn scan_add(st: (Seq<(int, int, Seq<u64>)>, Map<i64, u64>, int), min_x: int,
                          x: int, len: int, c: u64) -> (Seq<(int, int, Seq<u64>)>, Map<i64, u64>, int) {
    let rx = x - min_x;
    let n = st.0.len();
    let spans = if rx == st.2 + 1 {
        let last = st.0[n - 1];
        st.0.update(n - 1, (last.0, last.1 + len, last.2 + Seq::new(len as nat, |i: int| c)))
    } else {
        st.0.push((x, len, Seq::new(len as nat, |i: int| c)))
    };
    (spans, st.1.insert(rx as i64, c), rx + len - 1)
}

/// One past the last cell at the position of cell `i`
pub open spec fn group_end(cells: Seq<Cell>, i: int) -> int
    decreases cells.len() - i,
{
    if 0 <= i && i + 1 < cells.len() && cells[i + 1].x == cells[i].x {
        group_end(cells, i + 1)
    } else {
        i + 1
    }
}

/// Sum of the covers of cells `i..j`
pub open spec fn sum_cover(cells: Seq<Cell>, i: int, j: int) -> int
    decreases j - i,
{
    if j <= i { 0 } else { sum_cover(cells, i, j - 1) + cells[j - 1].cover }
}

/// Sum of the areas of cells `i..j`
pub open spec fn sum_area(cells: Seq<Cell>, i: int, j: int) -> int
    decreases j - i,
{
    if j <= i { 0 } else { sum_area(cells, i, j - 1) + cells[j - 1].area }
}

pub proof fn lemma_group_end(cells: Seq<Cell>, i: int)
    requires
        0 <= i < cells.len(),
    ensures
        i < group_end(cells, i) <= cells.len(),
        forall|k: int| i <= k < group_end(cells, i) ==> #[trigger] cells[k].x == cells[i].x,
        group_end(cells, i) < cells.len() ==> cells[group_end(cells, i)].x != cells[i].x,
    decreases cells.len() - i,
{
    if i + 1 < cells.len() && cells[i + 1].x == cells[i].x {
        lemma_group_end(cells, i + 1);
    }
}

/// The coverage of a pixel of area `area`, as `calculate_alpha` gives it
/// for the gamma table `gamma` and the filling rule `rule`
pub open spec fn alpha_of(gamma: Seq<u64>, rule: FillingRule, area: int) -> u64 {
    gamma[alpha_index(area, rule)]
}

/// The scanline after the cells from `i` on are swept into `st`, the
/// cells before `i` having left cover `cover`, with the gamma table `gamma`
/// and the filling rule `rule`: for each run of cells at one position `x`,
/// a pixel at `x` of the run's area (if it has one), then a span up to the
/// next run of the cover so far; pixels of no coverage are left out
pub open spec fn swept(gamma: Seq<u64>, rule: FillingRule,
                       st: (Seq<(int, int, Seq<u64>)>, Map<i64, u64>, int), min_x: int,
                       cells: Seq<Cell>, i: int, cover: int)
                       -> (Seq<(int, int, Seq<u64>)>, Map<i64, u64>, int)
    decreases cells.len() - i,
{
    if i < 0 || i >= cells.len() {
        st
    } else {
        let j = group_end(cells, i);
        let x = cells[i].x as int;
        let cov = cover + sum_cover(cells, i, j);
        let area = sum_area(cells, i, j);
        let a1 = alpha_of(gamma, rule, cov * 512 - area);
        let st1 = if area != 0 && a1 > 0 { scan_add(st, min_x, x, 1, a1) } else { st };
        let x1 = if area != 0 { x + 1 } else { x };
        let a2 = alpha_of(gamma, rule, cov * 512);
        let st2 = if j < cells.len() && cells[j].x > x1 && a2 > 0 {
            scan_add(st1, min_x, x1, cells[j].x - x1, a2)
        } else {
            st1
        };
        proof { lemma_group_end(cells, i); }
        swept(gamma, rule, st2, min_x, cells, j, cov)
    }
}

/// Row `y` of `rows` swept into an empty scanline that starts at `min_x`
pub open spec fn row_swept(gamma: Seq<u64>, rule: FillingRule, rows: Seq<Vec<Cell>>, y: int,
                           min_x: int) -> (Seq<(int, int, Seq<u64>)>, Map<i64, u64>, int) {
    swept(gamma, rule, scan_empty(), min_x, rows[y]@, 0, 0)
}

/// Row `y` of `rows` gives at least one span
pub open spec fn row_has_spans(gamma: Seq<u64>, rule: FillingRule, rows: Seq<Vec<Cell>>, y: int,
                               min_x: int) -> bool {
    row_swept(gamma, rule, rows, y, min_x).0.len() > 0
}

/// A scanline whose last position and last span agree, far inside the
/// 64-bit range
pub open spec fn scan_fit(st: (Seq<(int, int, Seq<u64>)>, Map<i64, u64>, int), min_x: int) -> bool {
    if st.0.len() == 0 {
        st.2 == LAST_X
    } else {
        let last = st.0[st.0.len() - 1];
        &&& -4 * CELL_X_LIMIT <= st.2 <= 4 * CELL_X_LIMIT
        &&& -4 * CELL_X_LIMIT <= last.0 - min_x <= st.2
        &&& last.0 - min_x + last.1 - 1 == st.2
    }
}

pub proof fn lemma_sum_bounds(cells: Seq<Cell>, i: int, j: int)
    requires
        cells_ok(cells),
        0 <= i <= j <= cells.len(),
    ensures
        iabs(sum_cover(cells, i, j)) <= (j - i) * 0x10_0000,
        iabs(sum_area(cells, i, j)) <= (j - i) * 0x4000_0000,
    decreases j - i,
{
    if i < j {
        lemma_sum_bounds(cells, i, j - 1);
        assert(iabs(cells[j - 1].cover as int) <= 0x10_0000);
        assert(iabs(cells[j - 1].area as int) <= 0x4000_0000);
    }
}

pub proof fn lemma_group_end_eq(cells: Seq<Cell>, i: int, j: int)
    requires
        0 <= i < j <= cells.len(),
        forall|k: int| i <= k < j ==> #[trigger] cells[k].x == cells[i].x,
        j < cells.len() ==> cells[j].x != cells[i].x,
    ensures
        group_end(cells, i) == j,
    decreases j - i,
{
    if i + 1 < j {
        assert(cells[i + 1].x == cells[i].x);
        lemma_group_end_eq(cells, i + 1, j);
    }
}

/// Adding one pixel as a cell or as a span of one gives the same scanline
pub proof fn lemma_one_cover(s: Seq<u64>, c: u64)
    ensures
        s.push(c) == s + Seq::new(1, |i: int| c),
        seq![c] == Seq::new(1, |i: int| c),
{
    assert(s.push(c) =~= s + Seq::new(1, |i: int| c));
    assert(seq![c] =~= Seq::new(1, |i: int| c));
}

/// `b` is the row of cells `a` with cell `k` split in two cells at the
/// same position whose covers and areas add up to those of cell `k`
pub open spec fn split_cell(a: Seq<Cell>, b: Seq<Cell>, k: int) -> bool {
    &&& 0 <= k < a.len()
    &&& b.len() == a.len() + 1
    &&& forall|i: int| 0 <= i < k ==> #[trigger] b[i] == a[i]
    &&& forall|i: int| k < i < a.len() ==> #[trigger] b[i + 1] == a[i]
    &&& b[k].x == a[k].x && b[k + 1].x == a[k].x
    &&& b[k].cover + b[k + 1].cover == a[k].cover
    &&& b[k].area + b[k + 1].area == a[k].area
}

/// Where cell `i` of a row lands when cell `k` is split in two
pub open spec fn split_index(k: int, i: int) -> int {
    if i <= k { i } else { i + 1 }
}

proof fn lemma_split_x(a: Seq<Cell>, b: Seq<Cell>, k: int, i: int)
    requires
        split_cell(a, b, k),
        0 <= i < a.len(),
    ensures
        b[split_index(k, i)].x == a[i].x,
{
    if i > k {
        assert(b[i + 1] == a[i]);
    } else if i < k {
        assert(b[i] == a[i]);
    }
}

proof fn lemma_split_sums(a: Seq<Cell>, b: Seq<Cell>, k: int, i: int, j: int)
    requires
        split_cell(a, b, k),
        0 <= i <= j <= a.len(),
    ensures
        sum_cover(b, split_index(k, i), split_index(k, j)) == sum_cover(a, i, j),
        sum_area(b, split_index(k, i), split_index(k, j)) == sum_area(a, i, j),
    decreases j - i,
{
    if i < j {
        lemma_split_sums(a, b, k, i, j - 1);
        let fi = split_index(k, i);
        if j - 1 < k {
            assert(b[j - 1] == a[j - 1]);
        } else if j - 1 == k {
            assert(sum_cover(b, fi, k + 2) == sum_cover(b, fi, k + 1) + b[k + 1].cover);
            assert(sum_cover(b, fi, k + 1) == sum_cover(b, fi, k) + b[k].cover);
            assert(sum_area(b, fi, k + 2) == sum_area(b, fi, k + 1) + b[k + 1].area);
            assert(sum_area(b, fi, k + 1) == sum_area(b, fi, k) + b[k].area);
        } else {
            assert(b[j] == a[j - 1]);
        }
    }
}

proof fn lemma_split_group_end(a: Seq<Cell>, b: Seq<Cell>, k: int, i: int)
    requires
        split_cell(a, b, k),
        0 <= i < a.len(),
    ensures
        group_end(b, split_index(k, i)) == split_index(k, group_end(a, i)),
{
    lemma_group_end(a, i);
    let e = group_end(a, i);
    let fi = split_index(k, i);
    let fe = split_index(k, e);
    lemma_split_x(a, b, k, i);
    assert forall|m: int| fi <= m < fe implies #[trigger] b[m].x == b[fi].x by {
        if m <= k {
            lemma_split_x(a, b, k, m);
            assert(a[m].x == a[i].x);
        } else if m == k + 1 {
            assert(a[k].x == a[i].x);
        } else {
            lemma_split_x(a, b, k, m - 1);
            assert(a[m - 1].x == a[i].x);
        }
    }
    if fe < b.len() {
        lemma_split_x(a, b, k, e);
    }
    lemma_group_end_eq(b, fi, fe);
}

proof fn lemma_split_swept(gamma: Seq<u64>, rule: FillingRule,
                           st: (Seq<(int, int, Seq<u64>)>, Map<i64, u64>, int), min_x: int,
                           a: Seq<Cell>, b: Seq<Cell>, k: int, i: int, cover: int)
    requires
        split_cell(a, b, k),
        0 <= i <= a.len(),
    ensures
        swept(gamma, rule, st, min_x, b, split_index(k, i), cover) == swept(gamma, rule, st, min_x, a, i, cover),
    decreases a.len() - i,
{
    if i < a.len() {
        let j = group_end(a, i);
        lemma_group_end(a, i);
        lemma_split_group_end(a, b, k, i);
        lemma_split_sums(a, b, k, i, j);
        lemma_split_x(a, b, k, i);
        if j < a.len() {
            lemma_split_x(a, b, k, j);
        }
        let x = a[i].x as int;
        let cov = cover + sum_cover(a, i, j);
        let area = sum_area(a, i, j);
        let a1 = alpha_of(gamma, rule, cov * 512 - area);
        let st1 = if area != 0 && a1 > 0 { scan_add(st, min_x, x, 1, a1) } else { st };
        let x1 = if area != 0 { x + 1 } else { x };
        let a2 = alpha_of(gamma, rule, cov * 512);
        let st2 = if j < a.len() && a[j].x > x1 && a2 > 0 {
            scan_add(st1, min_x, x1, a[j].x - x1, a2)
        } else {
            st1
        };
        lemma_split_swept(gamma, rule, st2, min_x, a, b, k, j, cov);
    } else {
        assert(split_index(k, i) == b.len());
    }
}

/// Sweeping a row depends only on the sums of the covers and areas at each
/// position: splitting a cell in two at its position, their covers and
/// areas adding up to its own, leaves the scanline the same
pub proof fn lemma_sweep_split_cell(gamma: Seq<u64>, rule: FillingRule,
                                    st: (Seq<(int, int, Seq<u64>)>, Map<i64, u64>, int), min_x: int,
                                    a: Seq<Cell>, b: Seq<Cell>, k: int)
    requires
        split_cell(a, b, k),
    ensures
        swept(gamma, rule, st, min_x, b, 0, 0) == swept(gamma, rule, st, min_x, a, 0, 0),
{
    lemma_split_swept(gamma, rule, st, min_x, a, b, k, 0, 0);
}

impl RasterizerScanline {
    /// Sweep one row of cells, ordered by position, into the scanline `sl`
    ///
    /// The spans of `sl` are replaced by those that the cells give (see
    /// `swept`).
    pub fn sweep_cells(&self, sl: &mut ScanlineU8, cells: &[Cell])
        requires
            self.gamma@.len() == 256,
            cells_ok(cells@),
            -CELL_X_LIMIT <= old(sl).min_x <= CELL_X_LIMIT,
        ensures
            scan_state(final(sl)) == swept(self.gamma@, self.filling_rule, scan_empty(),
                old(sl).min_x as int, cells@, 0, 0),
            final(sl).min_x == old(sl).min_x,
            final(sl).y == old(sl).y,
    {
        sl.reset_spans();
        let ghost min_x: int = sl.min_x as int;
        let ghost gamma = self.gamma@;
        let ghost rule = self.filling_rule;
        assert(scan_state(sl) =~= scan_empty());
        let n: usize = cells.len();
        let mut cover: i64 = 0;
        let mut i: usize = 0;
        while i < n
            invariant
                0 <= i <= n == cells@.len(),
                self.gamma@.len() == 256,
                gamma == self.gamma@,
                rule == self.filling_rule,
                cells_ok(cells@),
                sl.min_x == min_x,
                -CELL_X_LIMIT <= min_x <= CELL_X_LIMIT,
                sl.y == old(sl).y,
                iabs(cover as int) <= i * 0x10_0000,
                scan_fit(scan_state(sl), min_x),
                swept(gamma, rule, scan_state(sl), min_x, cells@, i as int, cover as int)
                    == swept(gamma, rule, scan_empty(), min_x, cells@, 0, 0),
            decreases n - i,
        {
            let ghost st0 = scan_state(sl);
            let ghost cover0: int = cover as int;
            let mut x: i64 = cells[i].x;
            let mut area: i64 = cells[i].area;
            cover += cells[i].cover;
            let mut j: usize = i + 1;
            proof {
                lemma_sum_bounds(cells@, i as int, j as int);
                assert(sum_area(cells@, i as int, i as int) == 0);
                assert(sum_cover(cells@, i as int, i as int) == 0);
            }
            while j < n && cells[j].x == x
                invariant
                    i < j <= n == cells@.len(),
                    cells_ok(cells@),
                    x == cells@[i as int].x,
                    forall|k: int| i <= k < j ==> #[trigger] cells@[k].x == x,
                    area == sum_area(cells@, i as int, j as int),
                    cover == cover0 + sum_cover(cells@, i as int, j as int),
                    iabs(cover0) <= i * 0x10_0000,
                    iabs(sum_cover(cells@, i as int, j as int)) <= (j - i) * 0x10_0000,
                    iabs(sum_area(cells@, i as int, j as int)) <= (j - i) * 0x4000_0000,
                decreases n - j,
            {
                proof { lemma_sum_bounds(cells@, i as int, j + 1); }
                area += cells[j].area;
                cover += cells[j].cover;
                j += 1;
            }
            proof {
                lemma_group_end_eq(cells@, i as int, j as int);
                lemma_group_end(cells@, i as int);
                lemma_shl9(cover);
            }
            let ghost cov: int = cover as int;
            let ghost a1 = alpha_of(gamma, rule, cov * 512 - area);
            if area != 0 {
                let alpha = self.calculate_alpha((cover << 9i64) - area);
                if alpha > 0 {
                    let ghost pre = sl.spans_view();
                    sl.add_cell(x, alpha);
                    proof {
                        if pre.len() > 0 {
                            lemma_one_cover(pre[pre.len() - 1].2, alpha);
                        }
                        lemma_one_cover(Seq::empty(), alpha);
                    }
                }
                x += 1;
            }
            let ghost st1 = scan_state(sl);
            assert(st1 == (if area != 0 && a1 > 0 {
                scan_add(st0, min_x, cells@[i as int].x as int, 1, a1)
            } else {
                st0
            }));
            if j < n && cells[j].x > x {
                let alpha = self.calculate_alpha(cover << 9i64);
                if alpha > 0 {
                    sl.add_span(x, cells[j].x - x, alpha);
                }
            }
            i = j;
        }
    }

    /// Sweep the Scanline
    ///
    /// `rows[y]` holds the cells of row `y`, ordered by position. From the
    /// current row on (and from row 0 if it is negative), finds the first
    /// row that gives spans, sweeps it into `sl` and moves past it.
    ///
    /// Returns true if data exists in the input Scanline
    pub fn sweep_scanline(&mut self, sl: &mut ScanlineU8, rows: &[Vec<Cell>]) -> (r: bool)
        requires
            old(self).gamma@.len() == 256,
            forall|y: int| 0 <= y < rows@.len() ==> cells_ok(#[trigger] rows@[y]@),
            rows@.len() < i64::MAX,
            -CELL_X_LIMIT <= old(sl).min_x <= CELL_X_LIMIT,
        ensures
            ({
                let y0 = if old(self).scan_y < 0 { 0 } else { old(self).scan_y as int };
                let ys = final(self).scan_y - 1;
                let min_x = old(sl).min_x as int;
                let g = old(self).gamma@;
                let rule = old(self).filling_rule;
                &&& final(self).gamma == old(self).gamma
                &&& final(self).filling_rule == old(self).filling_rule
                &&& final(self).status == old(self).status
                &&& final(self).x0 == old(self).x0
                &&& final(self).y0 == old(self).y0
                &&& final(sl).min_x == old(sl).min_x
                &&& r == exists|y: int| y0 <= y < rows@.len() && #[trigger] row_has_spans(g, rule, rows@, y, min_x)
                &&& r ==> {
                    &&& y0 <= ys < rows@.len()
                    &&& forall|y: int| y0 <= y < ys ==> !#[trigger] row_has_spans(g, rule, rows@, y, min_x)
                    &&& scan_state(final(sl)) == row_swept(g, rule, rows@, ys, min_x)
                    &&& final(sl).y == ys
                }
                &&& !r ==> {
                    &&& final(self).scan_y == (if y0 < rows@.len() { rows@.len() as int } else { y0 })
                    &&& y0 < rows@.len() ==> final(sl).spans@.len() == 0
                    &&& y0 >= rows@.len() ==> *final(sl) == *old(sl)
                }
            }),
    {
        let ghost y0: int = if self.scan_y < 0 { 0 } else { self.scan_y as int };
        let ghost min_x: int = sl.min_x as int;
        let ghost g = self.gamma@;
        let ghost rule = self.filling_rule;
        let nrows: usize = rows.len();
        loop
            invariant_except_break
                self.scan_y >= old(self).scan_y,
                self.scan_y < 0 || self.scan_y >= y0,
                self.scan_y <= y0 || self.scan_y <= nrows,
                forall|y: int| y0 <= y < self.scan_y ==> !#[trigger] row_has_spans(g, rule, rows@, y, min_x),
                self.scan_y <= y0 ==> *sl == *old(sl),
                self.scan_y > y0 ==> sl.spans@.len() == 0,
            invariant
                nrows == rows@.len(),
                nrows < i64::MAX,
                self.gamma == old(self).gamma,
                self.gamma@.len() == 256,
                g == self.gamma@,
                rule == self.filling_rule,
                self.filling_rule == old(self).filling_rule,
                self.status == old(self).status,
                self.x0 == old(self).x0,
                self.y0 == old(self).y0,
                forall|y: int| 0 <= y < rows@.len() ==> cells_ok(#[trigger] rows@[y]@),
                sl.min_x == min_x,
                min_x == old(sl).min_x,
                -CELL_X_LIMIT <= min_x <= CELL_X_LIMIT,
                y0 == (if old(self).scan_y < 0 { 0 } else { old(self).scan_y as int }),
            ensures
                y0 <= self.scan_y < nrows,
                forall|y: int| y0 <= y < self.scan_y ==> !#[trigger] row_has_spans(g, rule, rows@, y, min_x),
                scan_state(sl) == row_swept(g, rule, rows@, self.scan_y as int, min_x),
                sl.spans@.len() > 0,
            decreases nrows - self.scan_y,
        {
            if self.scan_y < 0 {
                self.scan_y += 1;
            } else {
                if self.scan_y >= nrows as i64 {
                    return false;
                }
                let row: usize = self.scan_y as usize;
                self.sweep_cells(sl, rows[row].as_slice());
                if sl.num_spans() != 0 {
                    break;
                }
                self.scan_y += 1;
            }
        }
        assert(row_has_spans(g, rule, rows@, self.scan_y as int, min_x));
        sl.finalize(self.scan_y);
        self.scan_y += 1;
        true
    }
}

} // verus!
