//! Layout of a 3D colour lookup table stored as a flat array.
//!
//! A table of `size` grid lines per axis holds `size`³ cells, each of three
//! channels (red, green, blue output). Cells are stored with blue as the
//! slowest axis and red as the fastest, so cell `(r, g, b)` starts at
//! `((b * size + g) * size + r) * 3`.
use vstd::prelude::*;
use vstd::arithmetic::div_mod::lemma_fundamental_div_mod_converse;

verus! {

/// Number of entries of a table with `size` grid lines per axis.
pub open spec fn table_len(size: int) -> int {
    size * size * size * 3
}

/// Whether `(r, g, b)` names a cell of a table with `size` grid lines per axis.
pub open spec fn in_grid(size: int, r: int, g: int, b: int) -> bool {
    &&& 0 <= r < size
    &&& 0 <= g < size
    &&& 0 <= b < size
}

/// Rank of cell `(r, g, b)` in storage order (blue slowest, red fastest).
pub open spec fn cell_rank(size: int, r: int, g: int, b: int) -> int {
    (b * size + g) * size + r
}

/// Position of the first channel of cell `(r, g, b)`.
pub open spec fn cell_offset_spec(size: int, r: int, g: int, b: int) -> int {
    cell_rank(size, r, g, b) * 3
}

/// The grid line above `c` used by trilinear sampling, held at the last line.
pub open spec fn upper_line(size: int, c: int) -> int {
    if c + 1 < size {
        c + 1
    } else {
        c
    }
}

/// A line number as an index: lines below zero are read as line zero.
pub open spec fn clip(c: int) -> int {
    if c < 0 {
        0
    } else {
        c
    }
}

/// A cell's rank lies below `size`³.
proof fn lemma_rank_bound(size: int, r: int, g: int, b: int)
    requires
        in_grid(size, r, g, b),
    ensures
        0 <= cell_rank(size, r, g, b) < size * size * size,
        cell_offset_spec(size, r, g, b) + 3 <= table_len(size),
{
    assert(0 <= b * size + g <= size * size - 1) by (nonlinear_arith)
        requires
            0 <= g < size,
            0 <= b < size,
    ;
    let q = b * size + g;
    assert(0 <= q * size + r <= size * size * size - 1) by (nonlinear_arith)
        requires
            0 <= q <= size * size - 1,
            0 <= r < size,
    ;
}

/// Number of entries of a table with `size` grid lines per axis, or `None`
/// where that number does not fit in `usize`.
pub fn table_entries(size: usize) -> (res: Option<usize>)
    ensures
        res is Some <==> table_len(size as int) <= usize::MAX,
        res matches Some(n) ==> n == table_len(size as int),
        res is Some <==> size * size * size * 3 <= usize::MAX,
        res matches Some(n) ==> n == size * size * size * 3,
{
    let sq = match size.checked_mul(size) {
        Some(v) => v,
        None => {
            assert(table_len(size as int) > usize::MAX) by (nonlinear_arith)
                requires
                    size * size > usize::MAX,
            ;
            return None;
        },
    };
    let cube = match sq.checked_mul(size) {
        Some(v) => v,
        None => {
            assert(table_len(size as int) > usize::MAX) by (nonlinear_arith)
                requires
                    sq == size * size,
                    sq * size > usize::MAX,
            ;
            return None;
        },
    };
    cube.checked_mul(3)
}

/// Position of the first channel of cell `(ri, gi, bi)` in a table with
/// `size` grid lines per axis.
pub fn cell_offset(size: usize, ri: usize, gi: usize, bi: usize) -> (res: usize)
    requires
        in_grid(size as int, ri as int, gi as int, bi as int),
        table_len(size as int) <= usize::MAX,
    ensures
        res == cell_offset_spec(size as int, ri as int, gi as int, bi as int),
        res + 3 <= table_len(size as int),
        res == ((bi * size + gi) * size + ri) * 3,
        res + 3 <= size * size * size * 3,
{
    proof {
        lemma_rank_bound(size as int, ri as int, gi as int, bi as int);
        assert(bi * size + gi <= (bi * size + gi) * size + ri) by (nonlinear_arith)
            requires
                0 < size,
                0 <= bi * size + gi,
        ;
        assert(bi * size <= bi * size + gi);
    }
    ((bi * size + gi) * size + ri) * 3
}

/// The cells of a table in the order in which they are stored: blue in the
/// outer loop, then green, then red. The `k`-th cell starts at entry `3 * k`,
/// so filling the table in this order writes every cell exactly once.
pub fn grid_cells(size: usize) -> (cells: Vec<(usize, usize, usize)>)
    requires
        table_len(size as int) <= usize::MAX,
    ensures
        cells.len() == size * size * size,
        forall|k: int|
            0 <= k < cells.len() ==> {
                let c = #[trigger] cells@[k];
                &&& in_grid(size as int, c.0 as int, c.1 as int, c.2 as int)
                &&& cell_rank(size as int, c.0 as int, c.1 as int, c.2 as int) == k
            },
        forall|k: int|
            0 <= k < cells.len() ==> {
                let c = #[trigger] cells@[k];
                &&& c.0 < size && c.1 < size && c.2 < size
                &&& (c.2 * size + c.1) * size + c.0 == k
            },
{
    let mut cells: Vec<(usize, usize, usize)> = Vec::new();
    let mut bi: usize = 0;
    while bi < size
        invariant
            bi <= size,
            cells.len() == bi * size * size,
            forall|k: int|
                0 <= k < cells.len() ==> {
                    let c = #[trigger] cells@[k];
                    &&& in_grid(size as int, c.0 as int, c.1 as int, c.2 as int)
                    &&& cell_rank(size as int, c.0 as int, c.1 as int, c.2 as int) == k
                },
        decreases size - bi,
    {
        let mut gi: usize = 0;
        while gi < size
            invariant
                bi < size,
                gi <= size,
                cells.len() == bi * size * size + gi * size,
                forall|k: int|
                    0 <= k < cells.len() ==> {
                        let c = #[trigger] cells@[k];
                        &&& in_grid(size as int, c.0 as int, c.1 as int, c.2 as int)
                        &&& cell_rank(size as int, c.0 as int, c.1 as int, c.2 as int) == k
                    },
            decreases size - gi,
        {
            let mut ri: usize = 0;
            while ri < size
                invariant
                    bi < size,
                    gi < size,
                    ri <= size,
                    cells.len() == bi * size * size + gi * size + ri,
                    forall|k: int|
                        0 <= k < cells.len() ==> {
                            let c = #[trigger] cells@[k];
                            &&& in_grid(size as int, c.0 as int, c.1 as int, c.2 as int)
                            &&& cell_rank(size as int, c.0 as int, c.1 as int, c.2 as int) == k
                        },
                decreases size - ri,
            {
                proof {
                    assert(cell_rank(size as int, ri as int, gi as int, bi as int) == bi * size
                        * size + gi * size + ri) by (nonlinear_arith);
                }
                cells.push((ri, gi, bi));
                ri = ri + 1;
            }
            proof {
                assert(bi * size * size + gi * size + size == bi * size * size + (gi + 1) * size)
                    by (nonlinear_arith);
            }
            gi = gi + 1;
        }
        proof {
            assert(bi * size * size + size * size == (bi + 1) * size * size) by (nonlinear_arith);
        }
        bi = bi + 1;
    }
    cells
}

/// Rank grows with each coordinate.
proof fn lemma_rank_monotone(size: int, r: int, g: int, b: int, r2: int, g2: int, b2: int)
    requires
        0 <= size,
        0 <= r <= r2,
        0 <= g <= g2,
        0 <= b <= b2,
    ensures
        0 <= cell_rank(size, r, g, b) <= cell_rank(size, r2, g2, b2),
{
    assert(0 <= b * size + g <= b2 * size + g2) by (nonlinear_arith)
        requires
            0 <= size,
            0 <= g <= g2,
            0 <= b <= b2,
    ;
    let q = b * size + g;
    let q2 = b2 * size + g2;
    assert(0 <= q * size + r <= q2 * size + r2) by (nonlinear_arith)
        requires
            0 <= size,
            0 <= q <= q2,
            0 <= r <= r2,
    ;
}

/// Position of cell `(ri, gi, bi)` by the storage formula, for coordinates
/// that need not lie in the grid.
fn raw_offset(size: usize, ri: usize, gi: usize, bi: usize) -> (res: usize)
    requires
        cell_offset_spec(size as int, ri as int, gi as int, bi as int) <= usize::MAX,
    ensures
        res == cell_offset_spec(size as int, ri as int, gi as int, bi as int),
{
    proof {
        if size == 0 {
            assert(bi * size == 0 && (bi * size + gi) * size == 0) by (nonlinear_arith)
                requires
                    size == 0,
            ;
        } else {
            assert(bi * size <= bi * size + gi <= (bi * size + gi) * size) by (nonlinear_arith)
                requires
                    size >= 1,
                    bi >= 0,
                    gi >= 0,
            ;
        }
    }
    ((bi * size + gi) * size + ri) * 3
}

/// Whether the lines `(r0, g0, b0)` can be sampled around: each is an index,
/// and the position of the upper corner fits in `usize`.
pub open spec fn corners_fit(size: int, r0: int, g0: int, b0: int) -> bool {
    &&& r0 <= usize::MAX
    &&& g0 <= usize::MAX
    &&& b0 <= usize::MAX
    &&& cell_offset_spec(
        size,
        clip(upper_line(size, r0)),
        clip(upper_line(size, g0)),
        clip(upper_line(size, b0)),
    ) <= usize::MAX
}

/// Position of corner `i` (0 to 7; bit 0 picks the upper red line, bit 1 the
/// upper green line, bit 2 the upper blue line) of the sampling cell at
/// lines `(r0, g0, b0)`.
pub open spec fn corner_position(size: int, r0: int, g0: int, b0: int, i: int) -> int {
    let r = if i % 2 == 1 {
        clip(upper_line(size, r0))
    } else {
        clip(r0)
    };
    let g = if (i / 2) % 2 == 1 {
        clip(upper_line(size, g0))
    } else {
        clip(g0)
    };
    let b = if i / 4 == 1 {
        clip(upper_line(size, b0))
    } else {
        clip(b0)
    };
    cell_offset_spec(size, r, g, b)
}

/// The grid line above `c` as an index, and `c` itself as an index.
fn line_pair(size: usize, c: i64) -> (res: (usize, usize))
    requires
        c <= usize::MAX,
    ensures
        res.0 == clip(c as int),
        res.1 == clip(upper_line(size as int, c as int)),
{
    if c < 0 {
        (0, 0)
    } else {
        let cu = c as usize;
        if size > 0 && cu < size - 1 {
            (cu, cu + 1)
        } else {
            (cu, cu)
        }
    }
}

/// Whether the line `c` is an index.
fn line_is_index(c: i64) -> (res: bool)
    ensures
        res == (c <= usize::MAX),
{
    c < 0 || (c as u64) <= (usize::MAX as u64)
}

/// Whether the cell `(ru, gu, bu)` has a position that fits in `usize`.
fn offset_fits(size: usize, ru: usize, gu: usize, bu: usize) -> (res: bool)
    ensures
        res == (cell_offset_spec(size as int, ru as int, gu as int, bu as int) <= usize::MAX),
{
    let ghost total = cell_offset_spec(size as int, ru as int, gu as int, bu as int);
    proof {
        if size == 0 {
            assert(bu * size == 0 && (bu * size + gu) * size == 0) by (nonlinear_arith)
                requires
                    size == 0,
            ;
        } else {
            assert(bu * size <= bu * size + gu <= (bu * size + gu) * size <= total) by (
            nonlinear_arith)
                requires
                    size >= 1,
                    bu >= 0,
                    gu >= 0,
                    ru >= 0,
                    total == ((bu * size + gu) * size + ru) * 3,
            ;
        }
    }
    let t1 = match bu.checked_mul(size) {
        Some(v) => v,
        None => return false,
    };
    let t2 = match t1.checked_add(gu) {
        Some(v) => v,
        None => return false,
    };
    let t3 = match t2.checked_mul(size) {
        Some(v) => v,
        None => return false,
    };
    let t4 = match t3.checked_add(ru) {
        Some(v) => v,
        None => return false,
    };
    t4.checked_mul(3).is_some()
}

/// On each axis the sampling cell reaches one line up, except from the last
/// line (or beyond), where it stays.
pub proof fn lemma_upper_line(size: int, c: int)
    ensures
        c + 1 < size ==> upper_line(size, c) == c + 1,
        c + 1 >= size ==> upper_line(size, c) == c,
        0 <= c ==> clip(c) == c,
        c < 0 ==> clip(c) == 0,
{
}

proof fn lemma_rank_shift(s: int, x: int, y: int, z: int, dx: int, dy: int, dz: int)
    ensures
        cell_rank(s, x + dx, y + dy, z + dz) == cell_rank(s, x, y, z) + dx + s * dy + s * s * dz,
{
    assert((z + dz) * s == z * s + dz * s) by (nonlinear_arith);
    assert((z * s + y + dz * s + dy) * s == (z * s + y) * s + dz * s * s + dy * s) by (
    nonlinear_arith);
    assert(dz * s * s == s * s * dz) by (nonlinear_arith);
    assert(dy * s == s * dy) by (nonlinear_arith);
}

/// The corners of a sampling cell: corner 0 is the cell at the lines
/// themselves (lines below zero read as zero); setting bit 0 moves one cell
/// along red (3 entries), bit 1 one along green (`3 * size`), bit 2 one along
/// blue (`3 * size * size`), where the axis has a line above; otherwise the
/// bit moves nothing.
pub proof fn lemma_corner_position_steps(size: int, r0: int, g0: int, b0: int)
    requires
        0 <= size,
    ensures
        ({
            let (lr, lg, lb) = (
                if r0 < 0 { 0 } else { r0 },
                if g0 < 0 { 0 } else { g0 },
                if b0 < 0 { 0 } else { b0 },
            );
            let dr = if 0 <= r0 && r0 + 1 < size { 3 } else { 0int };
            let dg = if 0 <= g0 && g0 + 1 < size { 3 * size } else { 0int };
            let db = if 0 <= b0 && b0 + 1 < size { 3 * size * size } else { 0int };
            let p = |i: int| corner_position(size, r0, g0, b0, i);
            &&& p(0) == ((lb * size + lg) * size + lr) * 3
            &&& p(1) == p(0) + dr
            &&& p(2) == p(0) + dg
            &&& p(3) == p(0) + dr + dg
            &&& p(4) == p(0) + db
            &&& p(5) == p(0) + dr + db
            &&& p(6) == p(0) + dg + db
            &&& p(7) == p(0) + dr + dg + db
        }),
{
    let (lr, lg, lb) = (clip(r0), clip(g0), clip(b0));
    let (ur, ug, ub) = (
        clip(upper_line(size, r0)),
        clip(upper_line(size, g0)),
        clip(upper_line(size, b0)),
    );
    assert(ur == lr + (if 0 <= r0 && r0 + 1 < size { 1 } else { 0int }));
    assert(ug == lg + (if 0 <= g0 && g0 + 1 < size { 1 } else { 0int }));
    assert(ub == lb + (if 0 <= b0 && b0 + 1 < size { 1 } else { 0int }));
    let dr = if 0 <= r0 && r0 + 1 < size { 1 } else { 0int };
    let dg = if 0 <= g0 && g0 + 1 < size { 1 } else { 0int };
    let db = if 0 <= b0 && b0 + 1 < size { 1 } else { 0int };
    lemma_rank_shift(size, lr, lg, lb, 0, 0, 0);
    lemma_rank_shift(size, lr, lg, lb, dr, 0, 0);
    lemma_rank_shift(size, lr, lg, lb, 0, dg, 0);
    lemma_rank_shift(size, lr, lg, lb, dr, dg, 0);
    lemma_rank_shift(size, lr, lg, lb, 0, 0, db);
    lemma_rank_shift(size, lr, lg, lb, dr, 0, db);
    lemma_rank_shift(size, lr, lg, lb, 0, dg, db);
    lemma_rank_shift(size, lr, lg, lb, dr, dg, db);
    assert(3 * size * size == 3 * (size * size)) by (nonlinear_arith);
    assert(corner_position(size, r0, g0, b0, 0) == cell_offset_spec(size, lr + 0, lg + 0, lb + 0));
    assert(corner_position(size, r0, g0, b0, 1) == cell_offset_spec(size, lr + dr, lg + 0, lb + 0));
    assert(corner_position(size, r0, g0, b0, 2) == cell_offset_spec(size, lr + 0, lg + dg, lb + 0));
    assert(corner_position(size, r0, g0, b0, 3) == cell_offset_spec(size, lr + dr, lg + dg, lb + 0));
    assert(corner_position(size, r0, g0, b0, 4) == cell_offset_spec(size, lr + 0, lg + 0, lb + db));
    assert(corner_position(size, r0, g0, b0, 5) == cell_offset_spec(size, lr + dr, lg + 0, lb + db));
    assert(corner_position(size, r0, g0, b0, 6) == cell_offset_spec(size, lr + 0, lg + dg, lb + db));
    assert(corner_position(size, r0, g0, b0, 7) == cell_offset_spec(size, lr + dr, lg + dg, lb + db));
    assert(3 * size * dg == (if 0 <= g0 && g0 + 1 < size { 3 * size } else { 0int }));
    assert(3 * size * size * db == (if 0 <= b0 && b0 + 1 < size { 3 * size * size } else { 0int }));
}

/// Entry positions of the eight cells around the grid point with lines
/// `(r0, g0, b0)` used by trilinear sampling, in the order 000, 100, 010,
/// 110, 001, 101, 011, 111 (red bit first). On each axis the upper line is
/// one up, held at the last grid line; lines below zero are read as line
/// zero. For a point of the grid every position lies inside the table.
pub fn corner_offsets(size: usize, r0: i64, g0: i64, b0: i64) -> (res: [usize; 8])
    requires
        corners_fit(size as int, r0 as int, g0 as int, b0 as int),
    ensures
        forall|i: int|
            0 <= i < 8 ==> #[trigger] res@[i] == corner_position(
                size as int,
                r0 as int,
                g0 as int,
                b0 as int,
                i,
            ),
        in_grid(size as int, r0 as int, g0 as int, b0 as int) ==> forall|i: int|
            0 <= i < 8 ==> #[trigger] res@[i] + 3 <= table_len(size as int),
        ({
            let (s, r0, g0, b0) = (size as int, r0 as int, g0 as int, b0 as int);
            let (lr, lg, lb) = (
                if r0 < 0 { 0 } else { r0 },
                if g0 < 0 { 0 } else { g0 },
                if b0 < 0 { 0 } else { b0 },
            );
            let dr = if 0 <= r0 && r0 + 1 < s { 3 } else { 0int };
            let dg = if 0 <= g0 && g0 + 1 < s { 3 * s } else { 0int };
            let db = if 0 <= b0 && b0 + 1 < s { 3 * s * s } else { 0int };
            &&& res@[0] == ((lb * s + lg) * s + lr) * 3
            &&& res@[1] == res@[0] + dr
            &&& res@[2] == res@[0] + dg
            &&& res@[3] == res@[0] + dr + dg
            &&& res@[4] == res@[0] + db
            &&& res@[5] == res@[0] + dr + db
            &&& res@[6] == res@[0] + dg + db
            &&& res@[7] == res@[0] + dr + dg + db
        }),
{
    let ghost (sr, sg, sb) = (r0 as int, g0 as int, b0 as int);
    let (r0, r1) = line_pair(size, r0);
    let (g0, g1) = line_pair(size, g0);
    let (b0, b1) = line_pair(size, b0);
    let ghost s = size as int;
    proof {
        lemma_rank_monotone(s, r0 as int, g0 as int, b0 as int, r1 as int, g1 as int, b1 as int);
        lemma_rank_monotone(s, r1 as int, g0 as int, b0 as int, r1 as int, g1 as int, b1 as int);
        lemma_rank_monotone(s, r0 as int, g1 as int, b0 as int, r1 as int, g1 as int, b1 as int);
        lemma_rank_monotone(s, r1 as int, g1 as int, b0 as int, r1 as int, g1 as int, b1 as int);
        lemma_rank_monotone(s, r0 as int, g0 as int, b1 as int, r1 as int, g1 as int, b1 as int);
        lemma_rank_monotone(s, r1 as int, g0 as int, b1 as int, r1 as int, g1 as int, b1 as int);
        lemma_rank_monotone(s, r0 as int, g1 as int, b1 as int, r1 as int, g1 as int, b1 as int);
    }
    let res = [
        raw_offset(size, r0, g0, b0),
        raw_offset(size, r1, g0, b0),
        raw_offset(size, r0, g1, b0),
        raw_offset(size, r1, g1, b0),
        raw_offset(size, r0, g0, b1),
        raw_offset(size, r1, g0, b1),
        raw_offset(size, r0, g1, b1),
        raw_offset(size, r1, g1, b1),
    ];
    proof {
        assert forall|i: int| 0 <= i < 8 implies #[trigger] res@[i] == corner_position(
            s,
            sr,
            sg,
            sb,
            i,
        ) by {
            if i == 0 {
            } else if i == 1 {
            } else if i == 2 {
            } else if i == 3 {
            } else if i == 4 {
            } else if i == 5 {
            } else if i == 6 {
            } else {
            }
        }
        lemma_corner_position_steps(s, sr, sg, sb);
        if in_grid(s, sr, sg, sb) {
            lemma_rank_bound(s, r1 as int, g1 as int, b1 as int);
            assert forall|i: int| 0 <= i < 8 implies #[trigger] res@[i] + 3 <= table_len(s) by {
                assert(res@[i] <= res@[7]);
            }
        }
    }
    res
}

/// The eight corner positions of `corner_offsets`, or `None` exactly where
/// the lines cannot be sampled around (a line is no index, or the upper
/// corner's position does not fit in `usize`).
pub fn corner_offsets_checked(size: usize, r0: i64, g0: i64, b0: i64) -> (res: Option<[usize; 8]>)
    ensures
        res is Some <==> corners_fit(size as int, r0 as int, g0 as int, b0 as int),
        res is Some <==> ({
            let (s, r0, g0, b0) = (size as int, r0 as int, g0 as int, b0 as int);
            let up = |c: int|
                if c < 0 {
                    0
                } else if c + 1 < s {
                    c + 1
                } else {
                    c
                };
            &&& r0 <= usize::MAX
            &&& g0 <= usize::MAX
            &&& b0 <= usize::MAX
            &&& ((up(b0) * s + up(g0)) * s + up(r0)) * 3 <= usize::MAX
        }),
        res matches Some(c) ==> forall|i: int|
            0 <= i < 8 ==> #[trigger] c@[i] == corner_position(
                size as int,
                r0 as int,
                g0 as int,
                b0 as int,
                i,
            ),
        res matches Some(c) ==> ({
            let (s, r0, g0, b0) = (size as int, r0 as int, g0 as int, b0 as int);
            let (lr, lg, lb) = (
                if r0 < 0 { 0 } else { r0 },
                if g0 < 0 { 0 } else { g0 },
                if b0 < 0 { 0 } else { b0 },
            );
            let dr = if 0 <= r0 && r0 + 1 < s { 3 } else { 0int };
            let dg = if 0 <= g0 && g0 + 1 < s { 3 * s } else { 0int };
            let db = if 0 <= b0 && b0 + 1 < s { 3 * s * s } else { 0int };
            &&& c@[0] == ((lb * s + lg) * s + lr) * 3
            &&& c@[1] == c@[0] + dr
            &&& c@[2] == c@[0] + dg
            &&& c@[3] == c@[0] + dr + dg
            &&& c@[4] == c@[0] + db
            &&& c@[5] == c@[0] + dr + db
            &&& c@[6] == c@[0] + dg + db
            &&& c@[7] == c@[0] + dr + dg + db
        }),
{
    if !(line_is_index(r0) && line_is_index(g0) && line_is_index(b0)) {
        return None;
    }
    let (_, r1) = line_pair(size, r0);
    let (_, g1) = line_pair(size, g0);
    let (_, b1) = line_pair(size, b0);
    if offset_fits(size, r1, g1, b1) {
        Some(corner_offsets(size, r0, g0, b0))
    } else {
        None
    }
}

/// Distinct cells of a table never share a position: the storage layout is
/// one to one.
pub proof fn lemma_cell_offset_injective(
    size: int,
    r1: int,
    g1: int,
    b1: int,
    r2: int,
    g2: int,
    b2: int,
)
    requires
        in_grid(size, r1, g1, b1),
        in_grid(size, r2, g2, b2),
        cell_offset_spec(size, r1, g1, b1) == cell_offset_spec(size, r2, g2, b2),
    ensures
        r1 == r2,
        g1 == g2,
        b1 == b2,
{
    let k = cell_rank(size, r1, g1, b1);
    assert(k == cell_rank(size, r2, g2, b2));
    lemma_fundamental_div_mod_converse(k, size, b1 * size + g1, r1);
    lemma_fundamental_div_mod_converse(k, size, b2 * size + g2, r2);
    lemma_fundamental_div_mod_converse(k / size, size, b1, g1);
    lemma_fundamental_div_mod_converse(k / size, size, b2, g2);
}

} // verus!
