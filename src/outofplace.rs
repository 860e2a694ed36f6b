//! Out-of-place transposes: a direct copy for small matrices, loop blocking
//! for medium ones and a cache-oblivious recursion for large ones.
use vstd::prelude::*;

verus! {

/// Edge of the square tiles of the blocked copy.
pub const BLOCK_SIZE: usize = 16;

/// Largest element count copied directly.
pub const SIZE_SIMPLE: usize = 256;

/// Largest element count copied by loop blocking alone.
pub const SIZE_TILE: usize = 262144;

/// Edge below which the recursion stops subdividing.
pub const RECURSION_LIMIT: usize = 128;

/// Element `(r, c)` of the row-major matrix of width `w` held in `s`.
pub open spec fn at<T>(s: Seq<T>, r: int, c: int, w: int) -> T {
    s[r * w + c]
}

/// `dst`, read as a `cols x rows` matrix, is the transpose of the
/// `rows x cols` matrix `src`.
pub open spec fn is_transpose<T>(src: Seq<T>, dst: Seq<T>, rows: int, cols: int) -> bool {
    &&& 0 <= rows
    &&& 0 <= cols
    &&& src.len() == rows * cols
    &&& dst.len() == rows * cols
    &&& forall|r: int, c: int|
        0 <= r < rows && 0 <= c < cols ==> #[trigger] at(dst, c, r, rows) == at(src, r, c, cols)
}

/// Element `(r, c)` of the source, which starts at `so`, stands at its
/// transposed place in `dst`.
pub open spec fn done<T>(
    src: Seq<T>,
    so: int,
    dst: Seq<T>,
    rows: int,
    cols: int,
    r: int,
    c: int,
) -> bool {
    dst[c * rows + r] == src[so + r * cols + c]
}

/// Every element of rows `r0..r1` and columns `c0..c1` is at its transposed place.
pub open spec fn region_done<T>(
    src: Seq<T>,
    so: int,
    dst: Seq<T>,
    rows: int,
    cols: int,
    r0: int,
    r1: int,
    c0: int,
    c1: int,
) -> bool {
    forall|r: int, c: int|
        r0 <= r < r1 && c0 <= c < c1 ==> #[trigger] done(src, so, dst, rows, cols, r, c)
}

/// Going from `d0` to `d1` moves no element that was already in place.
pub open spec fn keeps<T>(
    src: Seq<T>,
    so: int,
    d0: Seq<T>,
    d1: Seq<T>,
    rows: int,
    cols: int,
) -> bool {
    &&& d1.len() == d0.len()
    &&& forall|r: int, c: int|
        #![trigger done(src, so, d1, rows, cols, r, c)]
        0 <= r < rows && 0 <= c < cols && done(src, so, d0, rows, cols, r, c) ==> done(
            src,
            so,
            d1,
            rows,
            cols,
            r,
            c,
        )
}

/// The places of `(r, c)` in both layouts lie inside the matrix.
pub proof fn lemma_index_bounds(r: int, c: int, rows: int, cols: int)
    requires
        0 <= r < rows,
        0 <= c < cols,
    ensures
        0 <= r * cols + c < rows * cols,
        0 <= c * rows + r < rows * cols,
{
    assert(0 <= r * cols + c < rows * cols) by (nonlinear_arith)
        requires
            0 <= r < rows,
            0 <= c < cols,
    ;
    assert(0 <= c * rows + r < rows * cols) by (nonlinear_arith)
        requires
            0 <= r < rows,
            0 <= c < cols,
    ;
}

/// Two elements of a matrix of height `rows` never share a transposed place.
pub proof fn lemma_index_injective(r1: int, c1: int, r2: int, c2: int, rows: int)
    requires
        0 <= r1 < rows,
        0 <= r2 < rows,
        0 <= c1,
        0 <= c2,
        c1 * rows + r1 == c2 * rows + r2,
    ensures
        r1 == r2,
        c1 == c2,
{
    if c1 < c2 {
        assert(c1 * rows + rows <= c2 * rows) by (nonlinear_arith)
            requires
                c1 < c2,
                0 <= rows,
        ;
    } else if c2 < c1 {
        assert(c2 * rows + rows <= c1 * rows) by (nonlinear_arith)
            requires
                c2 < c1,
                0 <= rows,
        ;
    }
}

/// Writing element `(r, c)` to its transposed place keeps every element
/// already in place.
proof fn lemma_write_keeps<T>(
    src: Seq<T>,
    so: int,
    d0: Seq<T>,
    rows: int,
    cols: int,
    r: int,
    c: int,
)
    requires
        0 <= r < rows,
        0 <= c < cols,
        rows * cols <= d0.len(),
    ensures
        keeps(src, so, d0, d0.update(c * rows + r, src[so + r * cols + c]), rows, cols),
        done(src, so, d0.update(c * rows + r, src[so + r * cols + c]), rows, cols, r, c),
{
    let d1 = d0.update(c * rows + r, src[so + r * cols + c]);
    lemma_index_bounds(r, c, rows, cols);
    assert forall|r2: int, c2: int|
        0 <= r2 < rows && 0 <= c2 < cols && done(src, so, d0, rows, cols, r2, c2) implies done(
            src,
            so,
            d1,
            rows,
            cols,
            r2,
            c2,
        ) by {
        lemma_index_bounds(r2, c2, rows, cols);
        if c2 * rows + r2 == c * rows + r {
            lemma_index_injective(r2, c2, r, c, rows);
        }
    }
}

/// Place `k` of the destination, whose column height is `rows`, belongs to
/// a cell of rows `r0..r1` and columns `c0..c1`.
pub open spec fn in_image(k: int, rows: int, r0: int, r1: int, c0: int, c1: int) -> bool {
    r0 <= k % rows < r1 && c0 <= k / rows < c1
}

/// Every place of `d1` that belongs to no cell of rows `r0..r1` and
/// columns `c0..c1` holds what it held in `d0`.
pub open spec fn unchanged_outside<T>(
    d0: Seq<T>,
    d1: Seq<T>,
    rows: int,
    r0: int,
    r1: int,
    c0: int,
    c1: int,
) -> bool {
    forall|k: int|
        0 <= k < d0.len() && !in_image(k, rows, r0, r1, c0, c1) ==> #[trigger] d1[k] == d0[k]
}

/// The transposed place of `(r, c)` belongs to that cell.
proof fn lemma_place_in_image(r: int, c: int, rows: int)
    requires
        0 <= r < rows,
        0 <= c,
    ensures
        (c * rows + r) % rows == r,
        (c * rows + r) / rows == c,
{
    vstd::arithmetic::div_mod::lemma_fundamental_div_mod_converse_mod(c * rows + r, rows, c, r);
    vstd::arithmetic::div_mod::lemma_fundamental_div_mod_converse_div(c * rows + r, rows, c, r);
}

/// A change confined to a smaller region is confined to a larger one.
proof fn lemma_unchanged_widen<T>(
    d0: Seq<T>,
    d1: Seq<T>,
    rows: int,
    r0: int,
    r1: int,
    c0: int,
    c1: int,
    br0: int,
    br1: int,
    bc0: int,
    bc1: int,
)
    requires
        unchanged_outside(d0, d1, rows, r0, r1, c0, c1),
        br0 <= r0,
        r1 <= br1 || r1 <= r0,
        bc0 <= c0 || c1 <= c0,
        c1 <= bc1 || c1 <= c0,
        br0 <= r0 || r1 <= r0,
    ensures
        unchanged_outside(d0, d1, rows, br0, br1, bc0, bc1),
{
}

/// Changes confined to one region, one after the other, stay confined to it.
proof fn lemma_unchanged_trans<T>(
    d0: Seq<T>,
    d1: Seq<T>,
    d2: Seq<T>,
    rows: int,
    r0: int,
    r1: int,
    c0: int,
    c1: int,
)
    requires
        unchanged_outside(d0, d1, rows, r0, r1, c0, c1),
        unchanged_outside(d1, d2, rows, r0, r1, c0, c1),
        d1.len() == d0.len(),
    ensures
        unchanged_outside(d0, d2, rows, r0, r1, c0, c1),
{
    assert forall|k: int| 0 <= k < d0.len() && !in_image(k, rows, r0, r1, c0, c1) implies #[trigger] d2[k]
        == d0[k] by {
        assert(d1[k] == d0[k]);
    }
}

/// Copies the tile of `nr x nc` elements whose corner is `(fr, fc)`.
fn transpose_tile<T: Copy>(
    src: &[T],
    so: usize,
    dst: &mut Vec<T>,
    rows: usize,
    cols: usize,
    fr: usize,
    fc: usize,
    nr: usize,
    nc: usize,
)
    requires
        fr + nr <= rows,
        fc + nc <= cols,
        so + rows * cols <= src@.len(),
        rows * cols <= old(dst)@.len(),
    ensures
        unchanged_outside(old(dst)@, final(dst)@, rows as int, fr as int, fr + nr, fc as int, fc + nc),
        keeps(src@, so as int, old(dst)@, final(dst)@, rows as int, cols as int),
        region_done(
            src@,
            so as int,
            final(dst)@,
            rows as int,
            cols as int,
            fr as int,
            fr + nr,
            fc as int,
            fc + nc,
        ),
{
    let ghost d0 = dst@;
    let slen = src.len();
    let dlen = dst.len();
    let mut tc: usize = 0;
    while tc < nc
        invariant
            tc <= nc,
            fr + nr <= rows,
            fc + nc <= cols,
            so + rows * cols <= src@.len(),
            rows * cols <= dst@.len(),
            slen == src@.len(),
            dlen == dst@.len(),
            keeps(src@, so as int, d0, dst@, rows as int, cols as int),
                unchanged_outside(d0, dst@, rows as int, fr as int, fr + nr, fc as int, fc + nc),
            region_done(
                src@,
                so as int,
                dst@,
                rows as int,
                cols as int,
                fr as int,
                fr + nr,
                fc as int,
                fc + tc,
            ),
        decreases nc - tc,
    {
        let mut tr: usize = 0;
        while tr < nr
            invariant
                tc < nc,
                tr <= nr,
                fr + nr <= rows,
                fc + nc <= cols,
                so + rows * cols <= src@.len(),
                rows * cols <= dst@.len(),
                slen == src@.len(),
                dlen == dst@.len(),
                keeps(src@, so as int, d0, dst@, rows as int, cols as int),
                unchanged_outside(d0, dst@, rows as int, fr as int, fr + nr, fc as int, fc + nc),
                region_done(
                    src@,
                    so as int,
                    dst@,
                    rows as int,
                    cols as int,
                    fr as int,
                    fr + nr,
                    fc as int,
                    fc + tc,
                ),
                region_done(
                    src@,
                    so as int,
                    dst@,
                    rows as int,
                    cols as int,
                    fr as int,
                    fr + tr,
                    fc + tc,
                    fc + tc + 1,
                ),
            decreases nr - tr,
        {
            let r = fr + tr;
            let c = fc + tc;
            proof {
                lemma_index_bounds(r as int, c as int, rows as int, cols as int);
                lemma_write_keeps(src@, so as int, dst@, rows as int, cols as int, r as int, c as int);
                lemma_place_in_image(r as int, c as int, rows as int);
            }
            let i = so + r * cols + c;
            let j = c * rows + r;
            dst[j] = src[i];
            tr = tr + 1;
        }
        tc = tc + 1;
    }
}

/// `a * b + b` steps to `(a + 1) * b` and stays within `m * b` for `a < m`.
proof fn lemma_block_step(a: int, m: int, b: int)
    requires
        0 <= a < m,
        0 <= b,
    ensures
        (a + 1) * b == a * b + b,
        0 <= a * b,
        a * b + b <= m * b,
{
    assert((a + 1) * b == a * b + b) by (nonlinear_arith);
    assert(0 <= a * b) by (nonlinear_arith)
        requires
            0 <= a,
            0 <= b,
    ;
    assert(a * b + b <= m * b) by (nonlinear_arith)
        requires
            a < m,
            0 <= b,
    ;
}

/// Whole blocks of edge `b` fit in a length `n`.
proof fn lemma_blocks_fit(n: int, b: int)
    requires
        0 <= n,
        0 < b,
    ensures
        0 <= (n / b) * b <= n,
        n - (n / b) * b < b,
{
    vstd::arithmetic::div_mod::lemma_fundamental_div_mod(n, b);
    vstd::arithmetic::div_mod::lemma_mod_pos_bound(n, b);
    assert((n / b) * b == b * (n / b)) by (nonlinear_arith);
    assert(0 <= n / b) by (nonlinear_arith)
        requires
            0 <= n,
            0 < b,
    ;
    assert(0 <= (n / b) * b) by (nonlinear_arith)
        requires
            0 <= n / b,
            0 < b,
    ;
}

/// Keeping what was in place carries a finished region of the matrix along.
proof fn lemma_region_kept<T>(
    src: Seq<T>,
    so: int,
    d0: Seq<T>,
    d1: Seq<T>,
    rows: int,
    cols: int,
    r0: int,
    r1: int,
    c0: int,
    c1: int,
)
    requires
        region_done(src, so, d0, rows, cols, r0, r1, c0, c1),
        keeps(src, so, d0, d1, rows, cols),
        0 <= r0,
        r1 <= rows,
        0 <= c0,
        c1 <= cols,
    ensures
        region_done(src, so, d1, rows, cols, r0, r1, c0, c1),
{
    assert forall|r: int, c: int| r0 <= r < r1 && c0 <= c < c1 implies done(
        src,
        so,
        d1,
        rows,
        cols,
        r,
        c,
    ) by {
        assert(done(src, so, d0, rows, cols, r, c));
    }
}

/// Keeping what was in place is transitive.
proof fn lemma_keeps_trans<T>(
    src: Seq<T>,
    so: int,
    d0: Seq<T>,
    d1: Seq<T>,
    d2: Seq<T>,
    rows: int,
    cols: int,
)
    requires
        keeps(src, so, d0, d1, rows, cols),
        keeps(src, so, d1, d2, rows, cols),
    ensures
        keeps(src, so, d0, d2, rows, cols),
{
    assert forall|r: int, c: int|
        0 <= r < rows && 0 <= c < cols && done(src, so, d0, rows, cols, r, c) implies done(
            src,
            so,
            d2,
            rows,
            cols,
            r,
            c,
        ) by {
        assert(done(src, so, d1, rows, cols, r, c));
    }
}

/// Two finished regions side by side, or one above the other, make one.
proof fn lemma_region_join<T>(
    src: Seq<T>,
    so: int,
    d: Seq<T>,
    rows: int,
    cols: int,
    r0: int,
    r1: int,
    r2: int,
    c0: int,
    c1: int,
    c2: int,
)
    requires
        r0 <= r1 <= r2,
        c0 <= c1 <= c2,
        region_done(src, so, d, rows, cols, r0, r1, c0, c2),
        region_done(src, so, d, rows, cols, r1, r2, c0, c1),
        region_done(src, so, d, rows, cols, r1, r2, c1, c2),
    ensures
        region_done(src, so, d, rows, cols, r0, r2, c0, c2),
{
}

/// A finished whole matrix, read from the start of `src`, is its transpose.
proof fn lemma_region_is_transpose<T>(src: Seq<T>, dst: Seq<T>, rows: int, cols: int)
    requires
        0 <= rows,
        0 <= cols,
        src.len() == rows * cols,
        dst.len() == rows * cols,
        region_done(src, 0, dst, rows, cols, 0, rows, 0, cols),
    ensures
        is_transpose(src, dst, rows, cols),
{
    assert forall|r: int, c: int| 0 <= r < rows && 0 <= c < cols implies #[trigger] at(
        dst,
        c,
        r,
        rows,
    ) == at(src, r, c, cols) by {
        assert(done(src, 0, dst, rows, cols, r, c));
    }
}

/// Loop blocking over the region of `nr x nc` elements whose corner is
/// `(fr, fc)`: whole tiles of edge `bs`, column of tiles after column of
/// tiles, then the tiles of the remaining columns, of the remaining rows,
/// and the corner where both remain.
fn transpose_blocks<T: Copy>(
    src: &[T],
    so: usize,
    dst: &mut Vec<T>,
    rows: usize,
    cols: usize,
    fr: usize,
    fc: usize,
    nr: usize,
    nc: usize,
    bs: usize,
)
    requires
        0 < bs,
        fr + nr <= rows,
        fc + nc <= cols,
        so + rows * cols <= src@.len(),
        rows * cols <= old(dst)@.len(),
    ensures
        unchanged_outside(old(dst)@, final(dst)@, rows as int, fr as int, fr + nr, fc as int, fc + nc),
        keeps(src@, so as int, old(dst)@, final(dst)@, rows as int, cols as int),
        region_done(
            src@,
            so as int,
            final(dst)@,
            rows as int,
            cols as int,
            fr as int,
            fr + nr,
            fc as int,
            fc + nc,
        ),
{
    let ghost s = src@;
    let ghost d0 = dst@;
    let ghost so_ = so as int;
    let ghost ri = rows as int;
    let ghost ci = cols as int;
    let slen = src.len();
    let dlen = dst.len();
    let block_rows = nr / bs;
    let block_cols = nc / bs;
    proof {
        lemma_blocks_fit(nr as int, bs as int);
        lemma_blocks_fit(nc as int, bs as int);
    }
    let remain_rows = nr - block_rows * bs;
    let remain_cols = nc - block_cols * bs;
    let rend = fr + block_rows * bs;
    let cend = fc + block_cols * bs;
    let mut bc: usize = 0;
    while bc < block_cols
        invariant
            0 < bs,
            fr + nr <= rows,
            fc + nc <= cols,
            so + rows * cols <= src@.len(),
            s == src@,
            so_ == so,
            ri == rows,
            ci == cols,
            slen == src@.len(),
            dlen == dst@.len(),
            rows * cols <= dst@.len(),
            block_rows * bs <= nr,
            block_cols * bs <= nc,
            rend == fr + block_rows * bs,
            bc <= block_cols,
            keeps(s, so_, d0, dst@, ri, ci),
                unchanged_outside(d0, dst@, ri, fr as int, fr + nr, fc as int, fc + nc),
            region_done(s, so_, dst@, ri, ci, fr as int, rend as int, fc as int, fc + bc * bs),
        decreases block_cols - bc,
    {
        proof {
            lemma_block_step(bc as int, block_cols as int, bs as int);
        }
        let c0 = fc + bc * bs;
        let mut br: usize = 0;
        while br < block_rows
            invariant
                0 < bs,
                fr + nr <= rows,
                fc + nc <= cols,
                so + rows * cols <= src@.len(),
                s == src@,
                so_ == so,
                ri == rows,
                ci == cols,
                slen == src@.len(),
                dlen == dst@.len(),
                rows * cols <= dst@.len(),
                block_rows * bs <= nr,
                c0 == fc + bc * bs,
                c0 + bs <= fc + nc,
                rend == fr + block_rows * bs,
                br <= block_rows,
                keeps(s, so_, d0, dst@, ri, ci),
                unchanged_outside(d0, dst@, ri, fr as int, fr + nr, fc as int, fc + nc),
                region_done(s, so_, dst@, ri, ci, fr as int, rend as int, fc as int, c0 as int),
                region_done(s, so_, dst@, ri, ci, fr as int, fr + br * bs, c0 as int, c0 + bs),
            decreases block_rows - br,
        {
            proof {
                lemma_block_step(br as int, block_rows as int, bs as int);
            }
            let ghost before = dst@;
            transpose_tile(src, so, dst, rows, cols, fr + br * bs, c0, bs, bs);
            proof {
                lemma_keeps_trans(s, so_, d0, before, dst@, ri, ci);
                lemma_unchanged_widen(before, dst@, ri, fr + br * bs, fr + br * bs + bs, c0 as int, c0 + bs, fr as int, fr + nr, fc as int, fc + nc);
                lemma_unchanged_trans(d0, before, dst@, ri, fr as int, fr + nr, fc as int, fc + nc);
                lemma_region_kept(s, so_, before, dst@, ri, ci, fr as int, rend as int, fc as int, c0 as int);
                lemma_region_kept(s, so_, before, dst@, ri, ci, fr as int, fr + br * bs, c0 as int, c0 + bs);
                lemma_region_join(s, so_, dst@, ri, ci, fr as int, fr + br * bs, fr + br * bs + bs, c0 as int, c0 + bs, c0 + bs);
            }
            assert(region_done(s, so_, dst@, ri, ci, fr as int, fr + (br + 1) * bs, c0 as int, c0 + bs));
            br = br + 1;
        }
        bc = bc + 1;
    }
    if remain_cols > 0 {
        let mut br: usize = 0;
        while br < block_rows
            invariant
                0 < bs,
                fr + nr <= rows,
                fc + nc <= cols,
                so + rows * cols <= src@.len(),
                s == src@,
                so_ == so,
                ri == rows,
                ci == cols,
                slen == src@.len(),
                dlen == dst@.len(),
                rows * cols <= dst@.len(),
                block_rows * bs <= nr,
                cend == fc + block_cols * bs,
                cend + remain_cols == fc + nc,
                rend == fr + block_rows * bs,
                br <= block_rows,
                keeps(s, so_, d0, dst@, ri, ci),
                unchanged_outside(d0, dst@, ri, fr as int, fr + nr, fc as int, fc + nc),
                region_done(s, so_, dst@, ri, ci, fr as int, rend as int, fc as int, cend as int),
                region_done(s, so_, dst@, ri, ci, fr as int, fr + br * bs, cend as int, fc + nc),
            decreases block_rows - br,
        {
            proof {
                lemma_block_step(br as int, block_rows as int, bs as int);
            }
            let ghost before = dst@;
            transpose_tile(src, so, dst, rows, cols, fr + br * bs, cend, bs, remain_cols);
            proof {
                lemma_keeps_trans(s, so_, d0, before, dst@, ri, ci);
                lemma_unchanged_widen(before, dst@, ri, fr + br * bs, fr + br * bs + bs, cend as int, cend + remain_cols, fr as int, fr + nr, fc as int, fc + nc);
                lemma_unchanged_trans(d0, before, dst@, ri, fr as int, fr + nr, fc as int, fc + nc);
                lemma_region_kept(s, so_, before, dst@, ri, ci, fr as int, rend as int, fc as int, cend as int);
                lemma_region_kept(s, so_, before, dst@, ri, ci, fr as int, fr + br * bs, cend as int, fc + nc);
            }
            assert(region_done(s, so_, dst@, ri, ci, fr as int, fr + (br + 1) * bs, cend as int, fc + nc));
            br = br + 1;
        }
    }
    assert(region_done(s, so_, dst@, ri, ci, fr as int, rend as int, fc as int, fc + nc));
    if remain_rows > 0 {
        let mut bc: usize = 0;
        while bc < block_cols
            invariant
                0 < bs,
                fr + nr <= rows,
                fc + nc <= cols,
                so + rows * cols <= src@.len(),
                s == src@,
                so_ == so,
                ri == rows,
                ci == cols,
                slen == src@.len(),
                dlen == dst@.len(),
                rows * cols <= dst@.len(),
                block_cols * bs <= nc,
                rend == fr + block_rows * bs,
                rend + remain_rows == fr + nr,
                bc <= block_cols,
                keeps(s, so_, d0, dst@, ri, ci),
                unchanged_outside(d0, dst@, ri, fr as int, fr + nr, fc as int, fc + nc),
                region_done(s, so_, dst@, ri, ci, fr as int, rend as int, fc as int, fc + nc),
                region_done(s, so_, dst@, ri, ci, rend as int, fr + nr, fc as int, fc + bc * bs),
            decreases block_cols - bc,
        {
            proof {
                lemma_block_step(bc as int, block_cols as int, bs as int);
            }
            let ghost before = dst@;
            transpose_tile(src, so, dst, rows, cols, rend, fc + bc * bs, remain_rows, bs);
            proof {
                lemma_keeps_trans(s, so_, d0, before, dst@, ri, ci);
                lemma_unchanged_widen(before, dst@, ri, rend as int, rend + remain_rows, fc + bc * bs, fc + bc * bs + bs, fr as int, fr + nr, fc as int, fc + nc);
                lemma_unchanged_trans(d0, before, dst@, ri, fr as int, fr + nr, fc as int, fc + nc);
                lemma_region_kept(s, so_, before, dst@, ri, ci, fr as int, rend as int, fc as int, fc + nc);
                lemma_region_kept(s, so_, before, dst@, ri, ci, rend as int, fr + nr, fc as int, fc + bc * bs);
            }
            assert(region_done(s, so_, dst@, ri, ci, rend as int, fr + nr, fc as int, fc + (bc + 1) * bs));
            bc = bc + 1;
        }
    }
    assert(region_done(s, so_, dst@, ri, ci, rend as int, fr + nr, fc as int, cend as int));
    if remain_cols > 0 && remain_rows > 0 {
        let ghost before = dst@;
        transpose_tile(src, so, dst, rows, cols, rend, cend, remain_rows, remain_cols);
        proof {
            lemma_keeps_trans(s, so_, d0, before, dst@, ri, ci);
                lemma_unchanged_widen(before, dst@, ri, rend as int, rend + remain_rows, cend as int, cend + remain_cols, fr as int, fr + nr, fc as int, fc + nc);
                lemma_unchanged_trans(d0, before, dst@, ri, fr as int, fr + nr, fc as int, fc + nc);
            lemma_region_kept(s, so_, before, dst@, ri, ci, fr as int, rend as int, fc as int, fc + nc);
            lemma_region_kept(s, so_, before, dst@, ri, ci, rend as int, fr + nr, fc as int, cend as int);
        }
    }
    proof {
        lemma_region_join(s, so_, dst@, ri, ci, fr as int, rend as int, fr + nr, fc as int, cend as int, fc + nc);
    }
}

/// Cache-oblivious transpose of the region of `nr x nc` elements whose
/// corner is `(fr, fc)`: the longer side is halved (rows on a tie) until
/// the region is small enough for loop blocking.
fn transpose_recursive<T: Copy>(
    src: &[T],
    so: usize,
    dst: &mut Vec<T>,
    rows: usize,
    cols: usize,
    fr: usize,
    fc: usize,
    nr: usize,
    nc: usize,
    bs: usize,
)
    requires
        0 < bs,
        fr + nr <= rows,
        fc + nc <= cols,
        so + rows * cols <= src@.len(),
        rows * cols <= old(dst)@.len(),
    ensures
        unchanged_outside(old(dst)@, final(dst)@, rows as int, fr as int, fr + nr, fc as int, fc + nc),
        keeps(src@, so as int, old(dst)@, final(dst)@, rows as int, cols as int),
        region_done(
            src@,
            so as int,
            final(dst)@,
            rows as int,
            cols as int,
            fr as int,
            fr + nr,
            fc as int,
            fc + nc,
        ),
    decreases nr + nc,
{
    let ghost s = src@;
    let ghost d0 = dst@;
    let ghost so_ = so as int;
    let ghost ri = rows as int;
    let ghost ci = cols as int;
    let slen = src.len();
    let dlen = dst.len();
    if nr <= RECURSION_LIMIT && nc < RECURSION_LIMIT {
        transpose_blocks(src, so, dst, rows, cols, fr, fc, nr, nc, bs);
    } else if nr >= nc {
        let half = nr / 2;
        transpose_recursive(src, so, dst, rows, cols, fr, fc, half, nc, bs);
        let ghost d1 = dst@;
        transpose_recursive(src, so, dst, rows, cols, fr + half, fc, nr - half, nc, bs);
        proof {
            lemma_unchanged_widen(d0, d1, ri, fr as int, fr + half, fc as int, fc + nc, fr as int, fr + nr, fc as int, fc + nc);
            lemma_unchanged_widen(d1, dst@, ri, fr + half, fr + nr, fc as int, fc + nc, fr as int, fr + nr, fc as int, fc + nc);
            lemma_unchanged_trans(d0, d1, dst@, ri, fr as int, fr + nr, fc as int, fc + nc);
            lemma_keeps_trans(s, so_, d0, d1, dst@, ri, ci);
            lemma_region_kept(s, so_, d1, dst@, ri, ci, fr as int, fr + half, fc as int, fc + nc);
            lemma_region_join(s, so_, dst@, ri, ci, fr as int, fr + half, fr + nr, fc as int, fc + nc, fc + nc);
        }
    } else {
        let half = nc / 2;
        transpose_recursive(src, so, dst, rows, cols, fr, fc, nr, half, bs);
        let ghost d1 = dst@;
        transpose_recursive(src, so, dst, rows, cols, fr, fc + half, nr, nc - half, bs);
        proof {
            lemma_unchanged_widen(d0, d1, ri, fr as int, fr + nr, fc as int, fc + half, fr as int, fr + nr, fc as int, fc + nc);
            lemma_unchanged_widen(d1, dst@, ri, fr as int, fr + nr, fc + half, fc + nc, fr as int, fr + nr, fc as int, fc + nc);
            lemma_unchanged_trans(d0, d1, dst@, ri, fr as int, fr + nr, fc as int, fc + nc);
            lemma_keeps_trans(s, so_, d0, d1, dst@, ri, ci);
            lemma_region_kept(s, so_, d1, dst@, ri, ci, fr as int, fr + nr, fc as int, fc + half);
            lemma_region_join(s, so_, dst@, ri, ci, fr as int, fr as int, fr + nr, fc as int, fc + half, fc + nc);
        }
    }
}

/// Direct copy of the whole matrix, row after row.
fn transpose_direct<T: Copy>(src: &[T], so: usize, dst: &mut Vec<T>, rows: usize, cols: usize)
    requires
        so + rows * cols <= src@.len(),
        rows * cols <= old(dst)@.len(),
    ensures
        unchanged_outside(old(dst)@, final(dst)@, rows as int, 0, rows as int, 0, cols as int),
        keeps(src@, so as int, old(dst)@, final(dst)@, rows as int, cols as int),
        region_done(src@, so as int, final(dst)@, rows as int, cols as int, 0, rows as int, 0, cols as int),
{
    let ghost s = src@;
    let ghost d0 = dst@;
    let ghost so_ = so as int;
    let ghost ri = rows as int;
    let ghost ci = cols as int;
    let slen = src.len();
    let dlen = dst.len();
    let mut r: usize = 0;
    while r < rows
        invariant
            r <= rows,
            s == src@,
            so_ == so,
            ri == rows,
            ci == cols,
            slen == src@.len(),
            dlen == dst@.len(),
            so + rows * cols <= src@.len(),
            rows * cols <= dst@.len(),
            keeps(s, so_, d0, dst@, ri, ci),
                unchanged_outside(d0, dst@, ri, 0, ri, 0, ci),
            region_done(s, so_, dst@, ri, ci, 0, r as int, 0, ci),
        decreases rows - r,
    {
        let mut c: usize = 0;
        while c < cols
            invariant
                r < rows,
                c <= cols,
                s == src@,
                so_ == so,
                ri == rows,
                ci == cols,
                slen == src@.len(),
                dlen == dst@.len(),
                so + rows * cols <= src@.len(),
                rows * cols <= dst@.len(),
                keeps(s, so_, d0, dst@, ri, ci),
                unchanged_outside(d0, dst@, ri, 0, ri, 0, ci),
                region_done(s, so_, dst@, ri, ci, 0, r as int, 0, ci),
                region_done(s, so_, dst@, ri, ci, r as int, r + 1, 0, c as int),
            decreases cols - c,
        {
            proof {
                lemma_index_bounds(r as int, c as int, ri, ci);
                lemma_write_keeps(s, so_, dst@, ri, ci, r as int, c as int);
                lemma_place_in_image(r as int, c as int, ri);
            }
            let ghost before = dst@;
            let i = so + r * cols + c;
            let j = r + c * rows;
            dst[j] = src[i];
            proof {
                lemma_keeps_trans(s, so_, d0, before, dst@, ri, ci);
                lemma_region_kept(s, so_, before, dst@, ri, ci, 0, r as int, 0, ci);
                lemma_region_kept(s, so_, before, dst@, ri, ci, r as int, r + 1, 0, c as int);
            }
            c = c + 1;
        }
        r = r + 1;
    }
}

/// Transposes the `rows x cols` matrix that starts at `so` in `src` into
/// the first `rows * cols` places of `dst`, by the strategy that its
/// element count selects.
pub(crate) fn transpose_from<T: Copy>(src: &[T], so: usize, dst: &mut Vec<T>, rows: usize, cols: usize)
    requires
        so + rows * cols <= src@.len(),
        rows * cols <= old(dst)@.len(),
    ensures
        unchanged_outside(old(dst)@, final(dst)@, rows as int, 0, rows as int, 0, cols as int),
        final(dst)@.len() == old(dst)@.len(),
        region_done(src@, so as int, final(dst)@, rows as int, cols as int, 0, rows as int, 0, cols as int),
{
    let slen = src.len();
    let n = rows * cols;
    if n <= SIZE_SIMPLE {
        transpose_direct(src, so, dst, rows, cols);
    } else if n <= SIZE_TILE {
        transpose_blocks(src, so, dst, rows, cols, 0, 0, rows, cols, BLOCK_SIZE);
    } else {
        transpose_recursive(src, so, dst, rows, cols, 0, 0, rows, cols, BLOCK_SIZE);
    }
}

/// Out-of-place transpose: `dst`, read as a `cols x rows` matrix, receives
/// the transpose of the `rows x cols` matrix `src`. Small matrices are
/// copied directly, medium ones by loop blocking and large ones by a
/// cache-oblivious recursion.
pub fn oop_transpose<T: Copy>(src: &[T], dst: &mut Vec<T>, rows: usize, cols: usize)
    requires
        src@.len() == rows * cols,
        old(dst)@.len() == rows * cols,
    ensures
        is_transpose(src@, final(dst)@, rows as int, cols as int),
{
    transpose_from(src, 0, dst, rows, cols);
    proof {
        lemma_region_is_transpose(src@, dst@, rows as int, cols as int);
    }
}

/// Out-of-place transpose by direct copy, one element after the other.
pub fn oop_transpose_small<T: Copy>(src: &[T], dst: &mut Vec<T>, rows: usize, cols: usize)
    requires
        src@.len() == rows * cols,
        old(dst)@.len() == rows * cols,
    ensures
        is_transpose(src@, final(dst)@, rows as int, cols as int),
{
    transpose_direct(src, 0, dst, rows, cols);
    proof {
        lemma_region_is_transpose(src@, dst@, rows as int, cols as int);
    }
}

/// Out-of-place transpose by loop blocking with square tiles of edge
/// `block_size`.
pub fn oop_transpose_medium<T: Copy>(
    src: &[T],
    dst: &mut Vec<T>,
    rows: usize,
    cols: usize,
    block_size: usize,
)
    requires
        src@.len() == rows * cols,
        old(dst)@.len() == rows * cols,
        block_size > 0,
    ensures
        is_transpose(src@, final(dst)@, rows as int, cols as int),
{
    transpose_blocks(src, 0, dst, rows, cols, 0, 0, rows, cols, block_size);
    proof {
        lemma_region_is_transpose(src@, dst@, rows as int, cols as int);
    }
}

/// Out-of-place transpose by cache-oblivious recursion, with loop blocking
/// of tile edge `block_size` once both sides are small.
pub fn oop_transpose_large<T: Copy>(
    src: &[T],
    dst: &mut Vec<T>,
    rows: usize,
    cols: usize,
    block_size: usize,
)
    requires
        src@.len() == rows * cols,
        old(dst)@.len() == rows * cols,
        block_size > 0,
    ensures
        is_transpose(src@, final(dst)@, rows as int, cols as int),
{
    transpose_recursive(src, 0, dst, rows, cols, 0, 0, rows, cols, block_size);
    proof {
        lemma_region_is_transpose(src@, dst@, rows as int, cols as int);
    }
}

/// Every place `k` of a `rows x cols` matrix is the place of one cell.
proof fn lemma_place_of(k: int, rows: int, cols: int)
    requires
        0 <= rows,
        0 <= cols,
        0 <= k < rows * cols,
    ensures
        0 <= k / cols < rows,
        0 <= k % cols < cols,
        k == (k / cols) * cols + k % cols,
{
    assert(cols > 0) by (nonlinear_arith)
        requires
            0 <= k < rows * cols,
            0 <= rows,
            0 <= cols,
    ;
    vstd::arithmetic::div_mod::lemma_fundamental_div_mod(k, cols);
    vstd::arithmetic::div_mod::lemma_mod_pos_bound(k, cols);
    assert((k / cols) * cols == cols * (k / cols)) by (nonlinear_arith);
    assert(0 <= k / cols < rows) by (nonlinear_arith)
        requires
            k == cols * (k / cols) + k % cols,
            0 <= k % cols < cols,
            0 <= k < rows * cols,
            cols > 0,
    ;
}

/// A matrix has exactly one transpose: any two results of transposing
/// the same source are equal, whichever strategy produced them.
pub proof fn lemma_transpose_unique<T>(src: Seq<T>, d1: Seq<T>, d2: Seq<T>, rows: int, cols: int)
    requires
        is_transpose(src, d1, rows, cols),
        is_transpose(src, d2, rows, cols),
    ensures
        d1 == d2,
{
    assert forall|k: int| 0 <= k < d1.len() implies d1[k] == d2[k] by {
        lemma_place_of(k, cols, rows);
        let c = k / rows;
        let r = k % rows;
        assert(at(d1, c, r, rows) == at(src, r, c, cols));
        assert(at(d2, c, r, rows) == at(src, r, c, cols));
    }
    assert(d1 =~= d2);
}

/// Transposing twice, with the shape swapped for the second transpose,
/// gives back the original matrix.
pub proof fn lemma_transpose_involution<T>(a: Seq<T>, b: Seq<T>, c: Seq<T>, rows: int, cols: int)
    requires
        is_transpose(a, b, rows, cols),
        is_transpose(b, c, cols, rows),
    ensures
        c == a,
{
    assert(cols * rows == rows * cols) by (nonlinear_arith);
    assert forall|k: int| 0 <= k < a.len() implies c[k] == a[k] by {
        lemma_place_of(k, rows, cols);
        let r = k / cols;
        let cc = k % cols;
        assert(at(b, cc, r, rows) == at(a, r, cc, cols));
        assert(at(c, r, cc, cols) == at(b, cc, r, rows));
    }
    assert(c =~= a);
}

} // verus!
