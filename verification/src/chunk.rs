use vstd::prelude::*;

verus! {

/// A rectangular sub-region of the output image, with a private buffer the
/// renderer fills before the region is copied into the framebuffer.
///
/// `x` and `y` are the full image's width and height; the chunk covers
/// pixels `[start_x, start_x + nx) x [start_y, start_y + ny)`.
pub struct Chunk {
    pub num: usize,
    pub x: usize,
    pub y: usize,
    pub nx: usize,
    pub ny: usize,
    pub start_x: usize,
    pub start_y: usize,
    pub buffer: Vec<u8>,
}

/// Start of segment `i` when an extent of `x` pixels is cut into `n`
/// segments of `x / n` pixels, the remainder going to the last segment.
pub open spec fn seg_start(x: int, n: int, i: int) -> int
    recommends
        n > 0,
{
    i * (x / n)
}

/// Length of segment `i` of the cut.
pub open spec fn seg_len(x: int, n: int, i: int) -> int
    recommends
        n > 0,
{
    x / n + if i == n - 1 {
        x % n
    } else {
        0
    }
}

/// Pixel column `p` falls in segment `i`.
pub open spec fn in_seg(x: int, n: int, i: int, p: int) -> bool {
    seg_start(x, n, i) <= p < seg_start(x, n, i) + seg_len(x, n, i)
}

/// Pixel `(px, py)` falls in the chunk at grid position `(i, j)` of an
/// `x` by `y` image cut into `cols` columns and `rows` rows.
pub open spec fn pixel_in_chunk(
    x: int,
    y: int,
    cols: int,
    rows: int,
    i: int,
    j: int,
    px: int,
    py: int,
) -> bool {
    in_seg(x, cols, i, px) && in_seg(y, rows, j, py)
}

/// Every segment of the one-dimensional cut lies inside the image extent.
pub proof fn lemma_seg_in_range(x: int, n: int, i: int)
    requires
        n > 0,
        x >= 0,
        0 <= i < n,
    ensures
        seg_start(x, n, i) >= 0,
        seg_start(x, n, i) + seg_len(x, n, i) <= x,
        0 <= seg_len(x, n, i) <= x,
        0 <= x / n <= x,
        0 <= x % n,
{
    let d = x / n;
    vstd::arithmetic::div_mod::lemma_fundamental_div_mod(x, n);
    vstd::arithmetic::div_mod::lemma_mod_division_less_than_divisor(x, n);
    vstd::arithmetic::div_mod::lemma_div_pos_is_pos(x, n);
    assert(i * d >= 0) by (nonlinear_arith)
        requires
            i >= 0,
            d >= 0,
    ;
    assert(d <= n * d) by (nonlinear_arith)
        requires
            d >= 0,
            n >= 1,
    ;
    if i == n - 1 {
        assert((n - 1) * d + d == n * d) by (nonlinear_arith);
    } else {
        assert(i * d + d <= (n - 1) * d) by (nonlinear_arith)
            requires
                i <= n - 2,
                d >= 0,
        ;
        assert((n - 1) * d <= n * d) by (nonlinear_arith)
            requires
                d >= 0,
        ;
    }
}

/// Every pixel column lies in some segment.
pub proof fn lemma_seg_exists(x: int, n: int, p: int)
    requires
        n > 0,
        0 <= p < x,
    ensures
        exists|i: int| 0 <= i < n && in_seg(x, n, i, p),
{
    let d = x / n;
    vstd::arithmetic::div_mod::lemma_fundamental_div_mod(x, n);
    vstd::arithmetic::div_mod::lemma_mod_division_less_than_divisor(x, n);
    vstd::arithmetic::div_mod::lemma_div_pos_is_pos(x, n);
    if d == 0 {
        // All the pixels belong to the last segment.
        assert(x == x % n) by (nonlinear_arith)
            requires
                x == n * (x / n) + x % n,
                x / n == 0,
        ;
        assert(in_seg(x, n, n - 1, p)) by (nonlinear_arith)
            requires
                d == 0,
                x == x % n,
                0 <= p < x,
                seg_start(x, n, n - 1) == (n - 1) * d,
                seg_len(x, n, n - 1) == d + x % n,
        ;
    } else {
        let k = p / d;
        vstd::arithmetic::div_mod::lemma_fundamental_div_mod(p, d);
        vstd::arithmetic::div_mod::lemma_mod_division_less_than_divisor(p, d);
        vstd::arithmetic::div_mod::lemma_div_pos_is_pos(p, d);
        if k >= n - 1 {
            assert(in_seg(x, n, n - 1, p)) by (nonlinear_arith)
                requires
                    d > 0,
                    k >= n - 1,
                    p == d * k + p % d,
                    0 <= p % d < d,
                    0 <= p < x,
                    x == n * d + x % n,
                    seg_start(x, n, n - 1) == (n - 1) * d,
                    seg_len(x, n, n - 1) == d + x % n,
            ;
        } else {
            assert(in_seg(x, n, k, p)) by (nonlinear_arith)
                requires
                    d > 0,
                    0 <= k < n - 1,
                    p == d * k + p % d,
                    0 <= p % d < d,
                    seg_start(x, n, k) == k * d,
                    seg_len(x, n, k) == d,
            ;
        }
    }
}

/// No pixel column lies in two segments.
pub proof fn lemma_seg_unique(x: int, n: int, i1: int, i2: int, p: int)
    requires
        n > 0,
        x >= 0,
        0 <= i1 < n,
        0 <= i2 < n,
        in_seg(x, n, i1, p),
        in_seg(x, n, i2, p),
    ensures
        i1 == i2,
{
    let d = x / n;
    vstd::arithmetic::div_mod::lemma_fundamental_div_mod(x, n);
    vstd::arithmetic::div_mod::lemma_mod_division_less_than_divisor(x, n);
    vstd::arithmetic::div_mod::lemma_div_pos_is_pos(x, n);
    if i1 < i2 {
        lemma_seg_disjoint(x, n, d, i1, i2, p);
    } else if i2 < i1 {
        lemma_seg_disjoint(x, n, d, i2, i1, p);
    }
}

/// A pixel column inside one segment lies below the start of every later
/// segment.
proof fn lemma_seg_disjoint(x: int, n: int, d: int, lo: int, hi: int, p: int)
    by (nonlinear_arith)
    requires
        n > 0,
        d == x / n,
        d >= 0,
        0 <= lo < hi < n,
        in_seg(x, n, lo, p),
    ensures
        !in_seg(x, n, hi, p),
{
    // Segment `lo` ends at or before `hi * d`, where segment `hi` starts.
    assert(seg_start(x, n, lo) + seg_len(x, n, lo) == lo * d + d);
    assert(lo * d + d <= hi * d);
}

/// The two-dimensional tiling law: every pixel of the image belongs to
/// exactly one chunk of the `cols` by `rows` grid — no gaps, no overlaps,
/// also when the image extents do not divide evenly.
pub proof fn lemma_chunks_partition(x: int, y: int, cols: int, rows: int, px: int, py: int)
    requires
        cols > 0,
        rows > 0,
        0 <= px < x,
        0 <= py < y,
    ensures
        exists|i: int, j: int|
            0 <= i < cols && 0 <= j < rows && pixel_in_chunk(x, y, cols, rows, i, j, px, py),
        forall|i1: int, j1: int, i2: int, j2: int|
            (0 <= i1 < cols && 0 <= j1 < rows && 0 <= i2 < cols && 0 <= j2 < rows
                && pixel_in_chunk(x, y, cols, rows, i1, j1, px, py) && pixel_in_chunk(
                x,
                y,
                cols,
                rows,
                i2,
                j2,
                px,
                py,
            )) ==> (i1 == i2 && j1 == j2),
{
    lemma_seg_exists(x, cols, px);
    lemma_seg_exists(y, rows, py);
    let i = choose|i: int| 0 <= i < cols && in_seg(x, cols, i, px);
    let j = choose|j: int| 0 <= j < rows && in_seg(y, rows, j, py);
    assert(pixel_in_chunk(x, y, cols, rows, i, j, px, py));
    assert forall|i1: int, j1: int, i2: int, j2: int|
        (0 <= i1 < cols && 0 <= j1 < rows && 0 <= i2 < cols && 0 <= j2 < rows && pixel_in_chunk(
            x,
            y,
            cols,
            rows,
            i1,
            j1,
            px,
            py,
        ) && pixel_in_chunk(x, y, cols, rows, i2, j2, px, py)) implies (i1 == i2 && j1 == j2) by {
        lemma_seg_unique(x, cols, i1, i2, px);
        lemma_seg_unique(y, rows, j1, j2, py);
    }
}

/// Byte offset of pixel `(px, py)` in the output framebuffer: the buffer is
/// row-major, four bytes per pixel, and vertically flipped (row 0 of the
/// buffer is the top scanline, pixel row 0 the bottom one).
pub open spec fn pixel_offset(x: int, y: int, px: int, py: int) -> int {
    ((y - py - 1) * x + px) * 4
}

/// Distinct pixels land at distinct framebuffer offsets, so chunks that
/// cover disjoint pixel sets write disjoint byte ranges.
pub proof fn lemma_pixel_offset_injective(x: int, y: int, px1: int, py1: int, px2: int, py2: int)
    by (nonlinear_arith)
    requires
        0 <= px1 < x,
        0 <= py1 < y,
        0 <= px2 < x,
        0 <= py2 < y,
        pixel_offset(x, y, px1, py1) == pixel_offset(x, y, px2, py2),
    ensures
        px1 == px2 && py1 == py2,
{
}

impl Chunk {
    /// The chunk at grid position `(i, j)` of an `x` by `y` image cut into
    /// `cols` columns and `rows` rows, with a zeroed pixel buffer.
    pub fn new(x: usize, y: usize, cols: usize, rows: usize, i: usize, j: usize) -> (c: Chunk)
        requires
            0 < cols <= 0x4000,
            0 < rows <= 0x4000,
            i < cols,
            j < rows,
            x <= 0x4000,
            y <= 0x4000,
        ensures
            c.x == x,
            c.y == y,
            c.num == j * cols + i,
            c.start_x == seg_start(x as int, cols as int, i as int),
            c.start_y == seg_start(y as int, rows as int, j as int),
            c.nx == seg_len(x as int, cols as int, i as int),
            c.ny == seg_len(y as int, rows as int, j as int),
            c.buffer.len() == c.nx * c.ny * 4,
            forall|k: int| 0 <= k < c.buffer.len() ==> c.buffer[k] == 0u8,
    {
        proof {
            lemma_seg_in_range(x as int, cols as int, i as int);
            lemma_seg_in_range(y as int, rows as int, j as int);
            assert(i as int * (x as int / cols as int) <= x as int);
            assert(j as int * (y as int / rows as int) <= y as int);
            assert(j * cols < rows * cols) by (nonlinear_arith)
                requires
                    j < rows,
                    cols > 0,
            ;
            assert(rows * cols <= 0x1000_0000) by (nonlinear_arith)
                requires
                    0 < rows <= 0x4000,
                    0 < cols <= 0x4000,
            ;
        }
        let dx = x / cols;
        let dy = y / rows;
        let nx = if i == cols - 1 {
            dx + x % cols
        } else {
            dx
        };
        let ny = if j == rows - 1 {
            dy + y % rows
        } else {
            dy
        };
        let start_x = i * dx;
        let start_y = j * dy;
        proof {
            assert(nx * ny <= 0x1000_0000) by (nonlinear_arith)
                requires
                    0 <= nx <= 0x4000,
                    0 <= ny <= 0x4000,
            ;
        }
        let len = nx * ny * 4;
        let mut buffer: Vec<u8> = Vec::new();
        let mut k: usize = 0;
        while k < len
            invariant
                buffer.len() == k,
                k <= len,
                forall|m: int| 0 <= m < k ==> buffer[m] == 0u8,
            decreases len - k,
        {
            buffer.push(0u8);
            k = k + 1;
        }
        Chunk { num: j * cols + i, x, y, nx, ny, start_x, start_y, buffer }
    }
}

} // verus!
