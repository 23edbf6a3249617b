//! The symbol matrix: function patterns, zig-zag data placement, masking and
//! the format and version information.
use vstd::prelude::*;

use crate::ECCLevel;
use crate::tables::spec_alignment_centres;
use crate::tables::alignment_centres;

verus! {

/// Flat index of the module at column `x`, row `y`.
pub open spec fn midx(size: int, x: int, y: int) -> int {
    y * size + x
}

/// Module side length of a version.
pub open spec fn spec_size(version: int) -> int {
    21 + 4 * (version - 1)
}

/// Whether the alignment centre pair `(cx, cy)` is kept: the three corners
/// that overlap the finder patterns are dropped.
pub open spec fn spec_align_keep(cx: u8, cy: u8, size: int) -> bool {
    !((cx == 6 && cy == 6) || (cx as int == size - 7 && cy == 6) || (cx == 6 && cy as int == size
        - 7))
}

/// The kept alignment centre pairs out of the first `k` of the
/// row-major pairing of the centre list with itself.
pub open spec fn spec_align_pairs_upto(cs: Seq<u8>, size: int, k: int) -> Seq<(u8, u8)>
    decreases k,
{
    if k <= 0 || cs.len() == 0 {
        Seq::empty()
    } else {
        let x = (k - 1) / cs.len() as int;
        let y = (k - 1) % cs.len() as int;
        spec_align_pairs_upto(cs, size, k - 1) + (if spec_align_keep(cs[x], cs[y], size) {
            seq![(cs[x], cs[y])]
        } else {
            Seq::empty()
        })
    }
}

/// All kept alignment centre pairs of a version.
pub open spec fn spec_align_pairs(version: int) -> Seq<(u8, u8)> {
    let cs = spec_alignment_centres(version);
    spec_align_pairs_upto(cs, spec_size(version), (cs.len() * cs.len()) as int)
}


/// Every kept alignment pair inherits the centre bounds: at least six from
/// the left and top, at least seven from the right and bottom.
pub proof fn lemma_align_pairs_bounds(version: int)
    requires
        1 <= version <= 40,
    ensures
        forall|i: int|
            0 <= i < spec_align_pairs(version).len() ==> {
                let p = #[trigger] spec_align_pairs(version)[i];
                6 <= p.0 as int <= spec_size(version) - 7 && 6 <= p.1 as int <= spec_size(
                    version,
                ) - 7
            },
{
    crate::tables::lemma_alignment_centres_bounds(version);
    let cs = spec_alignment_centres(version);
    lemma_align_pairs_upto_bounds(cs, spec_size(version), (cs.len() * cs.len()) as int);
}

proof fn lemma_align_pairs_upto_bounds(cs: Seq<u8>, size: int, k: int)
    requires
        k <= cs.len() * cs.len(),
        forall|i: int| 0 <= i < cs.len() ==> 6 <= #[trigger] cs[i] as int <= size - 7,
    ensures
        forall|i: int|
            0 <= i < spec_align_pairs_upto(cs, size, k).len() ==> {
                let p = #[trigger] spec_align_pairs_upto(cs, size, k)[i];
                6 <= p.0 as int <= size - 7 && 6 <= p.1 as int <= size - 7
            },
    decreases k,
{
    if k > 0 && cs.len() > 0 {
        lemma_align_pairs_upto_bounds(cs, size, k - 1);
        let ln = cs.len() as int;
        assert(0 <= (k - 1) / ln < ln && 0 <= (k - 1) % ln < ln) by (nonlinear_arith)
            requires
                1 <= k <= ln * ln,
                ln >= 1,
        ;
        let prev = spec_align_pairs_upto(cs, size, k - 1);
        let cur = spec_align_pairs_upto(cs, size, k);
        assert forall|i: int|
            0 <= i < cur.len() implies {
            let p = #[trigger] cur[i];
            6 <= p.0 as int <= size - 7 && 6 <= p.1 as int <= size - 7
        } by {
            if i < prev.len() {
                assert(cur[i] == prev[i]);
            } else {
                assert(cur[i] == (cs[(k - 1) / ln], cs[(k - 1) % ln]));
            }
        }
    }
}

/// Whether module `(x, y)` is reserved for function patterns or format and
/// version information; coordinates outside the symbol count as reserved.
pub open spec fn spec_reserved(version: int, x: int, y: int) -> bool {
    let size = spec_size(version);
    ||| x >= size
    ||| y >= size
    ||| x == 6
    ||| y == 6
    ||| (x < 9 && y < 9)
    ||| (x >= size - 8 && y < 9)
    ||| (x < 9 && y >= size - 8)
    ||| (version >= 7 && y < 6 && x >= size - 11)
    ||| (version >= 7 && x < 6 && y >= size - 11)
    ||| exists|i: int|
        0 <= i < spec_align_pairs(version).len() && {
            let p = #[trigger] spec_align_pairs(version)[i];
            p.0 - 2 <= x <= p.0 + 2 && p.1 - 2 <= y <= p.1 + 2
        }
}

/// The eight mask predicates on (row, column).
pub open spec fn spec_mask_at(mask: int, i: int, j: int) -> bool {
    if mask == 0 {
        (i + j) % 2 == 0
    } else if mask == 1 {
        i % 2 == 0
    } else if mask == 2 {
        j % 3 == 0
    } else if mask == 3 {
        (i + j) % 3 == 0
    } else if mask == 4 {
        ((i / 2) + (j / 3)) % 2 == 0
    } else if mask == 5 {
        ((i * j) % 2) + ((i * j) % 3) == 0
    } else if mask == 6 {
        (((i * j) % 2) + ((i * j) % 3)) % 2 == 0
    } else {
        (((i + j) % 2) + ((i * j) % 3)) % 2 == 0
    }
}

/// A generated symbol: the module matrix in row-major order, with the
/// version, level, chosen mask and the interleaved codewords it was built
/// from.
pub struct QRCode {
    data: Vec<u8>,
    mat: Vec<bool>,
    align_pat: Vec<(u8, u8)>,
    size: usize,
    version: u8,
    ecc: u8,
    mask: u8,
}

impl QRCode {
    pub closed spec fn wf(&self) -> bool {
        &&& 1 <= self.version <= 40
        &&& self.size == spec_size(self.version as int)
        &&& self.mat@.len() == self.size * self.size
        &&& self.align_pat@ == spec_align_pairs(self.version as int)
        &&& self.ecc < 4
        &&& self.mask < 8
    }

    /// The version the symbol was built at.
    pub closed spec fn spec_version(&self) -> u8 {
        self.version
    }

    /// The mask that was chosen.
    pub closed spec fn spec_mask(&self) -> u8 {
        self.mask
    }

    /// The module grid, row-major.
    pub closed spec fn view(&self) -> Seq<bool> {
        self.mat@
    }

    /// The interleaved codewords the symbol was built from.
    pub closed spec fn spec_data(&self) -> Seq<u8> {
        self.data@
    }

    /// The interleaved codewords the symbol was built from.
    pub fn codewords(&self) -> (r: &Vec<u8>)
        ensures
            r@ == self.spec_data(),
    {
        &self.data
    }

    /// Side length in modules.
    pub fn size(&self) -> (r: usize)
        requires
            self.wf(),
        ensures
            r == spec_size(self.spec_version() as int),
    {
        self.size
    }

    /// The version of the symbol.
    pub fn version(&self) -> (r: u8)
        ensures
            r == self.spec_version(),
    {
        self.version
    }

    /// The chosen mask index.
    pub fn mask(&self) -> (r: u8)
        ensures
            r == self.spec_mask(),
    {
        self.mask
    }

    /// Colour of the module at column `x`, row `y`; true is dark.
    pub fn module(&self, x: usize, y: usize) -> (r: bool)
        requires
            self.wf(),
            x < spec_size(self.spec_version() as int),
            y < spec_size(self.spec_version() as int),
        ensures
            r == self@[midx(spec_size(self.spec_version() as int), x as int, y as int)],
    {
        proof {
            lemma_midx_bounds(self.size as int, x as int, y as int);
            assert(self.mat.len() == self.mat@.len());
        }
        self.mat[y * self.size + x]
    }

    /// Whether the module at `(x, y)` is reserved.
    pub fn is_occupied(&self, x: usize, y: usize) -> (r: bool)
        requires
            self.wf(),
        ensures
            r == spec_reserved(self.spec_version() as int, x as int, y as int),
    {
        is_reserved_at(self.version, self.size, &self.align_pat, x, y)
    }
}

/// Flat index stays inside the grid.
proof fn lemma_midx_bounds(size: int, x: int, y: int)
    requires
        0 <= x < size,
        0 <= y < size,
    ensures
        0 <= y * size + x < size * size,
{
    assert(y * size + x < size * size) by (nonlinear_arith)
        requires
            0 <= x < size,
            0 <= y < size,
    ;
    assert(y * size + x >= 0) by (nonlinear_arith)
        requires
            0 <= x < size,
            0 <= y < size,
    ;
}

/// Whether the module at `(x, y)` of a version's symbol is reserved for
/// function patterns or format and version information.
pub fn module_reserved(version: u8, x: usize, y: usize) -> (r: bool)
    requires
        1 <= version <= 40,
    ensures
        r == spec_reserved(version as int, x as int, y as int),
{
    let pairs = align_pairs(version);
    let size = 21 + 4 * (version as usize - 1);
    is_reserved_at(version, size, &pairs, x, y)
}

/// Masking never touches a reserved module: the masked value of a function
/// module is its value before the mask.
pub proof fn lemma_mask_preserves_function_modules(
    mat: Seq<bool>,
    version: int,
    mask: int,
    x: int,
    y: int,
)
    requires
        spec_reserved(version, x, y),
    ensures
        spec_masked(mat, version, mask, x, y) == mat[midx(spec_size(version), x, y)],
{
}

/// The kept alignment centre pairs of a version.
pub fn align_pairs(version: u8) -> (r: Vec<(u8, u8)>)
    requires
        1 <= version <= 40,
    ensures
        r@ == spec_align_pairs(version as int),
{
    let centres = alignment_centres(version);
    let size = 21 + 4 * (version as usize - 1);
    let ghost cs = centres@;
    let n = centres.len();
    proof {
        assert(cs.len() <= 7);
        assert(n * n <= 49) by (nonlinear_arith)
            requires
                n <= 7,
        ;
    }
    let nn = n * n;
    let mut r: Vec<(u8, u8)> = Vec::new();
    let mut k: usize = 0;
    while k < nn
        invariant
            k <= nn,
            nn == n * n <= 49,
            n == cs.len(),
            n <= 7,
            1 <= version <= 40,
            centres@ == cs,
            size == spec_size(version as int),
            r@ == spec_align_pairs_upto(cs, size as int, k as int),
        decreases nn - k,
    {
        proof {
            assert(k / n < n) by (nonlinear_arith)
                requires
                    0 <= k < n * n,
                    n >= 1,
            ;
        }
        let x = k / n;
        let y = k % n;
        let px = centres[x];
        let py = centres[y];
        let keep = !((px == 6 && py == 6) || (px as usize == size - 7 && py == 6) || (px == 6
            && py as usize == size - 7));
        if keep {
            r.push((px, py));
        }
        proof {
            assert(r@ =~= spec_align_pairs_upto(cs, size as int, (k + 1) as int));
        }
        k = k + 1;
    }
    r
}

/// Whether `(x, y)` is reserved, testing against the kept alignment pairs.
fn is_reserved_at(version: u8, size: usize, pairs: &Vec<(u8, u8)>, x: usize, y: usize) -> (r:
    bool)
    requires
        1 <= version <= 40,
        size == spec_size(version as int),
        pairs@ == spec_align_pairs(version as int),
    ensures
        r == spec_reserved(version as int, x as int, y as int),
{
    if x >= size || y >= size {
        return true;
    }
    if x == 6 || y == 6 {
        return true;
    }
    if x < 9 && y < 9 {
        return true;
    }
    if x >= size - 8 && y < 9 {
        return true;
    }
    if x < 9 && y >= size - 8 {
        return true;
    }
    if version >= 7 {
        if y < 6 && x >= size - 11 {
            return true;
        }
        if x < 6 && y >= size - 11 {
            return true;
        }
    }
    let mut i: usize = 0;
    while i < pairs.len()
        invariant
            i <= pairs@.len(),
            x < size,
            y < size,
            1 <= version <= 40,
            size == spec_size(version as int),
            pairs@ == spec_align_pairs(version as int),
            forall|k: int|
                0 <= k < i ==> !{
                    let p = #[trigger] pairs@[k];
                    p.0 - 2 <= x <= p.0 + 2 && p.1 - 2 <= y <= p.1 + 2
                },
        decreases pairs@.len() - i,
    {
        let (px, py) = pairs[i];
        let pxu = px as usize;
        let pyu = py as usize;
        if (x + 2 >= pxu && x <= pxu + 2) && (y + 2 >= pyu && y <= pyu + 2) {
            return true;
        }
        i = i + 1;
    }
    false
}

/// Distinct coordinates have distinct flat indices.
proof fn lemma_midx_injective(size: int, x1: int, y1: int, x2: int, y2: int)
    requires
        0 <= x1 < size,
        0 <= x2 < size,
        0 <= y1,
        0 <= y2,
        !(x1 == x2 && y1 == y2),
    ensures
        midx(size, x1, y1) != midx(size, x2, y2),
{
    assert(y1 * size + x1 != y2 * size + x2) by (nonlinear_arith)
        requires
            0 <= x1 < size,
            0 <= x2 < size,
            0 <= y1,
            0 <= y2,
            !(x1 == x2 && y1 == y2),
    ;
}

/// Set the module at `(x, y)`; every other module keeps its colour.
fn set_bit(mat: &mut Vec<bool>, size: usize, x: usize, y: usize, v: bool)
    requires
        old(mat)@.len() == size * size,
        x < size,
        y < size,
    ensures
        final(mat)@.len() == size * size,
        final(mat)@[midx(size as int, x as int, y as int)] == v,
        forall|a: int, b: int|
            0 <= a < size && 0 <= b < size && !(a == x && b == y) ==> final(mat)@[midx(size as int, a, b)] == old(mat)@[midx(size as int, a, b)],
{
    proof {
        lemma_midx_bounds(size as int, x as int, y as int);
        assert(mat.len() == mat@.len());
    }
    mat.set(y * size + x, v);
    proof {
        assert forall|a: int, b: int|
            0 <= a < size && 0 <= b < size && !(a == x && b == y) implies mat@[midx(
            size as int,
            a,
            b,
        )] == old(mat)@[midx(size as int, a, b)] by {
            lemma_midx_injective(size as int, a, b, x as int, y as int);
            lemma_midx_bounds(size as int, a, b);
        }
    }
}

/// Dark modules of a seven-by-seven finder block, in block coordinates:
/// the outer border, the centre three-by-three square; the ring between
/// them stays light.
pub open spec fn spec_finder_dark(dx: int, dy: int) -> bool {
    !(((dy == 1 || dy == 5) && 1 <= dx <= 5) || ((dx == 1 || dx == 5) && 1 <= dy <= 5))
}

/// The module is a dark cell of one of the three finder patterns.
pub open spec fn spec_finder_cell(size: int, x: int, y: int) -> bool {
    ||| (0 <= x < 7 && 0 <= y < 7 && spec_finder_dark(x, y))
    ||| (0 <= x < 7 && size - 7 <= y < size && spec_finder_dark(x, y - (size - 7)))
    ||| (size - 7 <= x < size && 0 <= y < 7 && spec_finder_dark(x - (size - 7), y))
}

/// Draw the three finder patterns; their separators stay light. Exactly the
/// finder dark cells are set, everything else keeps its colour.
fn add_find_pattern(mat: &mut Vec<bool>, size: usize, version: u8)
    requires
        1 <= version <= 40,
        size == spec_size(version as int),
        old(mat)@.len() == size * size,
    ensures
        final(mat)@.len() == size * size,
        forall|x: int, y: int|
            0 <= x < size && 0 <= y < size && spec_finder_cell(size as int, x, y) ==> final(mat)@[midx(size as int, x, y)] == true,
        forall|x: int, y: int|
            0 <= x < size && 0 <= y < size && !spec_finder_cell(size as int, x, y) ==> final(mat)@[midx(size as int, x, y)] == old(mat)@[midx(size as int, x, y)],
{
    let ghost orig = mat@;
    let mut x: usize = 0;
    while x < 7
        invariant
            x <= 7,
            1 <= version <= 40,
            size == spec_size(version as int),
            mat@.len() == size * size,
            forall|a: int, b: int|
                0 <= a < 7 && 0 <= b < 7 && a < x && spec_finder_dark(a, b) ==> mat@[midx(
                    size as int,
                    a,
                    b,
                )] == true && mat@[midx(size as int, a, b + size - 7)] == true && mat@[midx(
                    size as int,
                    a + size - 7,
                    b,
                )] == true,
            forall|a: int, b: int|
                0 <= a < size && 0 <= b < size && !spec_finder_cell(size as int, a, b)
                    ==> mat@[midx(size as int, a, b)] == orig[midx(size as int, a, b)],
        decreases 7 - x,
    {
        let mut y: usize = 0;
        while y < 7
            invariant
                x < 7,
                y <= 7,
                1 <= version <= 40,
                size == spec_size(version as int),
                mat@.len() == size * size,
                forall|a: int, b: int|
                    0 <= a < 7 && 0 <= b < 7 && (a < x || (a == x && b < y)) && spec_finder_dark(
                        a,
                        b,
                    ) ==> mat@[midx(size as int, a, b)] == true && mat@[midx(
                        size as int,
                        a,
                        b + size - 7,
                    )] == true && mat@[midx(size as int, a + size - 7, b)] == true,
                forall|a: int, b: int|
                    0 <= a < size && 0 <= b < size && !spec_finder_cell(size as int, a, b)
                        ==> mat@[midx(size as int, a, b)] == orig[midx(size as int, a, b)],
            decreases 7 - y,
        {
            let ring = ((y == 1 || y == 5) && x >= 1 && x <= 5) || ((x == 1 || x == 5) && y >= 1
                && y <= 5);
            if !ring {
                set_bit(mat, size, x, y, true);
                set_bit(mat, size, x, y + size - 7, true);
                set_bit(mat, size, x + size - 7, y, true);
            }
            y = y + 1;
        }
        x = x + 1;
    }
}

/// The module lies on one of the two timing lines.
pub open spec fn spec_timing_cell(size: int, x: int, y: int) -> bool {
    (y == 6 && 8 <= x < size - 8) || (x == 6 && 8 <= y < size - 8)
}

/// Draw the two timing patterns: alternating, dark at even coordinates.
/// Exactly the timing modules are written, everything else keeps its
/// colour.
fn add_timing_pattern(mat: &mut Vec<bool>, size: usize, version: u8)
    requires
        1 <= version <= 40,
        size == spec_size(version as int),
        old(mat)@.len() == size * size,
    ensures
        final(mat)@.len() == size * size,
        forall|k: int|
            8 <= k < size - 8 ==> final(mat)@[midx(size as int, k, 6)] == (k % 2 == 0) && final(mat)@[midx(size as int, 6, k)] == (k % 2 == 0),
        forall|x: int, y: int|
            0 <= x < size && 0 <= y < size && !spec_timing_cell(size as int, x, y) ==> final(mat)@[midx(size as int, x, y)] == old(mat)@[midx(size as int, x, y)],
{
    let ghost orig = mat@;
    let mut x: usize = 8;
    while x < size - 8
        invariant
            8 <= x <= size - 8,
            1 <= version <= 40,
            size == spec_size(version as int),
            mat@.len() == size * size,
            forall|k: int|
                8 <= k < x ==> mat@[midx(size as int, k, 6)] == (k % 2 == 0) && mat@[midx(
                    size as int,
                    6,
                    k,
                )] == (k % 2 == 0),
            forall|a: int, b: int|
                0 <= a < size && 0 <= b < size && !spec_timing_cell(size as int, a, b)
                    ==> mat@[midx(size as int, a, b)] == orig[midx(size as int, a, b)],
        decreases size - x,
    {
        set_bit(mat, size, x, 6, x % 2 == 0);
        set_bit(mat, size, 6, x, x % 2 == 0);
        x = x + 1;
    }
}

/// A timing module that is dark: even coordinate along its line.
pub open spec fn spec_timing_dark(size: int, x: int, y: int) -> bool {
    spec_timing_cell(size, x, y) && (if y == 6 {
        x % 2 == 0
    } else {
        y % 2 == 0
    })
}

/// Dark modules of a five-by-five alignment marker, in marker coordinates:
/// the border and the centre; the ring between them stays light.
pub open spec fn spec_align_dark5(dx: int, dy: int) -> bool {
    !((dx == 1 || dx == 3) && 1 <= dy <= 3 || (dy == 1 || dy == 3) && 1 <= dx <= 3)
}

/// The module is a dark cell of some kept alignment marker.
pub open spec fn spec_align_cell(version: int, x: int, y: int) -> bool {
    exists|i: int|
        0 <= i < spec_align_pairs(version).len() && {
            let p = #[trigger] spec_align_pairs(version)[i];
            p.0 - 2 <= x <= p.0 + 2 && p.1 - 2 <= y <= p.1 + 2 && spec_align_dark5(
                x - (p.0 - 2),
                y - (p.1 - 2),
            )
        }
}

/// Colour of a module after the function patterns are drawn on an empty
/// matrix: dark exactly on the finder, timing and alignment dark cells.
pub open spec fn spec_function_color(version: int, x: int, y: int) -> bool {
    ||| spec_finder_cell(spec_size(version), x, y)
    ||| spec_timing_dark(spec_size(version), x, y)
    ||| spec_align_cell(version, x, y)
}

/// Draw the alignment patterns: the dark modules of each five-by-five
/// marker are set, everything else keeps its colour.
fn add_alignment_pattern(mat: &mut Vec<bool>, size: usize, version: u8, pairs: &Vec<(u8, u8)>)
    requires
        1 <= version <= 40,
        size == spec_size(version as int),
        pairs@ == spec_align_pairs(version as int),
        old(mat)@.len() == size * size,
    ensures
        final(mat)@.len() == size * size,
        forall|x: int, y: int|
            0 <= x < size && 0 <= y < size && spec_align_cell(version as int, x, y) ==> final(mat)@[midx(size as int, x, y)] == true,
        forall|x: int, y: int|
            0 <= x < size && 0 <= y < size && !spec_align_cell(version as int, x, y) ==> final(mat)@[midx(size as int, x, y)] == old(mat)@[midx(size as int, x, y)],
{
    proof {
        lemma_align_pairs_bounds(version as int);
    }
    let ghost orig = mat@;
    let mut i: usize = 0;
    while i < pairs.len()
        invariant
            i <= pairs@.len(),
            1 <= version <= 40,
            size == spec_size(version as int),
            pairs@ == spec_align_pairs(version as int),
            mat@.len() == size * size,
            forall|j: int|
                0 <= j < pairs@.len() ==> {
                    let p = #[trigger] pairs@[j];
                    6 <= p.0 as int <= size - 7 && 6 <= p.1 as int <= size - 7
                },
            forall|a: int, b: int, j: int|
                #![trigger pairs@[j], midx(size as int, a, b)]
                0 <= j < i && 0 <= a < size && 0 <= b < size && {
                    let p = pairs@[j];
                    p.0 - 2 <= a <= p.0 + 2 && p.1 - 2 <= b <= p.1 + 2 && spec_align_dark5(
                        a - (p.0 - 2),
                        b - (p.1 - 2),
                    )
                } ==> mat@[midx(size as int, a, b)] == true,
            forall|a: int, b: int|
                0 <= a < size && 0 <= b < size && !spec_align_cell(version as int, a, b)
                    ==> mat@[midx(size as int, a, b)] == orig[midx(size as int, a, b)],
        decreases pairs@.len() - i,
    {
        let (px, py) = pairs[i];
        let cx = px as usize;
        let cy = py as usize;
        let mut dx: usize = 0;
        while dx < 5
            invariant
                dx <= 5,
                i < pairs@.len(),
                pairs@[i as int] == (px, py),
                cx == px && cy == py,
                2 <= cx && cx + 2 < size,
                2 <= cy && cy + 2 < size,
                1 <= version <= 40,
                size == spec_size(version as int),
                pairs@ == spec_align_pairs(version as int),
                mat@.len() == size * size,
                forall|a: int, b: int, j: int|
                    #![trigger pairs@[j], midx(size as int, a, b)]
                    0 <= j < i && 0 <= a < size && 0 <= b < size && {
                        let p = pairs@[j];
                        p.0 - 2 <= a <= p.0 + 2 && p.1 - 2 <= b <= p.1 + 2 && spec_align_dark5(
                            a - (p.0 - 2),
                            b - (p.1 - 2),
                        )
                    } ==> mat@[midx(size as int, a, b)] == true,
                forall|da: int, db: int|
                    0 <= da < dx && 0 <= db < 5 && spec_align_dark5(da, db) ==> mat@[midx(
                        size as int,
                        cx - 2 + da,
                        cy - 2 + db,
                    )] == true,
                forall|a: int, b: int|
                    0 <= a < size && 0 <= b < size && !spec_align_cell(version as int, a, b)
                        ==> mat@[midx(size as int, a, b)] == orig[midx(size as int, a, b)],
            decreases 5 - dx,
        {
            let mut dy: usize = 0;
            while dy < 5
                invariant
                    dx < 5,
                    dy <= 5,
                    i < pairs@.len(),
                    pairs@[i as int] == (px, py),
                    cx == px && cy == py,
                    2 <= cx && cx + 2 < size,
                    2 <= cy && cy + 2 < size,
                    1 <= version <= 40,
                    size == spec_size(version as int),
                    pairs@ == spec_align_pairs(version as int),
                    mat@.len() == size * size,
                    forall|a: int, b: int, j: int|
                        #![trigger pairs@[j], midx(size as int, a, b)]
                        0 <= j < i && 0 <= a < size && 0 <= b < size && {
                            let p = pairs@[j];
                            p.0 - 2 <= a <= p.0 + 2 && p.1 - 2 <= b <= p.1 + 2
                                && spec_align_dark5(a - (p.0 - 2), b - (p.1 - 2))
                        } ==> mat@[midx(size as int, a, b)] == true,
                    forall|da: int, db: int|
                        0 <= da < 5 && 0 <= db < 5 && (da < dx || (da == dx && db < dy))
                            && spec_align_dark5(da, db) ==> mat@[midx(
                            size as int,
                            cx - 2 + da,
                            cy - 2 + db,
                        )] == true,
                    forall|a: int, b: int|
                        0 <= a < size && 0 <= b < size && !spec_align_cell(version as int, a, b)
                            ==> mat@[midx(size as int, a, b)] == orig[midx(size as int, a, b)],
                decreases 5 - dy,
            {
                // Dark on the border and at the centre; the middle ring
                // stays light.
                let ring = (dx == 1 || dx == 3) && 1 <= dy && dy <= 3 || (dy == 1 || dy == 3)
                    && 1 <= dx && dx <= 3;
                if !ring {
                    let x = cx + dx - 2;
                    let y = cy + dy - 2;
                    proof {
                        assert(spec_align_cell(version as int, x as int, y as int));
                    }
                    set_bit(mat, size, x, y, true);
                }
                dy = dy + 1;
            }
            dx = dx + 1;
        }
        i = i + 1;
    }
    proof {
        assert forall|x: int, y: int|
            0 <= x < size && 0 <= y < size && spec_align_cell(version as int, x, y) implies mat@[midx(
            size as int,
            x,
            y,
        )] == true by {
            let j = choose|j: int|
                0 <= j < spec_align_pairs(version as int).len() && {
                    let p = #[trigger] spec_align_pairs(version as int)[j];
                    p.0 - 2 <= x <= p.0 + 2 && p.1 - 2 <= y <= p.1 + 2 && spec_align_dark5(
                        x - (p.0 - 2),
                        y - (p.1 - 2),
                    )
                };
            assert(pairs@[j] == spec_align_pairs(version as int)[j]);
        }
    }
}

/// The columns the walk has fully placed once the strip at `col` is next:
/// everything right of `col`, except the timing column, which the walk
/// skips.
pub open spec fn spec_placed_cols(size: int, col: int, x: int) -> bool {
    col < x < size && x != 6
}

/// The placement order holds the module at `(x, y)`.
pub open spec fn spec_order_covers(order: Seq<(int, int)>, x: int, y: int) -> bool {
    exists|j: int| 0 <= j < order.len() && #[trigger] order[j] == (x, y)
}

/// Place the payload bits along the zig-zag walk: column strips right to
/// left, two modules wide, alternately upward and downward, skipping the
/// timing column and every reserved module. Bits beyond the payload leave
/// their modules light.
///
/// The returned ghost map counts the writes to each module and the usize is
/// the number of bits consumed: no module is written twice, no reserved
/// module is written at all, an unwritten module keeps its colour, and
/// unless the payload ran out first every data module is written exactly
/// once.
pub fn place_data(
    mat: &mut Vec<bool>,
    size: usize,
    version: u8,
    pairs: &Vec<(u8, u8)>,
    data: &Vec<u8>,
) -> (r: (Ghost<Map<(int, int), nat>>, Ghost<Seq<(int, int)>>, usize))
    requires
        1 <= version <= 40,
        size == spec_size(version as int),
        pairs@ == spec_align_pairs(version as int),
        old(mat)@.len() == size * size,
        data@.len() * 8 <= usize::MAX,
    ensures
        final(mat)@.len() == size * size,
        forall|x: int, y: int|
            0 <= x < size && 0 <= y < size && spec_reserved(version as int, x, y) ==> final(mat)@[midx(size as int, x, y)] == old(mat)@[midx(size as int, x, y)],
        forall|x: int, y: int| #[trigger] r.0@[(x, y)] <= 1,
        forall|x: int, y: int|
            spec_reserved(version as int, x, y) ==> #[trigger] r.0@[(x, y)] == 0,
        forall|x: int, y: int|
            0 <= x < size && 0 <= y < size && !spec_reserved(version as int, x, y)
                && #[trigger] r.0@[(x, y)] == 0 ==> final(mat)@[midx(size as int, x, y)] == old(mat)@[midx(size as int, x, y)],
        r.2 <= 8 * data@.len(),
        r.2 < 8 * data@.len() ==> forall|x: int, y: int|
            0 <= x < size && 0 <= y < size && !spec_reserved(version as int, x, y)
                ==> #[trigger] r.0@[(x, y)] == 1,
        r.1@.len() == r.2,
        forall|j: int|
            0 <= j < r.1@.len() ==> {
                let c = #[trigger] r.1@[j];
                &&& 0 <= c.0 < size
                &&& 0 <= c.1 < size
                &&& !spec_reserved(version as int, c.0, c.1)
                &&& final(mat)@[midx(size as int, c.0, c.1)] == crate::bitstream::byte_bit(
                    data@[j / 8],
                    j % 8,
                )
            },
        forall|j: int|
            0 <= j < r.1@.len() ==> r.0@[((#[trigger] r.1@[j]).0, r.1@[j].1)] == 1,
        forall|x: int, y: int|
            #[trigger] r.0@[(x, y)] == 1 ==> spec_order_covers(r.1@, x, y),
        forall|j1: int, j2: int|
            0 <= j1 < j2 < r.1@.len() ==> r.1@[j1] != r.1@[j2],
{
    let ghost orig = mat@;
    let total_bits = 8 * data.len();
    let mut col: usize = size - 1;
    let mut upward = true;
    let mut k: usize = 0;
    let ghost mut wc: Map<(int, int), nat> = Map::total(|c: (int, int)| 0nat);
    let ghost mut order: Seq<(int, int)> = Seq::empty();
    loop
        invariant_except_break
            1 <= col < size,
            col == 1 || col == 3 || col == 5 || (8 <= col && col % 2 == 0),
            forall|x: int, y: int|
                !spec_placed_cols(size as int, col as int, x) ==> #[trigger] wc[(x, y)] == 0,
            k < total_bits ==> forall|x: int, y: int|
                0 <= x < size && 0 <= y < size && spec_placed_cols(size as int, col as int, x)
                    && !spec_reserved(version as int, x, y) ==> #[trigger] wc[(x, y)] == 1,
        invariant
            1 <= version <= 40,
            size == spec_size(version as int),
            pairs@ == spec_align_pairs(version as int),
            mat@.len() == size * size,
            k <= total_bits,
            total_bits == 8 * data@.len(),
            order.len() == k,
            forall|j: int|
                0 <= j < order.len() ==> {
                    let c = #[trigger] order[j];
                    &&& 0 <= c.0 < size
                    &&& 0 <= c.1 < size
                    &&& !spec_reserved(version as int, c.0, c.1)
                    &&& wc[(c.0, c.1)] == 1
                    &&& mat@[midx(size as int, c.0, c.1)] == crate::bitstream::byte_bit(
                        data@[j / 8],
                        j % 8,
                    )
                },
            forall|x: int, y: int|
                #[trigger] wc[(x, y)] == 1 ==> spec_order_covers(order, x, y),
            forall|j1: int, j2: int| 0 <= j1 < j2 < order.len() ==> order[j1] != order[j2],
            forall|x: int, y: int|
                0 <= x < size && 0 <= y < size && spec_reserved(version as int, x, y)
                    ==> mat@[midx(size as int, x, y)] == orig[midx(size as int, x, y)],
            forall|x: int, y: int| #[trigger] wc[(x, y)] <= 1,
            forall|x: int, y: int|
                spec_reserved(version as int, x, y) ==> #[trigger] wc[(x, y)] == 0,
            forall|x: int, y: int|
                0 <= x < size && 0 <= y < size && !spec_reserved(version as int, x, y)
                    && #[trigger] wc[(x, y)] == 0 ==> mat@[midx(size as int, x, y)] == orig[midx(
                    size as int,
                    x,
                    y,
                )],
        ensures
            k <= total_bits,
            k < total_bits ==> forall|x: int, y: int|
                0 <= x < size && 0 <= y < size && !spec_reserved(version as int, x, y)
                    ==> #[trigger] wc[(x, y)] == 1,
        decreases col,
    {
        let mut step: usize = 0;
        while step < size
            invariant
                step <= size,
                1 <= col < size,
                col == 1 || col == 3 || col == 5 || (8 <= col && col % 2 == 0),
                1 <= version <= 40,
                size == spec_size(version as int),
                pairs@ == spec_align_pairs(version as int),
                mat@.len() == size * size,
                k <= total_bits,
                total_bits == 8 * data@.len(),
                order.len() == k,
                forall|j: int|
                    0 <= j < order.len() ==> {
                        let c = #[trigger] order[j];
                        &&& 0 <= c.0 < size
                        &&& 0 <= c.1 < size
                        &&& !spec_reserved(version as int, c.0, c.1)
                        &&& wc[(c.0, c.1)] == 1
                        &&& mat@[midx(size as int, c.0, c.1)] == crate::bitstream::byte_bit(
                                data@[j / 8],
                                j % 8,
                        )
                    },
                forall|x: int, y: int|
                    #[trigger] wc[(x, y)] == 1 ==> spec_order_covers(order, x, y),
                forall|j1: int, j2: int| 0 <= j1 < j2 < order.len() ==> order[j1] != order[j2],

                forall|x: int, y: int|
                    0 <= x < size && 0 <= y < size && spec_reserved(version as int, x, y)
                        ==> mat@[midx(size as int, x, y)] == orig[midx(size as int, x, y)],
                forall|x: int, y: int| #[trigger] wc[(x, y)] <= 1,
                forall|x: int, y: int|
                    spec_reserved(version as int, x, y) ==> #[trigger] wc[(x, y)] == 0,
                forall|x: int, y: int|
                    !spec_placed_cols(size as int, col as int, x) && !((x == col || x == col - 1)
                        && (if upward {
                        y >= size - step
                    } else {
                        0 <= y < step
                    })) ==> #[trigger] wc[(x, y)] == 0,
                forall|x: int, y: int|
                    0 <= x < size && 0 <= y < size && !spec_reserved(version as int, x, y)
                        && #[trigger] wc[(x, y)] == 0 ==> mat@[midx(size as int, x, y)]
                        == orig[midx(size as int, x, y)],
                k < total_bits ==> forall|x: int, y: int|
                    0 <= x < size && 0 <= y < size && (spec_placed_cols(size as int, col as int, x)
                        || ((x == col || x == col - 1) && (if upward {
                        y >= size - step
                    } else {
                        0 <= y < step
                    }))) && !spec_reserved(version as int, x, y) ==> #[trigger] wc[(x, y)] == 1,
            decreases size - step,
        {
            let y = if upward {
                size - 1 - step
            } else {
                step
            };
            if k < total_bits && !is_reserved_at(version, size, pairs, col, y) {
                let byte = data[k / 8];
                let bit = (byte >> ((7 - k % 8) as u8)) & 1 == 1;
                set_bit(mat, size, col, y, bit);
                proof {
                    let c = (col as int, y as int);
                    let old_wc = wc;
                    let old_order = order;
                    assert(old_wc[c] == 0);
                    assert forall|j: int| 0 <= j < old_order.len() implies #[trigger] old_order[j]
                        != c by {
                        assert(old_wc[(old_order[j].0, old_order[j].1)] == 1);
                    }
                    wc = wc.insert(c, 1nat);
                    order = order.push(c);
                    assert(bit == crate::bitstream::byte_bit(data@[k as int / 8], k as int % 8));
                    assert forall|x0: int, y0: int| #[trigger] wc[(x0, y0)] == 1 implies spec_order_covers(
                        order,
                        x0,
                        y0,
                    ) by {
                        if (x0, y0) == c {
                            assert(order[order.len() - 1] == (x0, y0));
                        } else {
                            assert(old_wc[(x0, y0)] == 1);
                            assert(spec_order_covers(old_order, x0, y0));
                            let j0 = choose|j0: int|
                                0 <= j0 < old_order.len() && #[trigger] old_order[j0] == (x0, y0);
                            assert(order[j0] == (x0, y0));
                        }
                    }
                }
                k = k + 1;
            }
            if k < total_bits && !is_reserved_at(version, size, pairs, col - 1, y) {
                let byte = data[k / 8];
                let bit = (byte >> ((7 - k % 8) as u8)) & 1 == 1;
                set_bit(mat, size, col - 1, y, bit);
                proof {
                    let c = (col as int - 1, y as int);
                    let old_wc = wc;
                    let old_order = order;
                    assert(old_wc[c] == 0);
                    assert forall|j: int| 0 <= j < old_order.len() implies #[trigger] old_order[j]
                        != c by {
                        assert(old_wc[(old_order[j].0, old_order[j].1)] == 1);
                    }
                    wc = wc.insert(c, 1nat);
                    order = order.push(c);
                    assert(bit == crate::bitstream::byte_bit(data@[k as int / 8], k as int % 8));
                    assert forall|x0: int, y0: int| #[trigger] wc[(x0, y0)] == 1 implies spec_order_covers(
                        order,
                        x0,
                        y0,
                    ) by {
                        if (x0, y0) == c {
                            assert(order[order.len() - 1] == (x0, y0));
                        } else {
                            assert(old_wc[(x0, y0)] == 1);
                            assert(spec_order_covers(old_order, x0, y0));
                            let j0 = choose|j0: int|
                                0 <= j0 < old_order.len() && #[trigger] old_order[j0] == (x0, y0);
                            assert(order[j0] == (x0, y0));
                        }
                    }
                }
                k = k + 1;
            }
            step = step + 1;
        }
        upward = !upward;
        if col == 1 {
            proof {
                assert forall|x: int, y: int|
                    0 <= x < size && 0 <= y < size && !spec_reserved(version as int, x, y) && k
                        < total_bits implies #[trigger] wc[(x, y)] == 1 by {
                    if !spec_placed_cols(size as int, 1, x) {
                        assert(x == 0 || x == 1 || x == 6);
                    }
                }
            }
            break;
        }
        let next = col - 2;
        col = if next == 6 {
            5
        } else {
            next
        };
    }
    (Ghost(wc), Ghost(order), k)
}

/// Evaluate mask `mask` at row `i`, column `j`.
fn mask_at(mask: u8, i: usize, j: usize) -> (r: bool)
    requires
        mask < 8,
        i < 1000,
        j < 1000,
    ensures
        r == spec_mask_at(mask as int, i as int, j as int),
{
    proof {
        assert(i * j < 1000000) by (nonlinear_arith)
            requires
                i < 1000,
                j < 1000,
        ;
    }
    if mask == 0 {
        (i + j) % 2 == 0
    } else if mask == 1 {
        i % 2 == 0
    } else if mask == 2 {
        j % 3 == 0
    } else if mask == 3 {
        (i + j) % 3 == 0
    } else if mask == 4 {
        ((i / 2) + (j / 3)) % 2 == 0
    } else if mask == 5 {
        ((i * j) % 2) + ((i * j) % 3) == 0
    } else if mask == 6 {
        (((i * j) % 2) + ((i * j) % 3)) % 2 == 0
    } else {
        (((i + j) % 2) + ((i * j) % 3)) % 2 == 0
    }
}

/// A module of a row under `y` sits below that row's flat indices.
proof fn lemma_midx_lt_row(size: int, a: int, b: int, y: int)
    requires
        0 <= a < size,
        0 <= b < y,
    ensures
        0 <= midx(size, a, b) < y * size,
{
    assert(0 <= b * size + a < y * size) by (nonlinear_arith)
        requires
            0 <= a < size,
            0 <= b < y,
    ;
}

/// The matrix with mask `mask` applied: every data module is XORed with the
/// mask predicate, every reserved module keeps its colour.
pub open spec fn spec_masked(
    mat: Seq<bool>,
    version: int,
    mask: int,
    x: int,
    y: int,
) -> bool {
    let size = spec_size(version);
    if spec_reserved(version, x, y) {
        mat[midx(size, x, y)]
    } else {
        mat[midx(size, x, y)] ^ spec_mask_at(mask, y, x)
    }
}

/// Apply a mask to the data modules, leaving function modules alone.
fn apply_mask(
    mat: &Vec<bool>,
    size: usize,
    version: u8,
    pairs: &Vec<(u8, u8)>,
    mask: u8,
) -> (r: Vec<bool>)
    requires
        1 <= version <= 40,
        size == spec_size(version as int),
        pairs@ == spec_align_pairs(version as int),
        mat@.len() == size * size,
        mask < 8,
    ensures
        r@.len() == size * size,
        forall|x: int, y: int|
            0 <= x < size && 0 <= y < size ==> r@[midx(size as int, x, y)] == spec_masked(
                mat@,
                version as int,
                mask as int,
                x,
                y,
            ),
        r@ == spec_masked_seq(mat@, version as int, mask as int),
{
    let mut r: Vec<bool> = Vec::new();
    let mut y: usize = 0;
    while y < size
        invariant
            y <= size,
            1 <= version <= 40,
            size == spec_size(version as int),
            pairs@ == spec_align_pairs(version as int),
            mat@.len() == size * size,
            mask < 8,
            r@.len() == y * size,
            forall|a: int, b: int|
                0 <= a < size && 0 <= b < y ==> r@[midx(size as int, a, b)] == spec_masked(
                    mat@,
                    version as int,
                    mask as int,
                    a,
                    b,
                ),
        decreases size - y,
    {
        let mut x: usize = 0;
        while x < size
            invariant
                x <= size,
                y < size,
                1 <= version <= 40,
                size == spec_size(version as int),
                pairs@ == spec_align_pairs(version as int),
                mat@.len() == size * size,
                mask < 8,
                r@.len() == y * size + x,
                forall|a: int, b: int|
                    0 <= a < size && 0 <= b < y ==> r@[midx(size as int, a, b)] == spec_masked(
                        mat@,
                        version as int,
                        mask as int,
                        a,
                        b,
                    ),
                forall|a: int|
                    0 <= a < x ==> r@[midx(size as int, a, y as int)] == spec_masked(
                        mat@,
                        version as int,
                        mask as int,
                        a,
                        y as int,
                    ),
            decreases size - x,
        {
            proof {
                lemma_midx_bounds(size as int, x as int, y as int);
                assert(mat.len() == mat@.len());
            }
            let cell = mat[y * size + x];
            let v = if is_reserved_at(version, size, pairs, x, y) {
                cell
            } else {
                cell != mask_at(mask, y, x)
            };
            r.push(v);
            proof {
                assert forall|a: int, b: int|
                    0 <= a < size && 0 <= b < y implies r@[midx(size as int, a, b)]
                    == spec_masked(mat@, version as int, mask as int, a, b) by {
                    lemma_midx_lt_row(size as int, a, b, y as int);
                }
                assert forall|a: int|
                    0 <= a < x + 1 implies r@[midx(size as int, a, y as int)] == spec_masked(
                    mat@,
                    version as int,
                    mask as int,
                    a,
                    y as int,
                ) by {
                    assert(midx(size as int, a, y as int) == y * size + a);
                }
            }
            x = x + 1;
        }
        proof {
            assert((y + 1) * size == y * size + size) by (nonlinear_arith);
            assert forall|a: int, b: int|
                0 <= a < size && 0 <= b < y + 1 implies r@[midx(size as int, a, b)]
                == spec_masked(mat@, version as int, mask as int, a, b) by {
                lemma_midx_lt_row(size as int, a, b, (y + 1) as int);
            }
        }
        y = y + 1;
    }
    proof {
        let sz = size as int;
        assert forall|idx: int| 0 <= idx < sz * sz implies r@[idx] == spec_masked(
            mat@,
            version as int,
            mask as int,
            idx % sz,
            idx / sz,
        ) by {
            let xx = idx % sz;
            let yy = idx / sz;
            vstd::arithmetic::div_mod::lemma_fundamental_div_mod(idx, sz);
            assert(0 <= xx < sz && 0 <= yy < sz) by (nonlinear_arith)
                requires
                    0 <= idx < sz * sz,
                    sz >= 1,
                    xx == idx % sz,
                    yy == idx / sz,
            ;
            assert(midx(sz, xx, yy) == idx);
        }
        assert(r@ =~= spec_masked_seq(mat@, version as int, mask as int));
    }
    r
}

/// Colour at `(x, y)` of a flat matrix.
fn cell_at(mat: &Vec<bool>, size: usize, x: usize, y: usize) -> (r: bool)
    requires
        mat@.len() == size * size,
        x < size,
        y < size,
    ensures
        r == mat@[midx(size as int, x as int, y as int)],
{
    proof {
        lemma_midx_bounds(size as int, x as int, y as int);
        assert(mat.len() == mat@.len());
    }
    mat[y * size + x]
}


/// Colour of the module at `(x, y)` of a flat matrix.
pub open spec fn spec_cell(mat: Seq<bool>, size: int, x: int, y: int) -> bool {
    mat[midx(size, x, y)]
}

/// Length of the same-colour run that ends at column `j` of row `y`
/// (`transposed` swaps the roles of rows and columns).
pub open spec fn spec_run_ending(
    mat: Seq<bool>,
    size: int,
    y: int,
    j: int,
    transposed: bool,
) -> int
    decreases j,
{
    if j <= 0 {
        1
    } else if spec_line_cell(mat, size, y, j, transposed) == spec_line_cell(
        mat,
        size,
        y,
        j - 1,
        transposed,
    ) {
        1 + spec_run_ending(mat, size, y, j - 1, transposed)
    } else {
        1
    }
}

/// Cell `j` of line `y`: a row when `transposed` is false, else a column.
pub open spec fn spec_line_cell(
    mat: Seq<bool>,
    size: int,
    y: int,
    j: int,
    transposed: bool,
) -> bool {
    if transposed {
        spec_cell(mat, size, y, j)
    } else {
        spec_cell(mat, size, j, y)
    }
}

/// Score of one finished run: length minus two from five on.
pub open spec fn spec_run_score(l: int) -> int {
    if l >= 5 {
        l - 2
    } else {
        0
    }
}

/// Run scores of line `y` from the runs that end strictly before cell `x`.
pub open spec fn spec_line_runs_upto(
    mat: Seq<bool>,
    size: int,
    y: int,
    x: int,
    transposed: bool,
) -> int
    decreases x,
{
    if x <= 1 {
        0
    } else {
        spec_line_runs_upto(mat, size, y, x - 1, transposed) + (if spec_line_cell(
            mat,
            size,
            y,
            x - 1,
            transposed,
        ) != spec_line_cell(mat, size, y, x - 2, transposed) {
            spec_run_score(spec_run_ending(mat, size, y, x - 2, transposed))
        } else {
            0
        })
    }
}

/// Rule one score of one whole line.
pub open spec fn spec_line_pen(mat: Seq<bool>, size: int, y: int, transposed: bool) -> int {
    spec_line_runs_upto(mat, size, y, size, transposed) + spec_run_score(
        spec_run_ending(mat, size, y, size - 1, transposed),
    )
}

/// Rule one score of the first `upto` lines.
pub open spec fn spec_lines_pen(mat: Seq<bool>, size: int, upto: int, transposed: bool) -> int
    decreases upto,
{
    if upto <= 0 {
        0
    } else {
        spec_lines_pen(mat, size, upto - 1, transposed) + spec_line_pen(
            mat,
            size,
            upto - 1,
            transposed,
        )
    }
}

/// Rule two score of one two-by-two block.
pub open spec fn spec_block_score(mat: Seq<bool>, size: int, x: int, y: int) -> int {
    if spec_cell(mat, size, x, y) == spec_cell(mat, size, x + 1, y) && spec_cell(mat, size, x, y)
        == spec_cell(mat, size, x, y + 1) && spec_cell(mat, size, x, y) == spec_cell(
        mat,
        size,
        x + 1,
        y + 1,
    ) {
        3
    } else {
        0
    }
}

/// Rule two score of the first `x` blocks of block row `y`.
pub open spec fn spec_blocks_row_upto(mat: Seq<bool>, size: int, y: int, x: int) -> int
    decreases x,
{
    if x <= 0 {
        0
    } else {
        spec_blocks_row_upto(mat, size, y, x - 1) + spec_block_score(mat, size, x - 1, y)
    }
}

/// Rule two score of the first `upto` block rows.
pub open spec fn spec_blocks_pen(mat: Seq<bool>, size: int, upto: int) -> int
    decreases upto,
{
    if upto <= 0 {
        0
    } else {
        spec_blocks_pen(mat, size, upto - 1) + spec_blocks_row_upto(mat, size, upto - 1, size - 1)
    }
}

/// The dark-light pattern of rule three, read forward.
pub open spec fn spec_finder_fwd(k: int) -> bool {
    k == 0 || k == 2 || k == 3 || k == 4 || k == 6
}

/// The same pattern read backward.
pub open spec fn spec_finder_rev(k: int) -> bool {
    k == 4 || k == 6 || k == 7 || k == 8 || k == 10
}

/// Whether the eleven cells of line `y` starting at `x` match the pattern
/// in either direction.
pub open spec fn spec_finder_at(
    mat: Seq<bool>,
    size: int,
    y: int,
    x: int,
    transposed: bool,
) -> bool {
    (forall|k: int|
        0 <= k < 11 ==> spec_line_cell(mat, size, y, x + k, transposed) == spec_finder_fwd(k))
        || (forall|k: int|
        0 <= k < 11 ==> spec_line_cell(mat, size, y, x + k, transposed) == spec_finder_rev(k))
}

/// Rule three score of line `y` over windows starting before `x`.
pub open spec fn spec_finder_line_upto(
    mat: Seq<bool>,
    size: int,
    y: int,
    x: int,
    transposed: bool,
) -> int
    decreases x,
{
    if x <= 0 {
        0
    } else {
        spec_finder_line_upto(mat, size, y, x - 1, transposed) + (if spec_finder_at(
            mat,
            size,
            y,
            x - 1,
            transposed,
        ) {
            40int
        } else {
            0int
        })
    }
}

/// Rule three score of the first `upto` lines.
pub open spec fn spec_finder_pen(mat: Seq<bool>, size: int, upto: int, transposed: bool) -> int
    decreases upto,
{
    if upto <= 0 {
        0
    } else {
        spec_finder_pen(mat, size, upto - 1, transposed) + spec_finder_line_upto(
            mat,
            size,
            upto - 1,
            size - 10,
            transposed,
        )
    }
}

/// Dark modules of the first `x` cells of row `y`.
pub open spec fn spec_dark_row_upto(mat: Seq<bool>, size: int, y: int, x: int) -> int
    decreases x,
{
    if x <= 0 {
        0
    } else {
        spec_dark_row_upto(mat, size, y, x - 1) + (if spec_cell(mat, size, x - 1, y) {
            1int
        } else {
            0int
        })
    }
}

/// Dark modules of the first `upto` rows.
pub open spec fn spec_dark_count(mat: Seq<bool>, size: int, upto: int) -> int
    decreases upto,
{
    if upto <= 0 {
        0
    } else {
        spec_dark_count(mat, size, upto - 1) + spec_dark_row_upto(mat, size, upto - 1, size)
    }
}

/// Rule four score: ten points per five percent of imbalance.
pub open spec fn spec_balance_pen(mat: Seq<bool>, size: int) -> int {
    let dark = spec_dark_count(mat, size, size);
    let total = size * size;
    let diff = if 20 * dark >= 10 * total {
        20 * dark - 10 * total
    } else {
        10 * total - 20 * dark
    };
    10 * (diff / total)
}

/// Total penalty of a matrix: the four mask evaluation rules.
pub open spec fn spec_penalty(mat: Seq<bool>, size: int) -> int {
    spec_lines_pen(mat, size, size, false) + spec_lines_pen(mat, size, size, true)
        + spec_blocks_pen(mat, size, size - 1) + spec_finder_pen(mat, size, size, false)
        + spec_finder_pen(mat, size, size, true) + spec_balance_pen(mat, size)
}

/// The whole matrix under a mask.
pub open spec fn spec_masked_seq(mat: Seq<bool>, version: int, mask: int) -> Seq<bool> {
    let size = spec_size(version);
    Seq::new((size * size) as nat, |idx: int| spec_masked(mat, version, mask, idx % size, idx / size))
}

/// Penalty rule one: every run of five or more same-coloured modules in a
/// row or column scores its length minus two.
fn penalty_runs(mat: &Vec<bool>, size: usize) -> (r: usize)
    requires
        mat@.len() == size * size,
        21 <= size <= 177,
    ensures
        r == spec_lines_pen(mat@, size as int, size as int, false) + spec_lines_pen(
            mat@,
            size as int,
            size as int,
            true,
        ),
        r <= 160000,
{
    let mut pen: usize = 0;
    let mut tpass: usize = 0;
    while tpass < 2
        invariant
            tpass <= 2,
            21 <= size <= 177,
            mat@.len() == size * size,
            pen <= 80000 * tpass,
            tpass == 0 ==> pen == 0,
            tpass == 1 ==> pen == spec_lines_pen(mat@, size as int, size as int, false),
            tpass == 2 ==> pen == spec_lines_pen(mat@, size as int, size as int, false)
                + spec_lines_pen(mat@, size as int, size as int, true),
        decreases 2 - tpass,
    {
        let transposed = tpass == 1;
        let ghost base = pen as int;
        let mut y: usize = 0;
        while y < size
            invariant
                y <= size,
                21 <= size <= 177,
                mat@.len() == size * size,
                tpass <= 1,
                pen <= 80000 * tpass + 400 * y,
                pen == base + spec_lines_pen(mat@, size as int, y as int, transposed),
                transposed == (tpass == 1),
                base <= 80000 * tpass,
                base == pen - spec_lines_pen(mat@, size as int, y as int, transposed),
            decreases size - y,
        {
            let mut run: usize = 1;
            let mut x: usize = 1;
            while x < size
                invariant
                    1 <= x <= size,
                    y < size,
                    21 <= size <= 177,
                    1 <= run <= x,
                    mat@.len() == size * size,
                    transposed == (tpass == 1),
                    run == spec_run_ending(mat@, size as int, y as int, x - 1, transposed),
                    pen == base + spec_lines_pen(mat@, size as int, y as int, transposed)
                        + spec_line_runs_upto(mat@, size as int, y as int, x as int, transposed),
                    tpass <= 1,
                    base <= 80000 * tpass,
                    base == pen - spec_lines_pen(mat@, size as int, y as int, transposed)
                        - spec_line_runs_upto(mat@, size as int, y as int, x as int, transposed),
                    pen + run <= 80000 * tpass + 400 * y + x,
                decreases size - x,
            {
                let ca = if transposed {
                    cell_at(mat, size, y, x)
                } else {
                    cell_at(mat, size, x, y)
                };
                let cb = if transposed {
                    cell_at(mat, size, y, x - 1)
                } else {
                    cell_at(mat, size, x - 1, y)
                };
                if ca == cb {
                    run = run + 1;
                } else {
                    if run >= 5 {
                        pen = pen + (run - 2);
                    }
                    run = 1;
                }
                x = x + 1;
            }
            if run >= 5 {
                pen = pen + (run - 2);
            }
            y = y + 1;
        }
        tpass = tpass + 1;
    }
    pen
}

/// Penalty rule two: every two-by-two block of one colour scores three.
fn penalty_blocks(mat: &Vec<bool>, size: usize) -> (r: usize)
    requires
        mat@.len() == size * size,
        21 <= size <= 177,
    ensures
        r == spec_blocks_pen(mat@, size as int, size - 1),
        r <= 93987,
{
    let mut pen: usize = 0;
    let mut y: usize = 0;
    while y < size - 1
        invariant
            y <= size - 1,
            21 <= size <= 177,
            mat@.len() == size * size,
            pen <= 531 * y,
            pen == spec_blocks_pen(mat@, size as int, y as int),
        decreases size - y,
    {
        let mut x: usize = 0;
        while x < size - 1
            invariant
                x <= size - 1,
                y < size - 1,
                21 <= size <= 177,
                mat@.len() == size * size,
                pen <= 531 * y + 3 * x,
                pen == spec_blocks_pen(mat@, size as int, y as int) + spec_blocks_row_upto(
                    mat@,
                    size as int,
                    y as int,
                    x as int,
                ),
            decreases size - x,
        {
            let c = cell_at(mat, size, x, y);
            if cell_at(mat, size, x + 1, y) == c && cell_at(mat, size, x, y + 1) == c && cell_at(
                mat,
                size,
                x + 1,
                y + 1,
            ) == c {
                pen = pen + 3;
            }
            x = x + 1;
        }
        y = y + 1;
    }
    pen
}

/// Whether the eleven modules starting at `(x, y)` along a row
/// (or column when `vertical`) read as a finder-like pattern, in either
/// direction.
fn finder_pattern_at(mat: &Vec<bool>, size: usize, x: usize, y: usize, vertical: bool) -> (r:
    bool)
    requires
        mat@.len() == size * size,
        size <= 177,
        !vertical ==> x + 11 <= size && y < size,
        vertical ==> y + 11 <= size && x < size,
    ensures
        !vertical ==> r == spec_finder_at(mat@, size as int, y as int, x as int, false),
        vertical ==> r == spec_finder_at(mat@, size as int, x as int, y as int, true),
{
    let ghost line: int = if vertical { x as int } else { y as int };
    let ghost at: int = if vertical { y as int } else { x as int };
    let mut fwd = true;
    let mut rev = true;
    let mut k: usize = 0;
    while k < 11
        invariant
            k <= 11,
            mat@.len() == size * size,
            size <= 177,
            !vertical ==> x + 11 <= size && y < size,
            vertical ==> y + 11 <= size && x < size,
            line == if vertical { x as int } else { y as int },
            at == if vertical { y as int } else { x as int },
            fwd == forall|j: int|
                0 <= j < k ==> spec_line_cell(mat@, size as int, line, at + j, vertical)
                    == spec_finder_fwd(j),
            rev == forall|j: int|
                0 <= j < k ==> spec_line_cell(mat@, size as int, line, at + j, vertical)
                    == spec_finder_rev(j),
        decreases 11 - k,
    {
        let c = if vertical {
            cell_at(mat, size, x, y + k)
        } else {
            cell_at(mat, size, x + k, y)
        };
        // 1011101 0000 forward; 0000 1011101 reversed.
        let pat_fwd = k == 0 || k == 2 || k == 3 || k == 4 || k == 6;
        let pat_rev = k == 4 || k == 6 || k == 7 || k == 8 || k == 10;
        proof {
            assert(spec_line_cell(mat@, size as int, line, at + k, vertical) == c);
            assert(pat_fwd == spec_finder_fwd(k as int));
            assert(pat_rev == spec_finder_rev(k as int));
        }
        let ghost fwd_before = fwd;
        let ghost rev_before = rev;
        if c != pat_fwd {
            fwd = false;
        }
        if c != pat_rev {
            rev = false;
        }
        proof {
            if fwd {
                assert forall|j: int|
                    0 <= j < k + 1 implies spec_line_cell(mat@, size as int, line, at + j, vertical)
                    == spec_finder_fwd(j) by {}
            } else {
                if fwd_before {
                    assert(spec_line_cell(mat@, size as int, line, at + k, vertical)
                        != spec_finder_fwd(k as int));
                } else {
                    let j = choose|j: int|
                        0 <= j < k && spec_line_cell(mat@, size as int, line, at + j, vertical)
                            != spec_finder_fwd(j);
                    assert(spec_line_cell(mat@, size as int, line, at + j, vertical)
                        != spec_finder_fwd(j));
                }
            }
            if rev {
                assert forall|j: int|
                    0 <= j < k + 1 implies spec_line_cell(mat@, size as int, line, at + j, vertical)
                    == spec_finder_rev(j) by {}
            } else {
                if rev_before {
                    assert(spec_line_cell(mat@, size as int, line, at + k, vertical)
                        != spec_finder_rev(k as int));
                } else {
                    let j = choose|j: int|
                        0 <= j < k && spec_line_cell(mat@, size as int, line, at + j, vertical)
                            != spec_finder_rev(j);
                    assert(spec_line_cell(mat@, size as int, line, at + j, vertical)
                        != spec_finder_rev(j));
                }
            }
        }
        k = k + 1;
    }
    fwd || rev
}

/// Penalty rule three: every occurrence of the dark-light finder-like
/// sequence with its four-module light run, in any row or column, scores
/// forty.
fn penalty_finder(mat: &Vec<bool>, size: usize) -> (r: usize)
    requires
        mat@.len() == size * size,
        21 <= size <= 177,
    ensures
        r == spec_finder_pen(mat@, size as int, size as int, false) + spec_finder_pen(
            mat@,
            size as int,
            size as int,
            true,
        ),
        r <= 2506320,
{
    let mut pen: usize = 0;
    let mut tpass: usize = 0;
    while tpass < 2
        invariant
            tpass <= 2,
            21 <= size <= 177,
            mat@.len() == size * size,
            pen <= 1253160 * tpass,
            tpass == 0 ==> pen == 0,
            tpass == 1 ==> pen == spec_finder_pen(mat@, size as int, size as int, false),
            tpass == 2 ==> pen == spec_finder_pen(mat@, size as int, size as int, false)
                + spec_finder_pen(mat@, size as int, size as int, true),
        decreases 2 - tpass,
    {
        let vertical = tpass == 1;
        let ghost base = pen as int;
        let mut y: usize = 0;
        while y < size
            invariant
                y <= size <= 177,
                21 <= size,
                mat@.len() == size * size,
                tpass <= 1,
                pen <= 1253160 * tpass + 7080 * y,
                vertical == (tpass == 1),
                base <= 1253160 * tpass,
                pen == base + spec_finder_pen(mat@, size as int, y as int, vertical),
            decreases size - y,
        {
            let mut x: usize = 0;
            while x + 11 <= size
                invariant
                    x <= size - 10,
                    y < size,
                    21 <= size <= 177,
                    mat@.len() == size * size,
                    vertical == (tpass == 1),
                    tpass <= 1,
                    base <= 1253160 * tpass,
                    pen <= 1253160 * tpass + 7080 * y + 40 * x,
                    pen == base + spec_finder_pen(mat@, size as int, y as int, vertical)
                        + spec_finder_line_upto(mat@, size as int, y as int, x as int, vertical),
                decreases size - x,
            {
                let hit = if vertical {
                    finder_pattern_at(mat, size, y, x, true)
                } else {
                    finder_pattern_at(mat, size, x, y, false)
                };
                if hit {
                    pen = pen + 40;
                }
                x = x + 1;
            }
            proof {
                assert(x as int == size - 10);
            }
            y = y + 1;
        }
        tpass = tpass + 1;
    }
    pen
}

/// Penalty rule four: ten points for every five percent the dark share
/// strays from one half.
fn penalty_balance(mat: &Vec<bool>, size: usize) -> (r: usize)
    requires
        mat@.len() == size * size,
        21 <= size <= 177,
    ensures
        r == spec_balance_pen(mat@, size as int),
        r <= 300,
{
    let mut dark: usize = 0;
    let mut y: usize = 0;
    while y < size
        invariant
            y <= size <= 177,
            21 <= size,
            mat@.len() == size * size,
            dark <= size * y,
            dark == spec_dark_count(mat@, size as int, y as int),
        decreases size - y,
    {
        let mut x: usize = 0;
        while x < size
            invariant
                x <= size <= 177,
                y < size,
                21 <= size,
                mat@.len() == size * size,
                dark <= size * y + x,
                dark == spec_dark_count(mat@, size as int, y as int) + spec_dark_row_upto(
                    mat@,
                    size as int,
                    y as int,
                    x as int,
                ),
            decreases size - x,
        {
            proof {
                assert(size * y + x + 1 <= size * size <= 31329) by (nonlinear_arith)
                    requires
                        0 <= y < size <= 177,
                        0 <= x < size,
                ;
            }
            if cell_at(mat, size, x, y) {
                dark = dark + 1;
            }
            x = x + 1;
        }
        proof {
            assert(size * (y + 1) == size * y + size) by (nonlinear_arith);
        }
        y = y + 1;
    }
    proof {
        assert(size * size <= 31329) by (nonlinear_arith)
            requires
                size <= 177,
        ;
    }
    let total = size * size;
    proof {
        assert(21 * 21 <= size * size <= 177 * 177) by (nonlinear_arith)
            requires
                21 <= size <= 177,
        ;
    }
    let diff = if 20 * dark >= 10 * total {
        20 * dark - 10 * total
    } else {
        10 * total - 20 * dark
    };
    let steps = diff / total;
    proof {
        assert(diff / total <= 30) by (nonlinear_arith)
            requires
                total >= 441,
                0 <= diff,
                diff <= 30 * total,
        ;
    }
    10 * steps
}

/// Total penalty of a matrix under the four rules.
fn penalty(mat: &Vec<bool>, size: usize) -> (r: usize)
    requires
        mat@.len() == size * size,
        21 <= size <= 177,
    ensures
        r == spec_penalty(mat@, size as int),
{
    let p1 = penalty_runs(mat, size);
    let p2 = penalty_blocks(mat, size);
    let p3 = penalty_finder(mat, size);
    let p4 = penalty_balance(mat, size);
    p1 + p2 + p3 + p4
}





/// Bit `b` (least significant first) of a 16-bit word.
pub open spec fn wbit16(w: u16, b: int) -> bool {
    (w >> b as u16) & 1 == 1
}

/// Bit `b` (least significant first) of a 32-bit word.
pub open spec fn wbit32(w: u32, b: int) -> bool {
    (w >> b as u32) & 1 == 1
}

/// Format bit positions of the copy around the top-left finder.
pub open spec fn fmt1_x(b: int) -> int {
    if b <= 7 {
        8
    } else if b == 8 {
        7
    } else {
        14 - b
    }
}

pub open spec fn fmt1_y(b: int) -> int {
    if b <= 5 {
        b
    } else if b == 6 {
        7
    } else {
        8
    }
}

/// Format bit positions of the split copy along the other two finders.
pub open spec fn fmt2_x(size: int, b: int) -> int {
    if b <= 7 {
        size - 1 - b
    } else {
        8
    }
}

pub open spec fn fmt2_y(size: int, b: int) -> int {
    if b <= 7 {
        8
    } else {
        size - 15 + b
    }
}

/// Version bit positions: the block beside the top-right finder and its
/// transpose beside the bottom-left one.
pub open spec fn ver1_x(size: int, b: int) -> int {
    size - 11 + b % 3
}

pub open spec fn ver1_y(b: int) -> int {
    b / 3
}

/// The QR format encoding of an error-correction level.
pub open spec fn spec_ecc_code(ecc: ECCLevel) -> u8 {
    match ecc {
        ECCLevel::Low => 1,
        ECCLevel::Medium => 0,
        ECCLevel::Quartile => 3,
        ECCLevel::High => 2,
    }
}

/// The masked 15-bit format word of a level and mask: the five information
/// bits, their BCH remainder, XORed with the fixed pattern.
pub open spec fn spec_format_word(ecc: ECCLevel, mask: u8) -> u16 {
    let f5 = (spec_ecc_code(ecc) * 8 + mask) as u8;
    (((f5 as u16) * 1024 + crate::ecc::spec_format_bch(f5)) as u16) ^ 0x5412
}

/// The masked format word for a level and mask index.
pub fn format_word(ecc: &ECCLevel, mask: u8) -> (r: u16)
    requires
        mask < 8,
    ensures
        r == spec_format_word(*ecc, mask),
{
    let code: u8 = match ecc {
        ECCLevel::Low => 1,
        ECCLevel::Medium => 0,
        ECCLevel::Quartile => 3,
        ECCLevel::High => 2,
    };
    let f5: u8 = code * 8 + mask;
    let bch = crate::ecc::get_format_ecc(f5);
    proof {
        assert(crate::ecc::spec_format_bch(f5) <= 0x3FF) by (bit_vector);
    }
    ((f5 as u16) * 1024 + bch) ^ 0x5412
}

/// Modules carrying format information, version information or the dark
/// module: the only modules the information writer touches.
pub open spec fn spec_info_cell(version: int, size: int, x: int, y: int) -> bool {
    ||| (x == 8 && y < 9 && y != 6)
    ||| (y == 8 && x <= 7 && x != 6)
    ||| (y == 8 && size - 8 <= x <= size - 1)
    ||| (x == 8 && size - 8 <= y <= size - 1)
    ||| (version >= 7 && size - 11 <= x < size - 8 && 0 <= y < 6)
    ||| (version >= 7 && 0 <= x < 6 && size - 11 <= y < size - 8)
}

/// Write the format information (both copies), the dark module and, from
/// version seven on, the two version information blocks.
fn add_format_symbols(mat: &mut Vec<bool>, size: usize, version: u8, fmt: u16, vinfo: u32)
    requires
        1 <= version <= 40,
        size == spec_size(version as int),
        old(mat)@.len() == size * size,
    ensures
        final(mat)@.len() == size * size,
        forall|b: int|
            0 <= b < 15 ==> final(mat)@[midx(size as int, fmt1_x(b), fmt1_y(b))] == wbit16(
                fmt,
                b,
            ),
        forall|b: int|
            0 <= b < 15 ==> final(mat)@[midx(size as int, fmt2_x(size as int, b), fmt2_y(
                size as int,
                b,
            ))] == wbit16(fmt, b),
        final(mat)@[midx(size as int, 8, size - 8)] == true,
        version >= 7 ==> forall|b: int|
            0 <= b < 18 ==> final(mat)@[midx(size as int, ver1_x(size as int, b), ver1_y(b))]
                == wbit32(vinfo, b),
        version >= 7 ==> forall|b: int|
            0 <= b < 18 ==> final(mat)@[midx(size as int, ver1_y(b), ver1_x(size as int, b))]
                == wbit32(vinfo, b),
        forall|x: int, y: int|
            0 <= x < size && 0 <= y < size && !spec_info_cell(version as int, size as int, x, y)
                ==> final(mat)@[midx(size as int, x, y)] == old(mat)@[midx(size as int, x, y)],
{
    let ghost orig = mat@;
    // First copy: up the left of the top-left finder, then across its top.
    let mut b: usize = 0;
    while b < 6
        invariant
            b <= 6,
            1 <= version <= 40,
            size == spec_size(version as int),
            mat@.len() == size * size,
            forall|j: int|
                0 <= j < b ==> mat@[midx(size as int, 8, j)] == wbit16(fmt, j),
            forall|x: int, y: int|
                0 <= x < size && 0 <= y < size && !spec_info_cell(
                    version as int,
                    size as int,
                    x,
                    y,
                ) ==> mat@[midx(size as int, x, y)] == orig[midx(size as int, x, y)],
        decreases 6 - b,
    {
        set_bit(mat, size, 8, b, (fmt >> (b as u16)) & 1 == 1);
        b = b + 1;
    }
    set_bit(mat, size, 8, 7, (fmt >> 6) & 1 == 1);
    set_bit(mat, size, 8, 8, (fmt >> 7) & 1 == 1);
    set_bit(mat, size, 7, 8, (fmt >> 8) & 1 == 1);
    let mut b: usize = 9;
    while b < 15
        invariant
            9 <= b <= 15,
            1 <= version <= 40,
            size == spec_size(version as int),
            mat@.len() == size * size,
            forall|j: int| 0 <= j < 6 ==> mat@[midx(size as int, 8, j)] == wbit16(fmt, j),
            mat@[midx(size as int, 8, 7)] == wbit16(fmt, 6),
            mat@[midx(size as int, 8, 8)] == wbit16(fmt, 7),
            mat@[midx(size as int, 7, 8)] == wbit16(fmt, 8),
            forall|j: int|
                9 <= j < b ==> mat@[midx(size as int, 14 - j, 8)] == wbit16(fmt, j),
            forall|x: int, y: int|
                0 <= x < size && 0 <= y < size && !spec_info_cell(
                    version as int,
                    size as int,
                    x,
                    y,
                ) ==> mat@[midx(size as int, x, y)] == orig[midx(size as int, x, y)],
        decreases 15 - b,
    {
        set_bit(mat, size, 14 - b, 8, (fmt >> (b as u16)) & 1 == 1);
        b = b + 1;
    }

    // Second copy: right to left under the top-right finder, then down the
    // left of the bottom-left one.
    let mut b: usize = 0;
    while b < 8
        invariant
            b <= 8,
            1 <= version <= 40,
            size == spec_size(version as int),
            mat@.len() == size * size,
            forall|j: int| 0 <= j < 15 ==> mat@[midx(size as int, fmt1_x(j), fmt1_y(j))]
                == wbit16(fmt, j),
            forall|j: int|
                0 <= j < b ==> mat@[midx(size as int, size - 1 - j, 8)] == wbit16(fmt, j),
            forall|x: int, y: int|
                0 <= x < size && 0 <= y < size && !spec_info_cell(
                    version as int,
                    size as int,
                    x,
                    y,
                ) ==> mat@[midx(size as int, x, y)] == orig[midx(size as int, x, y)],
        decreases 8 - b,
    {
        set_bit(mat, size, size - 1 - b, 8, (fmt >> (b as u16)) & 1 == 1);
        b = b + 1;
    }
    let mut b: usize = 8;
    while b < 15
        invariant
            8 <= b <= 15,
            1 <= version <= 40,
            size == spec_size(version as int),
            mat@.len() == size * size,
            forall|j: int| 0 <= j < 15 ==> mat@[midx(size as int, fmt1_x(j), fmt1_y(j))]
                == wbit16(fmt, j),
            forall|j: int|
                0 <= j < 8 ==> mat@[midx(size as int, size - 1 - j, 8)] == wbit16(fmt, j),
            forall|j: int|
                8 <= j < b ==> mat@[midx(size as int, 8, size - 15 + j)] == wbit16(fmt, j),
            forall|x: int, y: int|
                0 <= x < size && 0 <= y < size && !spec_info_cell(
                    version as int,
                    size as int,
                    x,
                    y,
                ) ==> mat@[midx(size as int, x, y)] == orig[midx(size as int, x, y)],
        decreases 15 - b,
    {
        set_bit(mat, size, 8, size - 15 + b, (fmt >> (b as u16)) & 1 == 1);
        b = b + 1;
    }

    // The single always-dark module above the bottom-left finder.
    set_bit(mat, size, 8, size - 8, true);

    // Version information, both copies, least significant bit first.
    if version >= 7 {
        let mut b: usize = 0;
        while b < 18
            invariant
                b <= 18,
                7 <= version <= 40,
                size == spec_size(version as int),
                mat@.len() == size * size,
                forall|j: int| 0 <= j < 15 ==> mat@[midx(size as int, fmt1_x(j), fmt1_y(j))]
                    == wbit16(fmt, j),
                forall|j: int|
                    0 <= j < 15 ==> mat@[midx(size as int, fmt2_x(size as int, j), fmt2_y(
                        size as int,
                        j,
                    ))] == wbit16(fmt, j),
                mat@[midx(size as int, 8, size - 8)] == true,
                forall|j: int|
                    0 <= j < b ==> mat@[midx(size as int, ver1_x(size as int, j), ver1_y(j))]
                        == wbit32(vinfo, j),
                forall|j: int|
                    0 <= j < b ==> mat@[midx(size as int, ver1_y(j), ver1_x(size as int, j))]
                        == wbit32(vinfo, j),
                forall|x: int, y: int|
                    0 <= x < size && 0 <= y < size && !spec_info_cell(
                        version as int,
                        size as int,
                        x,
                        y,
                    ) ==> mat@[midx(size as int, x, y)] == orig[midx(size as int, x, y)],
            decreases 18 - b,
        {
            let px = size - 11 + b % 3;
            let py = b / 3;
            let v = (vinfo >> (b as u32)) & 1 == 1;
            set_bit(mat, size, px, py, v);
            set_bit(mat, size, py, px, v);
            b = b + 1;
        }
    }
}

/// Try the eight masks and keep the one with the least penalty, the lowest
/// index on a tie.
fn mask_matrix(
    mat: &Vec<bool>,
    size: usize,
    version: u8,
    pairs: &Vec<(u8, u8)>,
) -> (r: (Vec<bool>, u8))
    requires
        1 <= version <= 40,
        size == spec_size(version as int),
        pairs@ == spec_align_pairs(version as int),
        mat@.len() == size * size,
    ensures
        r.1 < 8,
        r.0@.len() == size * size,
        forall|x: int, y: int|
            0 <= x < size && 0 <= y < size ==> r.0@[midx(size as int, x, y)] == spec_masked(
                mat@,
                version as int,
                r.1 as int,
                x,
                y,
            ),
        r.0@ == spec_masked_seq(mat@, version as int, r.1 as int),
        forall|j: int|
            0 <= j < 8 ==> spec_penalty(
                spec_masked_seq(mat@, version as int, r.1 as int),
                size as int,
            ) <= spec_penalty(#[trigger] spec_masked_seq(mat@, version as int, j), size as int),
        forall|j: int|
            0 <= j < r.1 ==> spec_penalty(
                spec_masked_seq(mat@, version as int, r.1 as int),
                size as int,
            ) < spec_penalty(#[trigger] spec_masked_seq(mat@, version as int, j), size as int),
{
    let mut best = apply_mask(mat, size, version, pairs, 0);
    let mut best_pen = penalty(&best, size);
    let mut best_mask: u8 = 0;
    let mut k: u8 = 1;
    while k < 8
        invariant
            1 <= k <= 8,
            best_mask < k,
            1 <= version <= 40,
            size == spec_size(version as int),
            pairs@ == spec_align_pairs(version as int),
            mat@.len() == size * size,
            best@.len() == size * size,
            best@ == spec_masked_seq(mat@, version as int, best_mask as int),
            best_pen == spec_penalty(best@, size as int),
            forall|x: int, y: int|
                0 <= x < size && 0 <= y < size ==> best@[midx(size as int, x, y)] == spec_masked(
                    mat@,
                    version as int,
                    best_mask as int,
                    x,
                    y,
                ),
            forall|j: int|
                0 <= j < k ==> best_pen <= spec_penalty(
                    #[trigger] spec_masked_seq(mat@, version as int, j),
                    size as int,
                ),
            forall|j: int|
                0 <= j < best_mask ==> best_pen < spec_penalty(
                    #[trigger] spec_masked_seq(mat@, version as int, j),
                    size as int,
                ),
        decreases 8 - k,
    {
        let cand = apply_mask(mat, size, version, pairs, k);
        let pen = penalty(&cand, size);
        if pen < best_pen {
            best = cand;
            best_pen = pen;
            best_mask = k;
        }
        k = k + 1;
    }
    (best, best_mask)
}

impl QRCode {
    /// Build the symbol: draw the function patterns, place the interleaved
    /// codewords, choose the mask, and write the format and version
    /// information. Both format copies carry the same word, whose high five
    /// bits name the level and the chosen mask.
    pub fn new(data: Vec<u8>, version: u8, ecc: &ECCLevel) -> (r: Self)
        requires
            1 <= version <= 40,
            data@.len() * 8 <= usize::MAX,
        ensures
            r.wf(),
            r.spec_version() == version,
            r.spec_data() == data@,
            forall|b: int|
                0 <= b < 15 ==> r@[midx(spec_size(version as int), fmt1_x(b), fmt1_y(b))]
                    == wbit16(spec_format_word(*ecc, r.spec_mask()), b),
            forall|b: int|
                0 <= b < 15 ==> r@[midx(
                    spec_size(version as int),
                    fmt2_x(spec_size(version as int), b),
                    fmt2_y(spec_size(version as int), b),
                )] == wbit16(spec_format_word(*ecc, r.spec_mask()), b),
            r@[midx(spec_size(version as int), 8, spec_size(version as int) - 8)] == true,
            version >= 7 ==> forall|b: int|
                0 <= b < 18 ==> r@[midx(
                    spec_size(version as int),
                    ver1_x(spec_size(version as int), b),
                    ver1_y(b),
                )] == wbit32(crate::ecc::spec_version_info(version), b),
            version >= 7 ==> forall|b: int|
                0 <= b < 18 ==> r@[midx(
                    spec_size(version as int),
                    ver1_y(b),
                    ver1_x(spec_size(version as int), b),
                )] == wbit32(crate::ecc::spec_version_info(version), b),
            forall|x: int, y: int|
                0 <= x < spec_size(version as int) && 0 <= y < spec_size(version as int)
                    && spec_reserved(version as int, x, y) && !spec_info_cell(
                    version as int,
                    spec_size(version as int),
                    x,
                    y,
                ) ==> r@[midx(spec_size(version as int), x, y)] == spec_function_color(
                    version as int,
                    x,
                    y,
                ),
            exists|placedm: Seq<bool>|
                #![trigger placedm.len()]
                {
                    let size = spec_size(version as int);
                    let mask = r.spec_mask() as int;
                    &&& placedm.len() == size * size
                    &&& (forall|x: int, y: int|
                        0 <= x < size && 0 <= y < size && !spec_info_cell(
                            version as int,
                            size,
                            x,
                            y,
                        ) ==> r@[midx(size, x, y)] == spec_masked(placedm, version as int, mask, x, y))
                    &&& (forall|k: int|
                        0 <= k < 8 ==> spec_penalty(
                            spec_masked_seq(placedm, version as int, mask),
                            size,
                        ) <= spec_penalty(
                            #[trigger] spec_masked_seq(placedm, version as int, k),
                            size,
                        ))
                    &&& (forall|k: int|
                        0 <= k < mask ==> spec_penalty(
                            spec_masked_seq(placedm, version as int, mask),
                            size,
                        ) < spec_penalty(
                            #[trigger] spec_masked_seq(placedm, version as int, k),
                            size,
                        ))
                },
            exists|order: Seq<(int, int)>|
                #![trigger order.len()]
                {
                    let size = spec_size(version as int);
                    let mask = r.spec_mask() as int;
                    &&& order.len() <= 8 * data@.len()
                    &&& (order.len() < 8 * data@.len() ==> forall|x: int, y: int|
                        0 <= x < size && 0 <= y < size && !spec_reserved(version as int, x, y)
                            ==> #[trigger] spec_order_covers(order, x, y))
                    &&& (forall|j1: int, j2: int|
                        0 <= j1 < j2 < order.len() ==> order[j1] != order[j2])
                    &&& (forall|j: int|
                        0 <= j < order.len() ==> {
                            let c = #[trigger] order[j];
                            &&& 0 <= c.0 < size
                            &&& 0 <= c.1 < size
                            &&& !spec_reserved(version as int, c.0, c.1)
                            &&& r@[midx(size, c.0, c.1)] == (crate::bitstream::byte_bit(
                                data@[j / 8],
                                j % 8,
                            ) ^ spec_mask_at(mask, c.1, c.0))
                        })
                    &&& (forall|x: int, y: int|
                        0 <= x < size && 0 <= y < size && !spec_reserved(version as int, x, y)
                            && !#[trigger] spec_order_covers(order, x, y) ==> r@[midx(size, x, y)]
                            == spec_mask_at(mask, y, x))
                },
    {
        let size = 21 + 4 * (version as usize - 1);
        let pairs = align_pairs(version);
        let mut mat: Vec<bool> = Vec::new();
        let mut i: usize = 0;
        proof {
            assert(size * size <= 31329) by (nonlinear_arith)
                requires
                    size <= 177,
            ;
        }
        let cells = size * size;
        while i < cells
            invariant
                i <= cells,
                mat@.len() == i,
                forall|k: int| 0 <= k < i ==> mat@[k] == false,
            decreases cells - i,
        {
            mat.push(false);
            i = i + 1;
        }
        proof {
            assert forall|x: int, y: int|
                0 <= x < size && 0 <= y < size implies mat@[midx(size as int, x, y)] == false by {
                lemma_midx_bounds(size as int, x, y);
            }
        }
        add_find_pattern(&mut mat, size, version);
        add_timing_pattern(&mut mat, size, version);
        add_alignment_pattern(&mut mat, size, version, &pairs);
        proof {
            assert forall|x: int, y: int|
                0 <= x < size && 0 <= y < size implies mat@[midx(size as int, x, y)]
                == spec_function_color(version as int, x, y) by {
                lemma_midx_bounds(size as int, x, y);
                if spec_align_cell(version as int, x, y) {
                    assert(mat@[midx(size as int, x, y)] == true);
                } else if spec_timing_cell(size as int, x, y) {
                    assert(!spec_finder_cell(size as int, x, y));
                    if y == 6 {
                        assert(mat@[midx(size as int, x, y)] == (x % 2 == 0));
                    } else {
                        assert(mat@[midx(size as int, x, y)] == (y % 2 == 0));
                    }
                } else if spec_finder_cell(size as int, x, y) {
                    assert(mat@[midx(size as int, x, y)] == true);
                } else {
                    assert(mat@[midx(size as int, x, y)] == false);
                }
            }
        }
        let ghost base0 = mat@;
        proof {
            assert forall|x: int, y: int|
                0 <= x < size && 0 <= y < size implies base0[midx(size as int, x, y)]
                == spec_function_color(version as int, x, y) by {}
        }
        let (counts, placed, _consumed) = place_data(&mut mat, size, version, &pairs, &data);
        let ghost order = placed@;
        let (mut best, mask) = mask_matrix(&mat, size, version, &pairs);
        let ghost masked0 = best@;
        let fmt = format_word(ecc, mask);
        let vinfo = crate::ecc::version_information_process(version);
        add_format_symbols(&mut best, size, version, fmt, vinfo);
        let ecc_idx: u8 = match ecc {
            ECCLevel::Low => 0,
            ECCLevel::Medium => 1,
            ECCLevel::Quartile => 2,
            ECCLevel::High => 3,
        };
        let r = Self { data, mat: best, align_pat: pairs, size, version, ecc: ecc_idx, mask };
        proof {
            let s = size as int;
            let v = version as int;
            // Function modules outside the information areas: the pattern
            // colour survives masking and the information writes.
            assert forall|x: int, y: int|
                0 <= x < s && 0 <= y < s && spec_reserved(v, x, y) && !spec_info_cell(v, s, x, y)
                    implies r@[midx(s, x, y)] == spec_function_color(v, x, y) by {
                assert(masked0[midx(s, x, y)] == spec_masked(mat@, v, mask as int, x, y));
                assert(spec_masked(mat@, v, mask as int, x, y) == mat@[midx(s, x, y)]);
                assert(mat@[midx(s, x, y)] == base0[midx(s, x, y)]);
                assert(r@[midx(s, x, y)] == masked0[midx(s, x, y)]);
            }
            // A pattern-dark module is always reserved.
            assert forall|x: int, y: int|
                0 <= x < s && 0 <= y < s && !spec_reserved(v, x, y) implies !spec_function_color(
                v,
                x,
                y,
            ) by {
                if spec_align_cell(v, x, y) {
                    let j = choose|j: int|
                        0 <= j < spec_align_pairs(v).len() && {
                            let p = #[trigger] spec_align_pairs(v)[j];
                            p.0 - 2 <= x <= p.0 + 2 && p.1 - 2 <= y <= p.1 + 2
                                && spec_align_dark5(x - (p.0 - 2), y - (p.1 - 2))
                        };
                    assert(spec_reserved(v, x, y));
                }
            }
            // Placed modules: payload bit against the mask.
            assert forall|j: int| 0 <= j < order.len() implies {
                let c = #[trigger] order[j];
                &&& 0 <= c.0 < s
                &&& 0 <= c.1 < s
                &&& !spec_reserved(v, c.0, c.1)
                &&& r@[midx(s, c.0, c.1)] == (crate::bitstream::byte_bit(data@[j / 8], j % 8)
                    ^ spec_mask_at(mask as int, c.1, c.0))
            } by {
                let c = order[j];
                assert(!spec_info_cell(v, s, c.0, c.1));
                assert(r@[midx(s, c.0, c.1)] == masked0[midx(s, c.0, c.1)]);
                assert(masked0[midx(s, c.0, c.1)] == spec_masked(mat@, v, mask as int, c.0, c.1));
                assert(mat@[midx(s, c.0, c.1)] == crate::bitstream::byte_bit(
                    data@[j / 8],
                    j % 8,
                ));
            }
            // Unplaced data modules: the bare mask over a light module.
            assert forall|x: int, y: int|
                0 <= x < s && 0 <= y < s && !spec_reserved(v, x, y) && !#[trigger] spec_order_covers(
                    order,
                    x,
                    y,
                ) implies r@[midx(s, x, y)] == spec_mask_at(mask as int, y, x) by {
                assert(counts@[(x, y)] == 0);
                assert(mat@[midx(s, x, y)] == base0[midx(s, x, y)]);
                assert(!spec_function_color(v, x, y));
                assert(mat@[midx(s, x, y)] == false);
                assert(!spec_info_cell(v, s, x, y));
                assert(r@[midx(s, x, y)] == masked0[midx(s, x, y)]);
                assert(masked0[midx(s, x, y)] == spec_masked(mat@, v, mask as int, x, y));
            }
            assert({
                let size = spec_size(version as int);
                let mask = r.spec_mask() as int;
                &&& mat@.len() == size * size
                &&& (forall|x: int, y: int|
                    0 <= x < size && 0 <= y < size && !spec_info_cell(version as int, size, x, y)
                        ==> r@[midx(size, x, y)] == spec_masked(mat@, version as int, mask, x, y))
                &&& (forall|k: int|
                    0 <= k < 8 ==> spec_penalty(
                        spec_masked_seq(mat@, version as int, mask),
                        size,
                    ) <= spec_penalty(#[trigger] spec_masked_seq(mat@, version as int, k), size))
                &&& (forall|k: int|
                    0 <= k < mask ==> spec_penalty(
                        spec_masked_seq(mat@, version as int, mask),
                        size,
                    ) < spec_penalty(#[trigger] spec_masked_seq(mat@, version as int, k), size))
            }) by {
                assert forall|x: int, y: int|
                    0 <= x < s && 0 <= y < s && !spec_info_cell(v, s, x, y) implies r@[midx(
                    s,
                    x,
                    y,
                )] == spec_masked(mat@, v, mask as int, x, y) by {
                    assert(r@[midx(s, x, y)] == masked0[midx(s, x, y)]);
                }
            }
            assert(order.len() == _consumed);
            if order.len() < 8 * data@.len() {
                assert forall|x: int, y: int|
                    0 <= x < s && 0 <= y < s && !spec_reserved(v, x, y) implies
                    #[trigger] spec_order_covers(order, x, y) by {
                    assert(counts@[(x, y)] == 1);
                }
            }
            assert({
                let size = spec_size(version as int);
                let mask = r.spec_mask() as int;
                &&& order.len() <= 8 * data@.len()
                &&& (order.len() < 8 * data@.len() ==> forall|x: int, y: int|
                    0 <= x < size && 0 <= y < size && !spec_reserved(version as int, x, y)
                        ==> #[trigger] spec_order_covers(order, x, y))
                &&& (forall|j1: int, j2: int|
                    0 <= j1 < j2 < order.len() ==> order[j1] != order[j2])
                &&& (forall|j: int|
                    0 <= j < order.len() ==> {
                        let c = #[trigger] order[j];
                        &&& 0 <= c.0 < size
                        &&& 0 <= c.1 < size
                        &&& !spec_reserved(version as int, c.0, c.1)
                        &&& r@[midx(size, c.0, c.1)] == (crate::bitstream::byte_bit(
                            data@[j / 8],
                            j % 8,
                        ) ^ spec_mask_at(mask, c.1, c.0))
                    })
                &&& (forall|x: int, y: int|
                    0 <= x < size && 0 <= y < size && !spec_reserved(version as int, x, y)
                        && !#[trigger] spec_order_covers(order, x, y) ==> r@[midx(size, x, y)]
                        == spec_mask_at(mask, y, x))
            });
        }
        r
    }
}


} // verus!
