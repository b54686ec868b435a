use vstd::prelude::*;

verus! {

use vstd::arithmetic::power2::{pow2, lemma2_to64, lemma2_to64_rest, lemma_pow2_adds, lemma_pow2_pos, lemma_pow2_strictly_increases};
use crate::grid::{Grid, flat_index, lemma_flat_index_in_range};
use crate::rng::{Seed, rng_word, rng_seed_of, rng_drawn_of, rng_from_seed, rng_next};

/// Number of frequency bands the default pipeline blends.
pub const OCTAVE_COUNT: u32 = 7;

/// The only failure of the pipeline: a requested grid dimension was zero.
#[derive(Clone, Copy, PartialEq, Eq, Structural, Debug)]
pub enum NoiseError {
    InvalidDimension,
}

/// White-noise cell derived from draw `index` of the seed's stream: the top
/// 52 bits of the 64-bit draw, i.e. the numerator of a uniform value in
/// [0, 1) at denominator 2^52.
pub open spec fn noise_value(seed: Seq<u32>, index: nat) -> u128 {
    (rng_word(seed, index) / 4096) as u128
}

/// What a generated white-noise grid holds: `h` rows of `w` cells, drawn
/// row-major (outer loop over rows) from the seed's stream.
pub open spec fn is_white_noise(g: WhiteNoise, seed: Seq<u32>, w: int, h: int) -> bool {
    &&& g.wf()
    &&& g.spec_width() == w
    &&& g.spec_height() == h
    &&& forall|row: int, col: int|
        0 <= row < h && 0 <= col < w ==> #[trigger] g.cell(row, col) == noise_value(
            seed,
            flat_index(row, col, w) as nat,
        )
}

/// A seeded pseudo-random grid of values in [0, 1), held as numerators at
/// denominator 2^52; read-only once generated.
pub struct WhiteNoise {
    grid: Grid,
}

impl View for WhiteNoise {
    type V = Seq<u128>;

    /// Abstractly the row-major sequence of cell numerators.
    closed spec fn view(&self) -> Seq<u128> {
        self.grid@
    }
}

impl WhiteNoise {
    pub closed spec fn spec_width(self) -> int {
        self.grid.spec_width()
    }

    pub closed spec fn spec_height(self) -> int {
        self.grid.spec_height()
    }

    /// The numerator at `(row, col)`; the cell's value is this over 2^52.
    pub closed spec fn cell(self, row: int, col: int) -> u128 {
        self.grid.cell(row, col)
    }

    pub closed spec fn backing_wf(self) -> bool {
        self.grid.wf()
    }

    /// Well-formed: a non-empty backing grid whose cells all lie below 2^52,
    /// so that every cell's value lies in [0, 1).
    pub open spec fn wf(self) -> bool {
        &&& self.backing_wf()
        &&& self.spec_width() >= 1
        &&& self.spec_height() >= 1
        &&& forall|row: int, col: int|
            0 <= row < self.spec_height() && 0 <= col < self.spec_width() ==> #[trigger] self.cell(
                row,
                col,
            ) < pow2(52)
    }

    pub fn width(&self) -> (w: usize)
        ensures
            w == self.spec_width(),
    {
        self.grid.width()
    }

    pub fn height(&self) -> (h: usize)
        ensures
            h == self.spec_height(),
    {
        self.grid.height()
    }

    pub fn at(&self, row: usize, col: usize) -> (v: u128)
        requires
            self.wf(),
            row < self.spec_height(),
            col < self.spec_width(),
        ensures
            v == self.cell(row as int, col as int),
    {
        self.grid.at(row, col)
    }

    /// Generates the grid from an explicit seed: `height` rows of `width`
    /// uniform draws, taken row-major from one function-owned generator.
    /// Zero dimensions are rejected; any other request succeeds.
    pub fn with_seed(seed: &Seed, width: usize, height: usize) -> (result: Result<
        WhiteNoise,
        NoiseError,
    >)
        requires
            width * height <= usize::MAX,
        ensures
            result is Ok <==> (width >= 1 && height >= 1),
            result is Ok ==> is_white_noise(result->Ok_0, seed@, width as int, height as int),
            result is Err ==> result->Err_0 == NoiseError::InvalidDimension,
    {
        if width == 0 || height == 0 {
            return Err(NoiseError::InvalidDimension);
        }
        let mut rng = rng_from_seed(seed);
        let mut cells: Vec<u128> = Vec::new();
        let mut r: usize = 0;
        while r < height
            invariant
                rng_seed_of(rng) == seed@,
                rng_drawn_of(rng) == cells@.len(),
                cells@.len() == r * width,
                r <= height,
                width >= 1,
                width * height <= usize::MAX,
                forall|idx: int|
                    0 <= idx < cells@.len() ==> (#[trigger] cells@[idx]) == noise_value(
                        seed@,
                        idx as nat,
                    ) && cells@[idx] < pow2(52),
            decreases height - r,
        {
            let mut c: usize = 0;
            while c < width
                invariant
                    rng_seed_of(rng) == seed@,
                    rng_drawn_of(rng) == cells@.len(),
                    cells@.len() == r * width + c,
                    c <= width,
                    r < height,
                    width >= 1,
                    width * height <= usize::MAX,
                    forall|idx: int|
                        0 <= idx < cells@.len() ==> (#[trigger] cells@[idx]) == noise_value(
                            seed@,
                            idx as nat,
                        ) && cells@[idx] < pow2(52),
                decreases width - c,
            {
                let w64 = rng_next(&mut rng);
                let v: u128 = (w64 / 4096) as u128;
                proof {
                    lemma2_to64();
                    lemma2_to64_rest();
                    assert(w64 / 4096 < 0x10000000000000u64);
                }
                cells.push(v);
                c = c + 1;
            }
            proof {
                assert((r + 1) * width == r * width + width) by (nonlinear_arith);
            }
            r = r + 1;
        }
        let ghost cseq = cells@;
        let noise = WhiteNoise { grid: Grid::from_cells(width, height, cells) };
        proof {
            assert forall|row: int, col: int|
                0 <= row < height && 0 <= col < width implies #[trigger] noise.cell(row, col)
                == noise_value(seed@, flat_index(row, col, width as int) as nat) && noise.cell(
                row,
                col,
            ) < pow2(52) by {
                lemma_flat_index_in_range(width as int, height as int, row, col);
                assert(cseq[flat_index(row, col, width as int)] == noise_value(
                    seed@,
                    flat_index(row, col, width as int) as nat,
                ));
            }
        }
        Ok(noise)
    }

    /// Generates the grid with the fixed all-zero seed, so that repeated
    /// calls with equal dimensions yield identical output.
    pub fn with_dimensions(width: usize, height: usize) -> (result: Result<
        WhiteNoise,
        NoiseError,
    >)
        requires
            width * height <= usize::MAX,
        ensures
            result is Ok <==> (width >= 1 && height >= 1),
            result is Ok ==> is_white_noise(
                result->Ok_0,
                Seed::zero_words(),
                width as int,
                height as int,
            ),
            result is Err ==> result->Err_0 == NoiseError::InvalidDimension,
    {
        let seed = Seed::zero();
        WhiteNoise::with_seed(&seed, width, height)
    }
}

/// Numerator of the linear interpolation `a*(1 - t/p) + b*(t/p)` between two
/// corner numerators `a` and `b`, for a blend position `t` inside a block of
/// size `p`: the result carries one extra factor `p` in its denominator.
pub open spec fn lerp_num(a: int, b: int, t: int, p: int) -> int {
    a * (p - t) + b * t
}

/// Anchor of the block that position `i` falls in, for block size `p`.
pub open spec fn block_anchor(i: int, p: int) -> int {
    (i / p) * p
}

/// The anchor one block further on, wrapped around toroidally in a grid
/// dimension of extent `len`. The wrap-around is a deliberate design choice
/// enabling seamless tiling, not an edge case.
pub open spec fn block_neighbor(i: int, p: int, len: int) -> int {
    (block_anchor(i, p) + p) % len
}

/// The smoothed cell at `(row, col)` for octave `k`: the base grid is
/// sampled at the four corners of the surrounding block (block size
/// `2^k`, toroidal wrap) and blended bilinearly. The bilinear blend adds a
/// factor `(2^k)^2` to the cell denominator, and the final factor
/// `2^(12 - 2k)` rescales every octave to the common denominator
/// `2^52 * 2^12 = 2^64`.
pub open spec fn smooth_cell(base: WhiteNoise, k: nat, row: int, col: int) -> int {
    let p = pow2(k) as int;
    let r0 = block_anchor(row, p);
    let r1 = block_neighbor(row, p, base.spec_height());
    let c0 = block_anchor(col, p);
    let c1 = block_neighbor(col, p, base.spec_width());
    let top = lerp_num(base.cell(r0, c0) as int, base.cell(r1, c0) as int, row - r0, p);
    let bottom = lerp_num(base.cell(r0, c1) as int, base.cell(r1, c1) as int, row - r0, p);
    lerp_num(top, bottom, col - c0, p) * pow2((12 - 2 * (k as int)) as nat)
}

/// One frequency band: the base noise smoothed at one octave index, held as
/// numerators at the common octave denominator 2^64; owned by the blending
/// step and never mutated after creation.
pub struct Octave {
    grid: Grid,
}

impl View for Octave {
    type V = Seq<u128>;

    /// Abstractly the row-major sequence of cell numerators.
    closed spec fn view(&self) -> Seq<u128> {
        self.grid@
    }
}

impl Octave {
    pub closed spec fn spec_width(self) -> int {
        self.grid.spec_width()
    }

    pub closed spec fn spec_height(self) -> int {
        self.grid.spec_height()
    }

    /// The numerator at `(row, col)`; the cell's value is this over 2^64.
    pub closed spec fn cell(self, row: int, col: int) -> u128 {
        self.grid.cell(row, col)
    }

    pub closed spec fn backing_wf(self) -> bool {
        self.grid.wf()
    }

    /// Well-formed: a non-empty backing grid whose cells all lie below 2^64,
    /// so that every cell's value lies in [0, 1).
    pub open spec fn wf(self) -> bool {
        &&& self.backing_wf()
        &&& self.spec_width() >= 1
        &&& self.spec_height() >= 1
        &&& forall|row: int, col: int|
            0 <= row < self.spec_height() && 0 <= col < self.spec_width() ==> #[trigger] self.cell(
                row,
                col,
            ) < pow2(64)
    }

    pub fn width(&self) -> (w: usize)
        ensures
            w == self.spec_width(),
    {
        self.grid.width()
    }

    pub fn height(&self) -> (h: usize)
        ensures
            h == self.spec_height(),
    {
        self.grid.height()
    }

    pub fn at(&self, row: usize, col: usize) -> (v: u128)
        requires
            self.wf(),
            row < self.spec_height(),
            col < self.spec_width(),
        ensures
            v == self.cell(row as int, col as int),
    {
        self.grid.at(row, col)
    }

    /// An octave whose cells all hold the same numerator, for probing the
    /// blender against a constant frequency band.
    pub fn uniform(width: usize, height: usize, value: u128) -> (o: Octave)
        requires
            width >= 1,
            height >= 1,
            width * height <= usize::MAX,
            value < 0x10000000000000000,
        ensures
            o.wf(),
            o.spec_width() == width,
            o.spec_height() == height,
            forall|row: int, col: int|
                0 <= row < height && 0 <= col < width ==> #[trigger] o.cell(row, col) == value,
    {
        let n = width * height;
        let mut cells: Vec<u128> = Vec::new();
        let mut i: usize = 0;
        while i < n
            invariant
                i <= n,
                cells@.len() == i,
                forall|idx: int| 0 <= idx < i ==> (#[trigger] cells@[idx]) == value,
            decreases n - i,
        {
            cells.push(value);
            i = i + 1;
        }
        let ghost cseq = cells@;
        let o = Octave { grid: Grid::from_cells(width, height, cells) };
        proof {
            lemma2_to64();
            assert forall|row: int, col: int|
                0 <= row < height && 0 <= col < width implies #[trigger] o.cell(row, col)
                == value by {
                lemma_flat_index_in_range(width as int, height as int, row, col);
                assert(cseq[flat_index(row, col, width as int)] == value);
            }
        }
        o
    }
}

/// 2^e as a block size or rescaling factor; exponents stay at most 12.
fn pow2_small(e: u32) -> (r: usize)
    requires
        e <= 12,
    ensures
        r == pow2(e as nat),
        1 <= r <= 4096,
{
    proof {
        lemma2_to64();
        if e < 12 {
            lemma_pow2_strictly_increases(e as nat, 12);
        }
        lemma_pow2_pos(e as nat);
    }
    let mut r: usize = 1;
    let mut i: u32 = 0;
    while i < e
        invariant
            i <= e,
            e <= 12,
            r == pow2(i as nat),
        decreases e - i,
    {
        proof {
            lemma2_to64();
            vstd::arithmetic::power2::lemma_pow2_unfold((i + 1) as nat);
            if i + 1 < 12 {
                lemma_pow2_strictly_increases((i + 1) as nat, 12);
            }
        }
        r = r * 2;
        i = i + 1;
    }
    proof {
        lemma2_to64();
        if e < 12 {
            lemma_pow2_strictly_increases(e as nat, 12);
        }
        lemma_pow2_pos(e as nat);
    }
    r
}

/// The toroidal wrap-around `(anchor + p) % len`, computed without
/// overflowing.
fn wrap_add(anchor: usize, p: usize, len: usize) -> (r: usize)
    requires
        1 <= len,
        anchor < len,
        1 <= p,
    ensures
        r == (anchor + p) % (len as int),
        r < len,
{
    let d = len - anchor;
    if p >= d {
        let x = p - d;
        proof {
            vstd::arithmetic::div_mod::lemma_mod_add_multiples_vanish(x as int, len as int);
            assert(anchor + p == len + x);
        }
        x % len
    } else {
        proof {
            vstd::arithmetic::div_mod::lemma_small_mod((anchor + p) as nat, len as nat);
        }
        anchor + p
    }
}

/// One smoothed cell: block anchors, toroidal neighbours, and the bilinear
/// blend of the four sampled corners, rescaled to the octave denominator.
fn smooth_one(base: &WhiteNoise, octave: u32, period: usize, scale: u128, r: usize, c: usize) -> (v:
    u128)
    requires
        base.wf(),
        octave < OCTAVE_COUNT,
        period == pow2(octave as nat),
        scale == pow2((12 - 2 * (octave as int)) as nat),
        r < base.spec_height(),
        c < base.spec_width(),
    ensures
        v as int == smooth_cell(*base, octave as nat, r as int, c as int),
        v < pow2(64),
{
    let height = base.height();
    let width = base.width();
    proof {
        lemma2_to64();
        lemma2_to64_rest();
        lemma_pow2_pos(octave as nat);
        if octave < 6 {
            lemma_pow2_strictly_increases(octave as nat, 6);
        }
        assert(period <= 64);
    }
    proof {
        assert((r as int / period as int) * (period as int) <= r as int && r as int - (r as int
            / period as int) * (period as int) < period as int && (c as int / period as int) * (
        period as int) <= c as int && c as int - (c as int / period as int) * (period as int)
            < period as int) by (nonlinear_arith)
            requires
                period as int >= 1,
                r as int >= 0,
                c as int >= 0,
        ;
    }
    let r0 = (r / period) * period;
    let c0 = (c / period) * period;
    let r1 = wrap_add(r0, period, height);
    let c1 = wrap_add(c0, period, width);
    let tr = r - r0;
    let tc = c - c0;
    let a = base.at(r0, c0);
    let b = base.at(r1, c0);
    let d0 = base.at(r0, c1);
    let d1 = base.at(r1, c1);
    let pt = period as u128;
    let trc = tr as u128;
    let tcc = tc as u128;
    proof {
        let bd = (pow2(52) - 1) as int;
        assert(a <= bd && b <= bd && d0 <= bd && d1 <= bd);
        assert(a * (pt - trc) + b * trc <= bd * pt && d0 * (pt - trc) + d1 * trc <= bd * pt)
            by (nonlinear_arith)
            requires
                0 <= a <= bd,
                0 <= b <= bd,
                0 <= d0 <= bd,
                0 <= d1 <= bd,
                0 <= trc <= pt,
        ;
    }
    let top = a * (pt - trc) + b * trc;
    let bottom = d0 * (pt - trc) + d1 * trc;
    proof {
        let bd = (pow2(52) - 1) as int;
        assert(top * (pt - tcc) <= (bd * pt) * pt && bottom * tcc <= (bd * pt) * pt && top * (pt
            - tcc) + bottom * tcc <= (bd * pt) * pt) by (nonlinear_arith)
            requires
                0 <= top <= bd * pt,
                0 <= bottom <= bd * pt,
                0 <= tcc <= pt,
                0 <= pt,
                0 <= bd,
        ;
        assert((bd * pt) * pt <= bd * 4096) by (nonlinear_arith)
            requires
                0 <= bd,
                0 <= pt <= 64,
        ;
        lemma_pow2_adds(octave as nat, octave as nat);
        lemma_pow2_adds((2 * octave) as nat, (12 - 2 * (octave as int)) as nat);
        assert((bd * pt) * pt * scale == bd * ((pt * pt) * scale)) by (nonlinear_arith);
        assert((pt * pt) * scale == pow2(12));
        assert((top * (pt - tcc) + bottom * tcc) * scale <= bd * pow2(12)) by (nonlinear_arith)
            requires
                0 <= top * (pt - tcc) + bottom * tcc <= (bd * pt) * pt,
                0 <= scale,
                (bd * pt) * pt * scale == bd * pow2(12),
        ;
        assert(bd * pow2(12) == pow2(64) - pow2(12)) by (nonlinear_arith)
            requires
                bd == pow2(52) - 1,
                pow2(52) * pow2(12) == pow2(64),
        ;
    }
    let v = (top * (pt - tcc) + bottom * tcc) * scale;
    proof {
        assert(v as int == smooth_cell(*base, octave as nat, r as int, c as int));
    }
    v
}

/// Smooths the base noise at one octave index: block sampling plus bilinear
/// interpolation over blocks of size `2^octave`, toroidal at the grid edges.
/// A pure function of the base grid; dimensions are preserved exactly.
pub fn smooth_noise(base: &WhiteNoise, octave: u32) -> (o: Octave)
    requires
        base.wf(),
        octave < OCTAVE_COUNT,
    ensures
        o.wf(),
        o.spec_width() == base.spec_width(),
        o.spec_height() == base.spec_height(),
        forall|row: int, col: int|
            0 <= row < base.spec_height() && 0 <= col < base.spec_width() ==> (
            #[trigger] o.cell(row, col)) as int == smooth_cell(*base, octave as nat, row, col),
{
    let width = base.width();
    let height = base.height();
    let period = pow2_small(octave);
    let scale = pow2_small(12 - 2 * octave) as u128;
    let mut cells: Vec<u128> = Vec::new();
    let mut r: usize = 0;
    while r < height
        invariant
            base.wf(),
            octave < OCTAVE_COUNT,
            period == pow2(octave as nat),
            scale == pow2((12 - 2 * (octave as int)) as nat),
            width == base.spec_width(),
            height == base.spec_height(),
            r <= height,
            cells@.len() == r * width,
            forall|rr: int, cc: int|
                0 <= rr < height && 0 <= cc < width && flat_index(rr, cc, width as int)
                    < cells@.len() ==> (#[trigger] cells@[flat_index(rr, cc, width as int)]) as int
                    == smooth_cell(*base, octave as nat, rr, cc) && cells@[flat_index(
                    rr,
                    cc,
                    width as int,
                )] < pow2(64),
        decreases height - r,
    {
        let mut c: usize = 0;
        while c < width
            invariant
                base.wf(),
                octave < OCTAVE_COUNT,
                period == pow2(octave as nat),
                scale == pow2((12 - 2 * (octave as int)) as nat),
                width == base.spec_width(),
                height == base.spec_height(),
                r < height,
                c <= width,
                cells@.len() == r * width + c,
                forall|rr: int, cc: int|
                    0 <= rr < height && 0 <= cc < width && flat_index(rr, cc, width as int)
                        < cells@.len() ==> (#[trigger] cells@[flat_index(
                        rr,
                        cc,
                        width as int,
                    )]) as int == smooth_cell(*base, octave as nat, rr, cc) && cells@[flat_index(
                        rr,
                        cc,
                        width as int,
                    )] < pow2(64),
            decreases width - c,
        {
            let v = smooth_one(base, octave, period, scale, r, c);
            let ghost prev = cells@;
            cells.push(v);
            proof {
                assert forall|rr: int, cc: int|
                    0 <= rr < height && 0 <= cc < width && flat_index(rr, cc, width as int)
                        < cells@.len() implies (#[trigger] cells@[flat_index(
                    rr,
                    cc,
                    width as int,
                )]) as int == smooth_cell(*base, octave as nat, rr, cc) && cells@[flat_index(
                    rr,
                    cc,
                    width as int,
                )] < pow2(64) by {
                    let fi = flat_index(rr, cc, width as int);
                    if fi < prev.len() {
                        assert(prev[fi] as int == smooth_cell(*base, octave as nat, rr, cc));
                    } else {
                        crate::grid::lemma_flat_index_injective(
                            width as int,
                            rr,
                            cc,
                            r as int,
                            c as int,
                        );
                    }
                }
            }
            c = c + 1;
        }
        proof {
            assert((r + 1) * width == r * width + width) by (nonlinear_arith);
        }
        r = r + 1;
    }
    let ghost cseq = cells@;
    let o = Octave { grid: Grid::from_cells(width, height, cells) };
    proof {
        assert forall|row: int, col: int|
            0 <= row < height && 0 <= col < width implies (#[trigger] o.cell(row, col)) as int
            == smooth_cell(*base, octave as nat, row, col) && o.cell(row, col) < pow2(64) by {
            lemma_flat_index_in_range(width as int, height as int, row, col);
            assert(cseq[flat_index(row, col, width as int)] as int == smooth_cell(
                *base,
                octave as nat,
                row,
                col,
            ));
        }
    }
    o
}

/// Blended numerator after the first `t` octaves of `octs`, at `(row, col)`.
/// The blender halves the running amplitude before each octave (persistence
/// one half), so octave `s` of `m` contributes with weight `2^(m-1-s)` to a
/// numerator whose final denominator factor is `2^m - 1`, the sum of all
/// weights. Written in Horner form: each step doubles the partial sum and
/// adds the next octave's cell.
pub open spec fn blend_cell_prefix(octs: Seq<Octave>, t: nat, row: int, col: int) -> int
    decreases t,
{
    if t == 0 {
        0
    } else {
        2 * blend_cell_prefix(octs, (t - 1) as nat, row, col) + octs[t as int - 1].cell(row, col)
    }
}

/// The blended numerator at `(row, col)` over all octaves of `octs`. The
/// cell's value is this over `(2^m - 1) * 2^64`, the weight total times the
/// octave denominator: an exact weighted average, nothing rounded.
pub open spec fn blend_cell(octs: Seq<Octave>, row: int, col: int) -> int {
    blend_cell_prefix(octs, octs.len(), row, col)
}

/// The final elevation grid: blended octave numerators at denominator
/// `(2^m - 1) * 2^64`, where `m` is the number of octaves blended; every
/// cell's value lies in [0, 1]. The sole long-lived output of the pipeline.
pub struct HeightMap {
    grid: Grid,
    octaves: usize,
}

impl View for HeightMap {
    type V = Seq<u128>;

    /// Abstractly the row-major sequence of cell numerators.
    closed spec fn view(&self) -> Seq<u128> {
        self.grid@
    }
}

impl HeightMap {
    pub closed spec fn spec_width(self) -> int {
        self.grid.spec_width()
    }

    pub closed spec fn spec_height(self) -> int {
        self.grid.spec_height()
    }

    /// The numerator at `(row, col)`; the cell's value is this over
    /// `(2^m - 1) * 2^64`.
    pub closed spec fn cell(self, row: int, col: int) -> u128 {
        self.grid.cell(row, col)
    }

    /// How many octaves were blended: the `m` of the denominator.
    pub closed spec fn octaves(self) -> int {
        self.octaves as int
    }

    pub closed spec fn backing_wf(self) -> bool {
        self.grid.wf()
    }

    /// Well-formed: a non-empty backing grid, between 1 and 64 blended
    /// octaves, and every numerator at most the weight total times the
    /// largest octave numerator — so every cell's value lies in [0, 1].
    pub open spec fn wf(self) -> bool {
        &&& self.backing_wf()
        &&& self.spec_width() >= 1
        &&& self.spec_height() >= 1
        &&& 1 <= self.octaves() <= 64
        &&& forall|row: int, col: int|
            0 <= row < self.spec_height() && 0 <= col < self.spec_width() ==> #[trigger] self.cell(
                row,
                col,
            ) <= (pow2(64) - 1) * (pow2(self.octaves() as nat) - 1)
    }

    pub fn width(&self) -> (w: usize)
        ensures
            w == self.spec_width(),
    {
        self.grid.width()
    }

    pub fn height(&self) -> (h: usize)
        ensures
            h == self.spec_height(),
    {
        self.grid.height()
    }

    pub fn octave_count(&self) -> (m: usize)
        ensures
            m == self.octaves(),
    {
        self.octaves
    }

    pub fn at(&self, row: usize, col: usize) -> (v: u128)
        requires
            self.wf(),
            row < self.spec_height(),
            col < self.spec_width(),
        ensures
            v == self.cell(row as int, col as int),
    {
        self.grid.at(row, col)
    }
}

/// Blends the given octaves over the base grid's dimensions, iterating them
/// in the order given with the running amplitude halved before each one, and
/// normalizes by the weight total. The result is the exact weighted average
/// of the octaves, held as numerators at denominator `(2^m - 1) * 2^64`.
pub fn blend(base: &WhiteNoise, octaves: &Vec<Octave>) -> (hm: HeightMap)
    requires
        base.wf(),
        1 <= octaves@.len() <= 64,
        forall|i: int|
            0 <= i < octaves@.len() ==> (#[trigger] octaves@[i]).wf() && octaves@[i].spec_width()
                == base.spec_width() && octaves@[i].spec_height() == base.spec_height(),
    ensures
        hm.wf(),
        hm.spec_width() == base.spec_width(),
        hm.spec_height() == base.spec_height(),
        hm.octaves() == octaves@.len(),
        forall|row: int, col: int|
            0 <= row < base.spec_height() && 0 <= col < base.spec_width() ==> (#[trigger] hm.cell(
                row,
                col,
            )) as int == blend_cell(octaves@, row, col),
{
    let width = base.width();
    let height = base.height();
    let m = octaves.len();
    let mut cells: Vec<u128> = Vec::new();
    let mut r: usize = 0;
    while r < height
        invariant
            base.wf(),
            1 <= m <= 64,
            m == octaves@.len(),
            forall|i: int|
                0 <= i < octaves@.len() ==> (#[trigger] octaves@[i]).wf()
                    && octaves@[i].spec_width() == base.spec_width()
                    && octaves@[i].spec_height() == base.spec_height(),
            width == base.spec_width(),
            height == base.spec_height(),
            r <= height,
            cells@.len() == r * width,
            forall|rr: int, cc: int|
                0 <= rr < height && 0 <= cc < width && flat_index(rr, cc, width as int)
                    < cells@.len() ==> (#[trigger] cells@[flat_index(rr, cc, width as int)]) as int
                    == blend_cell(octaves@, rr, cc) && cells@[flat_index(rr, cc, width as int)] <= (
                pow2(64) - 1) * (pow2(m as nat) - 1),
        decreases height - r,
    {
        let mut c: usize = 0;
        while c < width
            invariant
                base.wf(),
                1 <= m <= 64,
                m == octaves@.len(),
                forall|i: int|
                    0 <= i < octaves@.len() ==> (#[trigger] octaves@[i]).wf()
                        && octaves@[i].spec_width() == base.spec_width()
                        && octaves@[i].spec_height() == base.spec_height(),
                width == base.spec_width(),
                height == base.spec_height(),
                r < height,
                c <= width,
                cells@.len() == r * width + c,
                forall|rr: int, cc: int|
                    0 <= rr < height && 0 <= cc < width && flat_index(rr, cc, width as int)
                        < cells@.len() ==> (#[trigger] cells@[flat_index(
                        rr,
                        cc,
                        width as int,
                    )]) as int == blend_cell(octaves@, rr, cc) && cells@[flat_index(
                        rr,
                        cc,
                        width as int,
                    )] <= (pow2(64) - 1) * (pow2(m as nat) - 1),
            decreases width - c,
        {
            let mut acc: u128 = 0;
            let mut t: usize = 0;
            proof {
                lemma2_to64();
            }
            while t < m
                invariant
                    1 <= m <= 64,
                    m == octaves@.len(),
                    forall|i: int|
                        0 <= i < octaves@.len() ==> (#[trigger] octaves@[i]).wf()
                            && octaves@[i].spec_width() == base.spec_width()
                            && octaves@[i].spec_height() == base.spec_height(),
                    width == base.spec_width(),
                    height == base.spec_height(),
                    r < height,
                    c < width,
                    t <= m,
                    acc as int == blend_cell_prefix(octaves@, t as nat, r as int, c as int),
                    acc <= (pow2(64) - 1) * (pow2(t as nat) - 1),
                decreases m - t,
            {
                let x = octaves[t].at(r, c);
                proof {
                    lemma2_to64();
                    lemma2_to64_rest();
                    vstd::arithmetic::power2::lemma_pow2_unfold((t + 1) as nat);
                    if t + 1 < 64 {
                        lemma_pow2_strictly_increases((t + 1) as nat, 64);
                    }
                    assert(x < pow2(64));
                    assert(2 * acc + x <= (pow2(64) - 1) * (pow2((t + 1) as nat) - 1) && (pow2(64)
                        - 1) * (pow2((t + 1) as nat) - 1) <= (pow2(64) - 1) * (pow2(64) - 1))
                        by (nonlinear_arith)
                        requires
                            0 <= acc <= (pow2(64) - 1) * (pow2(t as nat) - 1),
                            0 <= x <= pow2(64) - 1,
                            pow2((t + 1) as nat) == 2 * pow2(t as nat),
                            1 <= pow2(t as nat),
                            pow2((t + 1) as nat) <= pow2(64),
                    ;
                    assert((pow2(64) - 1) * (pow2(64) - 1) <= u128::MAX) by (nonlinear_arith)
                        requires
                            pow2(64) == 0x10000000000000000,
                    ;
                }
                acc = acc * 2 + x;
                t = t + 1;
            }
            let ghost prev = cells@;
            cells.push(acc);
            proof {
                assert forall|rr: int, cc: int|
                    0 <= rr < height && 0 <= cc < width && flat_index(rr, cc, width as int)
                        < cells@.len() implies (#[trigger] cells@[flat_index(
                    rr,
                    cc,
                    width as int,
                )]) as int == blend_cell(octaves@, rr, cc) && cells@[flat_index(
                    rr,
                    cc,
                    width as int,
                )] <= (pow2(64) - 1) * (pow2(m as nat) - 1) by {
                    let fi = flat_index(rr, cc, width as int);
                    if fi < prev.len() {
                        assert(prev[fi] as int == blend_cell(octaves@, rr, cc));
                    } else {
                        crate::grid::lemma_flat_index_injective(
                            width as int,
                            rr,
                            cc,
                            r as int,
                            c as int,
                        );
                    }
                }
            }
            c = c + 1;
        }
        proof {
            assert((r + 1) * width == r * width + width) by (nonlinear_arith);
        }
        r = r + 1;
    }
    let ghost cseq = cells@;
    let hm = HeightMap { grid: Grid::from_cells(width, height, cells), octaves: m };
    proof {
        assert forall|row: int, col: int|
            0 <= row < height && 0 <= col < width implies (#[trigger] hm.cell(row, col)) as int
            == blend_cell(octaves@, row, col) && hm.cell(row, col) <= (pow2(64) - 1) * (pow2(
            m as nat,
        ) - 1) by {
            lemma_flat_index_in_range(width as int, height as int, row, col);
            assert(cseq[flat_index(row, col, width as int)] as int == blend_cell(
                octaves@,
                row,
                col,
            ));
        }
    }
    hm
}

/// The white-noise cell at `(row, col)` of a grid generated from `seed` with
/// the given width, without reference to a generated value.
pub open spec fn noise_grid_cell(seed: Seq<u32>, width: int, row: int, col: int) -> u128 {
    noise_value(seed, flat_index(row, col, width) as nat)
}

/// The smoothed cell at `(row, col)` for octave `k`, expressed over the
/// seed's stream alone: `smooth_cell` with every base sample replaced by the
/// white-noise cell the seed determines there.
pub open spec fn noise_octave_cell(
    seed: Seq<u32>,
    width: int,
    height: int,
    k: nat,
    row: int,
    col: int,
) -> int {
    let p = pow2(k) as int;
    let r0 = block_anchor(row, p);
    let r1 = block_neighbor(row, p, height);
    let c0 = block_anchor(col, p);
    let c1 = block_neighbor(col, p, width);
    let top = lerp_num(
        noise_grid_cell(seed, width, r0, c0) as int,
        noise_grid_cell(seed, width, r1, c0) as int,
        row - r0,
        p,
    );
    let bottom = lerp_num(
        noise_grid_cell(seed, width, r0, c1) as int,
        noise_grid_cell(seed, width, r1, c1) as int,
        row - r0,
        p,
    );
    lerp_num(top, bottom, col - c0, p) * pow2((12 - 2 * (k as int)) as nat)
}

/// On a white-noise grid of `seed`, smoothing agrees with the seed-level
/// octave cell: the four corner samples are the cells the seed determines.
pub proof fn lemma_smooth_cell_of_white_noise(
    base: WhiteNoise,
    seed: Seq<u32>,
    k: nat,
    row: int,
    col: int,
)
    requires
        is_white_noise(base, seed, base.spec_width(), base.spec_height()),
        k <= 6,
        0 <= row < base.spec_height(),
        0 <= col < base.spec_width(),
    ensures
        smooth_cell(base, k, row, col) == noise_octave_cell(
            seed,
            base.spec_width(),
            base.spec_height(),
            k,
            row,
            col,
        ),
{
    let w = base.spec_width();
    let h = base.spec_height();
    let p = pow2(k) as int;
    lemma_pow2_pos(k);
    let r0 = block_anchor(row, p);
    let c0 = block_anchor(col, p);
    assert(0 <= r0 <= row && 0 <= c0 <= col) by (nonlinear_arith)
        requires
            p >= 1,
            0 <= row,
            0 <= col,
            r0 == (row / p) * p,
            c0 == (col / p) * p,
    ;
    let r1 = block_neighbor(row, p, h);
    let c1 = block_neighbor(col, p, w);
    assert(0 <= r1 < h && 0 <= c1 < w) by (nonlinear_arith)
        requires
            h >= 1,
            w >= 1,
            r1 == (r0 + p) % h,
            c1 == (c0 + p) % w,
    ;
    assert(base.cell(r0, c0) == noise_grid_cell(seed, w, r0, c0));
    assert(base.cell(r1, c0) == noise_grid_cell(seed, w, r1, c0));
    assert(base.cell(r0, c1) == noise_grid_cell(seed, w, r0, c1));
    assert(base.cell(r1, c1) == noise_grid_cell(seed, w, r1, c1));
}

/// What one octave of the default pipeline holds: the base noise of `seed`
/// smoothed at octave index `k`, at the base grid's dimensions.
pub open spec fn is_noise_octave(o: Octave, seed: Seq<u32>, w: int, h: int, k: nat) -> bool {
    &&& o.wf()
    &&& o.spec_width() == w
    &&& o.spec_height() == h
    &&& forall|row: int, col: int|
        0 <= row < h && 0 <= col < w ==> (#[trigger] o.cell(row, col)) as int == noise_octave_cell(
            seed,
            w,
            h,
            k,
            row,
            col,
        )
}

/// The seven octaves of one pipeline run, smoothed from the seed's white
/// noise and handed over coarsest first: position `t` holds octave index
/// `OCTAVE_COUNT - 1 - t`, the reversal of generation order.
fn octaves_of(noise: &WhiteNoise, seed: Ghost<Seq<u32>>) -> (octs: Vec<Octave>)
    requires
        is_white_noise(*noise, seed@, noise.spec_width(), noise.spec_height()),
    ensures
        octs@.len() == OCTAVE_COUNT,
        forall|t: int|
            0 <= t < octs@.len() ==> is_noise_octave(
                #[trigger] octs@[t],
                seed@,
                noise.spec_width(),
                noise.spec_height(),
                (OCTAVE_COUNT - 1 - t) as nat,
            ),
{
    let mut octs: Vec<Octave> = Vec::new();
    let mut i: u32 = 0;
    while i < OCTAVE_COUNT
        invariant
            is_white_noise(*noise, seed@, noise.spec_width(), noise.spec_height()),
            i <= OCTAVE_COUNT,
            octs@.len() == i,
            forall|t: int|
                0 <= t < octs@.len() ==> is_noise_octave(
                    #[trigger] octs@[t],
                    seed@,
                    noise.spec_width(),
                    noise.spec_height(),
                    (OCTAVE_COUNT - 1 - t) as nat,
                ),
        decreases OCTAVE_COUNT - i,
    {
        let k = OCTAVE_COUNT - 1 - i;
        let o = smooth_noise(noise, k);
        proof {
            assert forall|row: int, col: int|
                0 <= row < noise.spec_height() && 0 <= col < noise.spec_width() implies (
            #[trigger] o.cell(row, col)) as int == noise_octave_cell(
                seed@,
                noise.spec_width(),
                noise.spec_height(),
                k as nat,
                row,
                col,
            ) by {
                lemma_smooth_cell_of_white_noise(*noise, seed@, k as nat, row, col);
            }
        }
        octs.push(o);
        i = i + 1;
    }
    octs
}

/// The seven octaves of the default pipeline for the given dimensions,
/// generated from the fixed all-zero seed and returned coarsest first —
/// the generation order reversed, ready for the blender. Zero dimensions
/// are rejected; any other request succeeds.
pub fn random_octaves(width: usize, height: usize) -> (result: Result<Vec<Octave>, NoiseError>)
    requires
        width * height <= usize::MAX,
    ensures
        result is Ok <==> (width >= 1 && height >= 1),
        result is Ok ==> (result->Ok_0)@.len() == OCTAVE_COUNT,
        result is Ok ==> forall|t: int|
            0 <= t < OCTAVE_COUNT ==> is_noise_octave(
                #[trigger] (result->Ok_0)@[t],
                Seed::zero_words(),
                width as int,
                height as int,
                (OCTAVE_COUNT - 1 - t) as nat,
            ),
        result is Err ==> result->Err_0 == NoiseError::InvalidDimension,
{
    let noise = match WhiteNoise::with_dimensions(width, height) {
        Ok(n) => n,
        Err(e) => {
            return Err(e);
        },
    };
    Ok(octaves_of(&noise, Ghost(Seed::zero_words())))
}

/// Blended numerator after the first `t` octaves of the default pipeline,
/// expressed over the seed's stream alone: position `s` of the blend order
/// holds octave index `OCTAVE_COUNT - 1 - s`.
pub open spec fn noise_blend_prefix(
    seed: Seq<u32>,
    width: int,
    height: int,
    t: nat,
    row: int,
    col: int,
) -> int
    decreases t,
{
    if t == 0 {
        0
    } else {
        2 * noise_blend_prefix(seed, width, height, (t - 1) as nat, row, col) + noise_octave_cell(
            seed,
            width,
            height,
            (OCTAVE_COUNT - t) as nat,
            row,
            col,
        )
    }
}

/// The height-map numerator the whole pipeline owes at `(row, col)`: seven
/// octaves smoothed from the seed's white noise, blended coarsest first.
/// The cell's value is this over `(2^7 - 1) * 2^64`.
pub open spec fn height_map_cell(
    seed: Seq<u32>,
    width: int,
    height: int,
    row: int,
    col: int,
) -> int {
    noise_blend_prefix(seed, width, height, OCTAVE_COUNT as nat, row, col)
}

/// Octaves that match the pipeline's blend into the seed-level prefix.
proof fn lemma_blend_matches_noise(
    octs: Seq<Octave>,
    seed: Seq<u32>,
    w: int,
    h: int,
    t: nat,
    row: int,
    col: int,
)
    requires
        octs.len() == OCTAVE_COUNT,
        t <= OCTAVE_COUNT,
        0 <= row < h,
        0 <= col < w,
        forall|i: int|
            0 <= i < octs.len() ==> is_noise_octave(
                #[trigger] octs[i],
                seed,
                w,
                h,
                (OCTAVE_COUNT - 1 - i) as nat,
            ),
    ensures
        blend_cell_prefix(octs, t, row, col) == noise_blend_prefix(seed, w, h, t, row, col),
    decreases t,
{
    if t > 0 {
        lemma_blend_matches_noise(octs, seed, w, h, (t - 1) as nat, row, col);
        assert(is_noise_octave(octs[t as int - 1], seed, w, h, (OCTAVE_COUNT - t) as nat));
        assert(octs[t as int - 1].cell(row, col) as int == noise_octave_cell(
            seed,
            w,
            h,
            (OCTAVE_COUNT - t) as nat,
            row,
            col,
        ));
    }
}

/// The whole pipeline: white noise from the fixed all-zero seed, seven
/// smoothed octaves, the sequence reversed so the blender sees the coarsest
/// octave first, and the weighted blend normalized by the weight total.
/// Pure and total once the dimensions are validated; zero dimensions are
/// rejected.
pub fn random_height_map(width: usize, height: usize) -> (result: Result<HeightMap, NoiseError>)
    requires
        width * height <= usize::MAX,
    ensures
        result is Ok <==> (width >= 1 && height >= 1),
        result is Ok ==> (result->Ok_0).wf() && (result->Ok_0).spec_width() == width && (
        result->Ok_0).spec_height() == height && (result->Ok_0).octaves() == OCTAVE_COUNT,
        result is Ok ==> forall|row: int, col: int|
            0 <= row < height && 0 <= col < width ==> (#[trigger] (result->Ok_0).cell(
                row,
                col,
            )) as int == height_map_cell(
                Seed::zero_words(),
                width as int,
                height as int,
                row,
                col,
            ),
        result is Err ==> result->Err_0 == NoiseError::InvalidDimension,
{
    let noise = match WhiteNoise::with_dimensions(width, height) {
        Ok(n) => n,
        Err(e) => {
            return Err(e);
        },
    };
    let octaves = octaves_of(&noise, Ghost(Seed::zero_words()));
    let hm = blend(&noise, &octaves);
    proof {
        assert forall|row: int, col: int|
            0 <= row < height && 0 <= col < width implies (#[trigger] hm.cell(row, col)) as int
            == height_map_cell(Seed::zero_words(), width as int, height as int, row, col) by {
            lemma_blend_matches_noise(
                octaves@,
                Seed::zero_words(),
                width as int,
                height as int,
                OCTAVE_COUNT as nat,
                row,
                col,
            );
        }
    }
    Ok(hm)
}

/// Octave-zero identity law: with block size one every cell is its own block
/// anchor, both interpolation weights vanish, and smoothing returns the base
/// grid unchanged — each smoothed numerator is the base numerator rescaled
/// by 2^12, the exact factor between the two denominators 2^52 and 2^64.
pub proof fn lemma_smooth_octave_zero_identity(base: WhiteNoise, row: int, col: int)
    requires
        base.wf(),
        0 <= row < base.spec_height(),
        0 <= col < base.spec_width(),
    ensures
        smooth_cell(base, 0, row, col) == base.cell(row, col) * pow2(12),
{
    lemma2_to64();
    assert(pow2(0) == 1);
    assert(block_anchor(row, 1) == row && block_anchor(col, 1) == col);
}

/// Toroidal wrap law: when the block size equals both grid dimensions, every
/// block anchor is the origin and the wrapped neighbour collapses onto it,
/// so all four corner samples are the origin cell and every smoothed cell
/// equals `base[0][0]`, rescaled by the fixed factor 2^12.
pub proof fn lemma_smooth_single_block(base: WhiteNoise, k: nat, row: int, col: int)
    requires
        base.wf(),
        k <= 6,
        pow2(k) == base.spec_width(),
        base.spec_width() == base.spec_height(),
        0 <= row < base.spec_height(),
        0 <= col < base.spec_width(),
    ensures
        smooth_cell(base, k, row, col) == base.cell(0, 0) * pow2(12),
{
    let p = pow2(k) as int;
    lemma_pow2_pos(k);
    assert(row / p == 0 && col / p == 0) by (nonlinear_arith)
        requires
            0 <= row < p,
            0 <= col < p,
            p >= 1,
    ;
    assert(block_anchor(row, p) == 0 && block_anchor(col, p) == 0);
    vstd::arithmetic::div_mod::lemma_mod_self_0(p);
    assert(block_neighbor(row, p, p) == 0 && block_neighbor(col, p, p) == 0);
    let g = base.cell(0, 0) as int;
    let top = lerp_num(g, g, row, p);
    assert(top == g * p) by (nonlinear_arith)
        requires
            top == g * (p - row) + g * row,
    ;
    let out = lerp_num(top, top, col, p);
    assert(out == (g * p) * p) by (nonlinear_arith)
        requires
            out == top * (p - col) + top * col,
            top == g * p,
    ;
    lemma_pow2_adds(k, k);
    lemma_pow2_adds((2 * k) as nat, (12 - 2 * (k as int)) as nat);
    assert((g * p) * p * pow2((12 - 2 * (k as int)) as nat) == g * pow2(12)) by (nonlinear_arith)
        requires
            p == pow2(k),
            pow2(k) * pow2(k) == pow2((2 * k) as nat),
            pow2((2 * k) as nat) * pow2((12 - 2 * (k as int)) as nat) == pow2(12),
    ;
}

/// Blend-weighting law: the amplitude weights sum exactly to the weight
/// total, so octaves that agree on a cell blend to that very cell — the
/// blended numerator is the shared octave numerator times `2^m - 1`, which
/// the denominator `(2^m - 1) * 2^64` cancels back to the octave value.
pub proof fn lemma_blend_of_uniform_octaves(octs: Seq<Octave>, value: u128, row: int, col: int)
    requires
        forall|i: int| 0 <= i < octs.len() ==> #[trigger] octs[i].cell(row, col) == value,
    ensures
        blend_cell(octs, row, col) == value * (pow2(octs.len()) - 1),
{
    lemma_blend_prefix_uniform(octs, value, octs.len(), row, col);
}

proof fn lemma_blend_prefix_uniform(octs: Seq<Octave>, value: u128, t: nat, row: int, col: int)
    requires
        t <= octs.len(),
        forall|i: int| 0 <= i < octs.len() ==> #[trigger] octs[i].cell(row, col) == value,
    ensures
        blend_cell_prefix(octs, t, row, col) == value * (pow2(t) - 1),
    decreases t,
{
    lemma2_to64();
    if t == 0 {
        assert(value * (pow2(0) - 1) == 0) by (nonlinear_arith)
            requires
                pow2(0) == 1,
        ;
    } else {
        lemma_blend_prefix_uniform(octs, value, (t - 1) as nat, row, col);
        vstd::arithmetic::power2::lemma_pow2_unfold(t);
        assert(2 * (value * (pow2((t - 1) as nat) - 1)) + value == value * (pow2(t) - 1))
            by (nonlinear_arith)
            requires
                pow2(t) == 2 * pow2((t - 1) as nat),
        ;
    }
}

/// Range law: a well-formed height map never leaves the unit interval — each
/// numerator is at most the denominator `(2^m - 1) * 2^64`, so each cell's
/// value lies in [0, 1].
pub proof fn lemma_height_map_within_unit(hm: HeightMap, row: int, col: int)
    requires
        hm.wf(),
        0 <= row < hm.spec_height(),
        0 <= col < hm.spec_width(),
    ensures
        hm.cell(row, col) <= (pow2(hm.octaves() as nat) - 1) * pow2(64),
{
    lemma_pow2_pos(hm.octaves() as nat);
    lemma_pow2_pos(64);
    assert((pow2(64) - 1) * (pow2(hm.octaves() as nat) - 1) <= (pow2(hm.octaves() as nat) - 1)
        * pow2(64)) by (nonlinear_arith)
        requires
            pow2(64) >= 1,
            pow2(hm.octaves() as nat) >= 1,
    ;
}

/// Determinism law: two white-noise grids generated from the same seed and
/// the same dimensions are identical — every draw is pinned to one position
/// of the seed's stream, so the grids agree cell by cell and as sequences.
pub proof fn lemma_white_noise_deterministic(a: WhiteNoise, b: WhiteNoise, seed: Seq<u32>, w: int, h: int)
    requires
        is_white_noise(a, seed, w, h),
        is_white_noise(b, seed, w, h),
    ensures
        forall|row: int, col: int|
            0 <= row < h && 0 <= col < w ==> #[trigger] a.cell(row, col) == b.cell(row, col),
        a@ == b@,
{
    assert forall|row: int, col: int|
        0 <= row < h && 0 <= col < w implies #[trigger] a.grid.cell(row, col) == b.grid.cell(
        row,
        col,
    ) by {
        assert(a.cell(row, col) == noise_value(seed, flat_index(row, col, w) as nat));
        assert(b.cell(row, col) == noise_value(seed, flat_index(row, col, w) as nat));
    }
    a.grid.lemma_ext_equal(b.grid);
}

} // verus!
