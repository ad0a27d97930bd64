//! The sums behind the automatic exposure: a fixed number of workgroups read every few pixels of the
//! shown radiance, and each writes a partial sum into one slot of a small host-visible buffer.
use crate::gpu::fields::{named_sizes, offset_at, packed, plain, pushed, shapes_of, structs, ParamView};
use crate::gpu::reflect::Param;
use vstd::prelude::*;

verus! {

/// Pixels read: every `STRIDE`-th in x and y.
pub const STRIDE: u32 = 4;

/// Workgroups per frame, each writing a partial sum the host adds.
pub const GROUPS: u32 = 64;

/// Adds the emitted radiance of surface pixels.
pub const F_EMISSION: u32 = 1;

/// Bytes of one partial sum.
pub const SUM_BYTES: u64 = 16;

pub open spec fn material_fields() -> Seq<(Seq<char>, u64)> {
    seq![
        ("base"@, 16),
        ("emissive"@, 16),
    ]
}

pub open spec fn param_fields() -> Seq<(Seq<char>, u64)> {
    seq![
        ("width"@, 4),
        ("height"@, 4),
        ("stride"@, 4),
        ("slot"@, 4),
        ("floor"@, 4),
        ("flags"@, 4),
        ("material_count"@, 4),
        ("groups"@, 4),
    ]
}

pub open spec fn layout_view() -> Seq<ParamView> {
    seq![
        ParamView::Descriptor("depth_tex"@, 0, Seq::empty()),
        ParamView::Descriptor("material_tex"@, 1, Seq::empty()),
        ParamView::Descriptor("radiance"@, 2, Seq::empty()),
        ParamView::Descriptor("materials"@, 3, packed(material_fields())),
        ParamView::Descriptor("sums"@, 4, Seq::empty()),
        ParamView::PushConstants("params"@, packed(param_fields())),
    ]
}

/// What the host code assumes about the exposure module.
pub fn host_layout() -> (r: Vec<Param>)
    ensures
        shapes_of(r@) == layout_view(),
{
    let materials: [(&'static str, u64); 2] = [
        ("base", 16),
        ("emissive", 16),
    ];
    let params: [(&'static str, u64); 8] = [
        ("width", 4),
        ("height", 4),
        ("stride", 4),
        ("slot", 4),
        ("floor", 4),
        ("flags", 4),
        ("material_count", 4),
        ("groups", 4),
    ];
    proof {
        reveal_with_fuel(offset_at, 10);
        assert(named_sizes(materials@) =~= material_fields());
        assert(named_sizes(params@) =~= param_fields());
    }
    let r = vec![
        plain("depth_tex", 0),
        plain("material_tex", 1),
        plain("radiance", 2),
        structs("materials", 3, &materials),
        plain("sums", 4),
        pushed("params", &params),
    ];
    assert(shapes_of(r@) =~= layout_view());
    r
}

/// Pixels read along a side: those that leave a remainder of two.
pub open spec fn samples_along(n: int) -> int {
    (n + 1) / 4
}

/// The pixel that sample `j` reads, by its row-major index.
pub open spec fn sample_at(width: int, j: int) -> int {
    let nx = samples_along(width);
    ((j / nx) * 4 + 2) * width + ((j % nx) * 4 + 2)
}

/// The pixels the pass reads for a frame, row-major indices, in the shader's order.
pub fn sample_pixels(width: u32, height: u32) -> (r: Vec<usize>)
    requires
        width * height <= usize::MAX,
    ensures
        r@.len() == samples_along(width as int) * samples_along(height as int),
        forall|j: int| 0 <= j < r@.len() ==> #[trigger] r@[j] == sample_at(width as int, j),
{
    let nx: u64 = (width as u64 + 1) / 4;
    let ny: u64 = (height as u64 + 1) / 4;
    assert(nx * ny <= 0x4000_0000 * 0x4000_0000) by (nonlinear_arith)
        requires
            0 <= nx <= 0x4000_0000,
            0 <= ny <= 0x4000_0000,
    ;
    let n: u64 = nx * ny;
    let mut out: Vec<usize> = Vec::new();
    let mut j: u64 = 0;
    while j < n
        invariant
            j <= n,
            nx == samples_along(width as int),
            ny == samples_along(height as int),
            n == nx * ny,
            width * height <= usize::MAX,
            out@.len() == j,
            forall|k: int| 0 <= k < j ==> #[trigger] out@[k] == sample_at(width as int, k),
        decreases n - j,
    {
        proof {
            lemma_rows(nx as int, ny as int, j as int);
            law_samples_are_pixels(width as int, height as int, j as int);
        }
        let row: u64 = (j / nx) * 4 + 2;
        let column: u64 = (j % nx) * 4 + 2;
        assert(row * width <= sample_at(width as int, j as int));
        assert(row * width <= 0xFFFF_FFFF * 0xFFFF_FFFF) by (nonlinear_arith)
            requires
                row < height,
                height <= 0xFFFF_FFFF,
                width <= 0xFFFF_FFFF,
        ;
        let at: u64 = row * width as u64 + column;
        out.push(at as usize);
        j += 1;
    }
    out
}

proof fn lemma_rows(nx: int, ny: int, j: int)
    requires
        0 <= j < nx * ny,
        nx >= 0,
        ny >= 0,
    ensures
        nx > 0,
        0 <= j / nx < ny,
        0 <= j % nx < nx,
{
    assert(nx > 0) by (nonlinear_arith)
        requires
            0 <= j < nx * ny,
            nx >= 0,
            ny >= 0,
    ;
    vstd::arithmetic::div_mod::lemma_fundamental_div_mod(j, nx);
    vstd::arithmetic::div_mod::lemma_mod_bound(j, nx);
    let (q, r) = (j / nx, j % nx);
    assert(0 <= q < ny) by (nonlinear_arith)
        requires
            j == nx * q + r,
            0 <= r < nx,
            0 <= j < nx * ny,
    ;
}

/// Every sample is a pixel of the frame: one in a row and a column that leave a remainder of two.
pub proof fn law_samples_are_pixels(width: int, height: int, j: int)
    requires
        0 <= width,
        0 <= height,
        0 <= j < samples_along(width) * samples_along(height),
    ensures
        0 <= sample_at(width, j) < width * height,
        sample_at(width, j) / width % 4 == 2,
        sample_at(width, j) % width % 4 == 2,
{
    let nx = samples_along(width);
    let ny = samples_along(height);
    lemma_rows(nx, ny, j);
    let row = (j / nx) * 4 + 2;
    let column = (j % nx) * 4 + 2;
    assert(0 <= row < height);
    assert(0 <= column < width);
    assert(0 <= row * width + column < width * height) by (nonlinear_arith)
        requires
            0 <= row < height,
            0 <= column < width,
    ;
    vstd::arithmetic::div_mod::lemma_fundamental_div_mod_converse(sample_at(width, j), width, row, column);
}

/// Every pixel in a row and a column that leave a remainder of two is a sample.
pub proof fn law_every_fourth_pixel_is_sampled(width: int, height: int, x: int, y: int)
    requires
        0 <= x < width,
        0 <= y < height,
        x % 4 == 2,
        y % 4 == 2,
    ensures
        exists|j: int| 0 <= j < samples_along(width) * samples_along(height) && #[trigger] sample_at(width, j) == y * width + x,
{
    let nx = samples_along(width);
    let ny = samples_along(height);
    let (q, r) = (y / 4, x / 4);
    assert(0 <= q < ny && 0 <= r < nx);
    let j = q * nx + r;
    assert(0 <= j < nx * ny) by (nonlinear_arith)
        requires
            j == q * nx + r,
            0 <= q < ny,
            0 <= r < nx,
    ;
    vstd::arithmetic::div_mod::lemma_fundamental_div_mod_converse(j, nx, q, r);
    assert(sample_at(width, j) == y * width + x);
}

/// The samples are in row-major order, so each is read once.
pub proof fn law_samples_increase(width: int, height: int, i: int, j: int)
    requires
        0 <= width,
        0 <= height,
        0 <= i < j < samples_along(width) * samples_along(height),
    ensures
        sample_at(width, i) < sample_at(width, j),
{
    let nx = samples_along(width);
    let ny = samples_along(height);
    lemma_rows(nx, ny, i);
    lemma_rows(nx, ny, j);
    vstd::arithmetic::div_mod::lemma_fundamental_div_mod(i, nx);
    vstd::arithmetic::div_mod::lemma_fundamental_div_mod(j, nx);
    let (a, b, c, d) = (i / nx, i % nx, j / nx, j % nx);
    assert(a < c || (a == c && b < d)) by (nonlinear_arith)
        requires
            nx * a + b < nx * c + d,
            0 <= b < nx,
            0 <= d < nx,
    ;
    assert(4 * b + 2 < width && 4 * d + 2 < width);
    assert((a * 4 + 2) * width + (b * 4 + 2) < (c * 4 + 2) * width + (d * 4 + 2)) by (nonlinear_arith)
        requires
            a < c || (a == c && b < d),
            0 <= b,
            0 <= d,
            4 * b + 2 < width,
    ;
}

/// Bytes of the sums: one slot per frame in flight, at least one.
pub fn sum_bytes(slots: u32) -> (r: u64)
    requires
        GROUPS * slots <= u32::MAX,
    ensures
        r == SUM_BYTES * (GROUPS * (if slots > 0 {
            slots as int
        } else {
            1
        })),
{
    let n: u32 = if slots > 0 {
        slots
    } else {
        1
    };
    SUM_BYTES * (GROUPS * n) as u64
}

/// Where the partial sum of group `g` in `slot` starts.
pub fn sum_at(slot: u32, g: u32) -> (r: u64)
    requires
        g < GROUPS,
    ensures
        r == SUM_BYTES * (slot * GROUPS + g),
{
    let n: u64 = slot as u64;
    SUM_BYTES * (64 * n + g as u64)
}

/// The pass's flags.
pub fn flags(emission: bool) -> (r: u32)
    ensures
        r == if emission {
            F_EMISSION
        } else {
            0
        },
{
    if emission {
        F_EMISSION
    } else {
        0
    }
}

} // verus!
