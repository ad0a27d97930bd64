//! Debug views of the targets, one fullscreen triangle: which view the shader draws, and the region
//! table that it reads.
use crate::gpu::fields::{named_sizes, offset_at, packed, plain, pushed, shapes_of, structs, ParamView};
use crate::gpu::bytes::{law_le32_round_trips, le32, of_le32, push_u32};
use crate::gpu::layout::RegionKey;
use crate::gpu::json::{reads, Reading};
use crate::gpu::reflect::{check_stages, shapes, stage_faults, stages_say, Param, StageMismatch, Varying, VaryingView};
use crate::gpu::shade::{holds, set_bit};
use vstd::prelude::*;

verus! {

/// The views, in the shader's order.
#[derive(Clone, Copy, Debug, PartialEq, Eq, Structural)]
pub enum ViewKind {
    Material,
    Normal,
    Region,
    Brick,
    Surface,
    Depth,
    Snapshot,
    /// Sun and ambient shading.
    Lit,
    /// The real-time lighting, tone-mapped (with history, the accumulated one).
    Light,
    /// History length per pixel.
    HistoryAge,
    /// The reason of the pixel's last history decision.
    HistoryReason,
    /// Motion to the previous frame.
    Motion,
}

impl ViewKind {
    /// Every view, in the shader's order.
    pub fn all() -> (r: [ViewKind; 12])
        ensures
            forall|v: ViewKind| #[trigger] r[v.spec_index() as int] == v,
    {
        [
            ViewKind::Material,
            ViewKind::Normal,
            ViewKind::Region,
            ViewKind::Brick,
            ViewKind::Surface,
            ViewKind::Depth,
            ViewKind::Snapshot,
            ViewKind::Lit,
            ViewKind::Light,
            ViewKind::HistoryAge,
            ViewKind::HistoryReason,
            ViewKind::Motion,
        ]
    }

    /// The view's number in the shader.
    pub open spec fn spec_index(self) -> u32 {
        match self {
            ViewKind::Material => 0,
            ViewKind::Normal => 1,
            ViewKind::Region => 2,
            ViewKind::Brick => 3,
            ViewKind::Surface => 4,
            ViewKind::Depth => 5,
            ViewKind::Snapshot => 6,
            ViewKind::Lit => 7,
            ViewKind::Light => 8,
            ViewKind::HistoryAge => 9,
            ViewKind::HistoryReason => 10,
            ViewKind::Motion => 11,
        }
    }

    /// The view's number in the shader.
    pub fn index(self) -> (r: u32)
        ensures
            r == self.spec_index(),
            r < 12,
    {
        match self {
            ViewKind::Material => 0,
            ViewKind::Normal => 1,
            ViewKind::Region => 2,
            ViewKind::Brick => 3,
            ViewKind::Surface => 4,
            ViewKind::Depth => 5,
            ViewKind::Snapshot => 6,
            ViewKind::Lit => 7,
            ViewKind::Light => 8,
            ViewKind::HistoryAge => 9,
            ViewKind::HistoryReason => 10,
            ViewKind::Motion => 11,
        }
    }

    /// Whether the view shows G-buffer values; the others show lighting and temporal state.
    pub fn reads_gbuffer(self) -> (r: bool)
        ensures
            r == !(self is Light || self is HistoryAge || self is HistoryReason || self is Motion),
    {
        match self {
            ViewKind::Light | ViewKind::HistoryAge | ViewKind::HistoryReason | ViewKind::Motion => false,
            _ => true,
        }
    }

    pub fn name(self) -> (r: &'static str)
        ensures
            r@ == match self {
                ViewKind::Material => "material"@,
                ViewKind::Normal => "normal"@,
                ViewKind::Region => "region hash"@,
                ViewKind::Brick => "brick hash"@,
                ViewKind::Surface => "surface-id hash"@,
                ViewKind::Depth => "linear depth"@,
                ViewKind::Snapshot => "snapshot version"@,
                ViewKind::Lit => "lit"@,
                ViewKind::Light => "light"@,
                ViewKind::HistoryAge => "history age"@,
                ViewKind::HistoryReason => "history reason"@,
                ViewKind::Motion => "motion"@,
            },
    {
        match self {
            ViewKind::Material => "material",
            ViewKind::Normal => "normal",
            ViewKind::Region => "region hash",
            ViewKind::Brick => "brick hash",
            ViewKind::Surface => "surface-id hash",
            ViewKind::Depth => "linear depth",
            ViewKind::Snapshot => "snapshot version",
            ViewKind::Lit => "lit",
            ViewKind::Light => "light",
            ViewKind::HistoryAge => "history age",
            ViewKind::HistoryReason => "history reason",
            ViewKind::Motion => "motion",
        }
    }
}

/// Which visibility result the views read.
#[derive(Clone, Copy, Debug, PartialEq, Eq, Structural)]
pub enum Source {
    /// The raster targets.
    Raster,
    /// The ray-query outputs (the ray pass must have run for this frame).
    Ray,
}

/// Set beside the view's number when the light view adds emission.
pub const EMISSION_BIT: u32 = 256;

/// The word that tells the shader what to draw: the view's number, and the emission bit.
pub fn selector(view: ViewKind, emission: bool) -> (r: u32)
    ensures
        r & 255 == view.spec_index(),
        holds(r, EMISSION_BIT) == (emission && view is Light),
        r < 512,
{
    let i: u32 = view.index();
    let on: bool = emission && matches!(view, ViewKind::Light);
    let r: u32 = set_bit(i, on, EMISSION_BIT);
    assert((i | 256) & 255 == i && holds(i | 256, 256) && i & 255 == i && !holds(i, 256) && i | 256 < 512) by (bit_vector)
        requires
            i < 12,
    ;
    r
}

/// The word that tells the shader which result to read.
pub fn source_word(s: Source) -> (r: u32)
    ensures
        r == if s is Ray {
            1u32
        } else {
            0
        },
{
    match s {
        Source::Raster => 0,
        Source::Ray => 1,
    }
}

pub open spec fn material_fields() -> Seq<(Seq<char>, u64)> {
    seq![
        ("base"@, 16),
        ("emissive"@, 16),
    ]
}

pub open spec fn param_fields() -> Seq<(Seq<char>, u64)> {
    seq![
        ("right"@, 16),
        ("up"@, 16),
        ("forward"@, 16),
        ("eye"@, 16),
        ("origin"@, 16),
        ("info"@, 16),
        ("sun"@, 16),
        ("light"@, 16),
    ]
}

pub open spec fn layout_view() -> Seq<ParamView> {
    seq![
        ParamView::Descriptor("depth_tex"@, 0, Seq::empty()),
        ParamView::Descriptor("normal_tex"@, 1, Seq::empty()),
        ParamView::Descriptor("material_tex"@, 2, Seq::empty()),
        ParamView::Descriptor("surface_tex"@, 3, Seq::empty()),
        ParamView::Descriptor("materials"@, 4, packed(material_fields())),
        ParamView::Descriptor("regions"@, 5, Seq::empty()),
        ParamView::Descriptor("ray_hits"@, 6, Seq::empty()),
        ParamView::Descriptor("ray_surfaces"@, 7, Seq::empty()),
        ParamView::Descriptor("radiance"@, 8, Seq::empty()),
        ParamView::Descriptor("motion"@, 9, Seq::empty()),
        ParamView::PushConstants("params"@, packed(param_fields())),
    ]
}

/// What the host code assumes about both modules.
pub fn host_layout() -> (r: Vec<Param>)
    ensures
        shapes_of(r@) == layout_view(),
{
    let materials: [(&'static str, u64); 2] = [
        ("base", 16),
        ("emissive", 16),
    ];
    let params: [(&'static str, u64); 8] = [
        ("right", 16),
        ("up", 16),
        ("forward", 16),
        ("eye", 16),
        ("origin", 16),
        ("info", 16),
        ("sun", 16),
        ("light", 16),
    ];
    proof {
        reveal_with_fuel(offset_at, 10);
        assert(named_sizes(materials@) =~= material_fields());
        assert(named_sizes(params@) =~= param_fields());
    }
    let r = vec![
        plain("depth_tex", 0),
        plain("normal_tex", 1),
        plain("material_tex", 2),
        plain("surface_tex", 3),
        structs("materials", 4, &materials),
        plain("regions", 5),
        plain("ray_hits", 6),
        plain("ray_surfaces", 7),
        plain("radiance", 8),
        plain("motion", 9),
        pushed("params", &params),
    ];
    assert(shapes_of(r@) =~= layout_view());
    r
}

/// The single colour output: a bare vector, reflected without a name.
pub open spec fn outputs_view() -> Seq<VaryingView> {
    seq![(Seq::<char>::empty(), 0, "float32"@, 4)]
}

/// Checks both modules' reflection: bindings, push constants, no vertex input, and the single colour
/// output.
pub fn check_reflection<F: Fn(&[u8]) -> Option<Option<u64>>>(vs: &str, fs: &str, read: &F) -> (r: Result<(), Vec<StageMismatch>>)
    requires
        forall|t: &[u8]| read.requires((t,)),
    ensures
        exists|expected: Seq<Param>| #[trigger]
            shapes_of(expected) == layout_view() && forall|f: Reading| #[trigger]
                reads(*read, f) ==> match r {
                    Ok(_) => stages_say(vs@, fs@, f, expected, Seq::empty(), outputs_view(), Seq::empty()),
                    Err(ms) => ms@.len() > 0 && stages_say(vs@, fs@, f, expected, Seq::empty(), outputs_view(), stage_faults(ms@)),
                },
{
    let expected = host_layout();
    let inputs: Vec<Varying> = Vec::new();
    let outputs = vec![Varying { name: String::new(), location: 0, scalar: "float32".to_owned(), components: 4 }];
    assert(shapes(inputs@) =~= Seq::empty());
    assert(shapes(outputs@) =~= outputs_view());
    let r = check_stages(vs, fs, expected.as_slice(), &inputs, &outputs, read);
    assert(shapes_of(expected@) == layout_view());
    r
}

/// The bits of a coordinate, as two's complement.
pub open spec fn bits_of(x: i32) -> u32 {
    if x >= 0 {
        x as u32
    } else {
        (x + 4294967296) as u32
    }
}

fn to_bits(x: i32) -> (r: u32)
    ensures
        r == bits_of(x),
{
    if x >= 0 {
        x as u32
    } else {
        (x as i64 + 4294967296) as u32
    }
}

/// One row of the region table: the key, and the low word of the snapshot's version.
pub open spec fn row_image(row: (RegionKey, u64)) -> Seq<u8> {
    le32(bits_of(row.0.x)) + le32(bits_of(row.0.y)) + le32(bits_of(row.0.z)) + le32((row.1 % 4294967296) as u32)
}

/// The first `n` rows one behind the other.
pub open spec fn rows_image(rows: Seq<(RegionKey, u64)>, n: nat) -> Seq<u8>
    decreases n,
{
    if n == 0 {
        Seq::empty()
    } else {
        rows_image(rows, (n - 1) as nat) + row_image(rows[n - 1])
    }
}

/// The region table's bytes, one row per region in region index order.
pub fn region_bytes(rows: &[(RegionKey, u64)]) -> (r: Vec<u8>)
    ensures
        r@ == rows_image(rows@, rows@.len()),
{
    let mut out: Vec<u8> = Vec::new();
    let mut i: usize = 0;
    while i < rows.len()
        invariant
            i <= rows@.len(),
            out@ == rows_image(rows@, i as nat),
        decreases rows@.len() - i,
    {
        let ghost before = out@;
        let (k, s) = rows[i];
        push_u32(&mut out, to_bits(k.x));
        push_u32(&mut out, to_bits(k.y));
        push_u32(&mut out, to_bits(k.z));
        push_u32(&mut out, (s % 4294967296) as u32);
        assert(out@ =~= before + row_image(rows@[i as int]));
        i += 1;
    }
    out
}

/// Row `i` of the region table stands at byte `16 i`.
pub proof fn law_region_table_holds_every_row(rows: Seq<(RegionKey, u64)>, n: nat, i: int)
    requires
        0 <= i < n <= rows.len(),
    ensures
        rows_image(rows, n).len() == 16 * n,
        rows_image(rows, n).subrange(16 * i, 16 * (i + 1)) == row_image(rows[i]),
    decreases n,
{
    assert(row_image(rows[n - 1]).len() == 16);
    if n > 1 {
        law_region_table_holds_every_row(
            rows,
            (n - 1) as nat,
            if i < n - 1 {
                i
            } else {
                0
            },
        );
    }
    let before = rows_image(rows, (n - 1) as nat);
    let now = rows_image(rows, n);
    if i < n - 1 {
        assert(now.subrange(16 * i, 16 * (i + 1)) =~= before.subrange(16 * i, 16 * (i + 1)));
    } else {
        assert(now.subrange(16 * i, 16 * (i + 1)) =~= row_image(rows[i]));
    }
}

/// Bytes of a table's buffer: at least one row.
pub fn table_bytes(len: u64) -> (r: u64)
    ensures
        r == if len > 16 {
            len as int
        } else {
            16
        },
{
    if len > 16 {
        len
    } else {
        16
    }
}

/// The shader numbers the views from zero in this order.
pub proof fn law_views_are_numbered_in_order(k: int)
    requires
        0 <= k < 12,
    ensures
        ({
            let all = seq![
                ViewKind::Material,
                ViewKind::Normal,
                ViewKind::Region,
                ViewKind::Brick,
                ViewKind::Surface,
                ViewKind::Depth,
                ViewKind::Snapshot,
                ViewKind::Lit,
                ViewKind::Light,
                ViewKind::HistoryAge,
                ViewKind::HistoryReason,
                ViewKind::Motion,
            ];
            all[k].spec_index() == k && forall|v: ViewKind| #[trigger] v.spec_index() == k ==> v == all[k]
        }),
{
}

/// Row `i` of the region table reads back as the region's key, each coordinate as a signed word in turn, and the
/// snapshot's version without its high word.
pub proof fn law_region_rows_read_back(rows: Seq<(RegionKey, u64)>, n: nat, i: int)
    requires
        0 <= i < n <= rows.len(),
    ensures
        ({
            let b = rows_image(rows, n);
            let (k, version) = rows[i];
            let x = of_le32(b.subrange(16 * i, 16 * i + 4));
            let y = of_le32(b.subrange(16 * i + 4, 16 * i + 8));
            let z = of_le32(b.subrange(16 * i + 8, 16 * i + 12));
            &&& x == k.x || x == k.x + 0x1_0000_0000 && k.x < 0
            &&& y == k.y || y == k.y + 0x1_0000_0000 && k.y < 0
            &&& z == k.z || z == k.z + 0x1_0000_0000 && k.z < 0
            &&& of_le32(b.subrange(16 * i + 12, 16 * i + 16)) == version % 0x1_0000_0000
        }),
{
    law_region_table_holds_every_row(rows, n, i);
    let b = rows_image(rows, n);
    let (k, version) = rows[i];
    let row = row_image(rows[i]);
    law_le32_round_trips(bits_of(k.x));
    law_le32_round_trips(bits_of(k.y));
    law_le32_round_trips(bits_of(k.z));
    law_le32_round_trips((version % 4294967296) as u32);
    assert(b.subrange(16 * i, 16 * i + 4) =~= le32(bits_of(k.x))) by {
        assert(b.subrange(16 * i, 16 * i + 4) =~= row.subrange(0, 4));
    }
    assert(b.subrange(16 * i + 4, 16 * i + 8) =~= le32(bits_of(k.y))) by {
        assert(b.subrange(16 * i + 4, 16 * i + 8) =~= row.subrange(4, 8));
    }
    assert(b.subrange(16 * i + 8, 16 * i + 12) =~= le32(bits_of(k.z))) by {
        assert(b.subrange(16 * i + 8, 16 * i + 12) =~= row.subrange(8, 12));
    }
    assert(b.subrange(16 * i + 12, 16 * i + 16) =~= le32((version % 4294967296) as u32)) by {
        assert(b.subrange(16 * i + 12, 16 * i + 16) =~= row.subrange(12, 16));
    }
}

/// The shader's bindings, by name, have the numbers of their places, and the push constants come last.
pub proof fn law_bindings_are_numbered_in_order(i: int)
    requires
        0 <= i < 10,
    ensures
        layout_view().len() == 11,
        layout_view()[i] is Descriptor && layout_view()[i]->Descriptor_1 == i,
        layout_view()[i]->Descriptor_0 == seq![
            "depth_tex"@,
            "normal_tex"@,
            "material_tex"@,
            "surface_tex"@,
            "materials"@,
            "regions"@,
            "ray_hits"@,
            "ray_surfaces"@,
            "radiance"@,
            "motion"@,
        ][i],
        layout_view()[10] is PushConstants && layout_view()[10]->PushConstants_0 == "params"@,
{
}

/// The push constants are eight vectors, in the shader's order.
pub proof fn law_params_are_vectors_in_order()
    ensures
        packed(param_fields()).len() == 8,
        packed(param_fields())[0] == ("right"@, 0u64, 16u64),
        packed(param_fields())[1] == ("up"@, 16u64, 16u64),
        packed(param_fields())[2] == ("forward"@, 32u64, 16u64),
        packed(param_fields())[3] == ("eye"@, 48u64, 16u64),
        packed(param_fields())[4] == ("origin"@, 64u64, 16u64),
        packed(param_fields())[5] == ("info"@, 80u64, 16u64),
        packed(param_fields())[6] == ("sun"@, 96u64, 16u64),
        packed(param_fields())[7] == ("light"@, 112u64, 16u64),
{
    reveal_with_fuel(offset_at, 10);
}

} // verus!
