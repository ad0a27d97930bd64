//! Emission after reconstruction and the exposure meter: one compute pass adds the emitted radiance
//! to the shown radiance, and meters the shown image per workgroup.
use crate::gpu::bytes::{group_count, groups_of, law_groups_are_the_fewest_that_cover};
use crate::gpu::fields::{named_sizes, offset_at, packed, plain, pushed, shapes_of, ParamView};
use crate::gpu::reflect::Param;
use vstd::prelude::*;

verus! {

/// Pixels per workgroup side.
pub const GROUP: u32 = 16;

pub const EMISSION: u32 = 1;

pub const METER: u32 = 2;

pub const FAULT_METER_WITHOUT_EMISSION: u32 = 256;

/// Planted faults for negative controls; all off by default.
#[derive(Clone, Copy, Debug, PartialEq, Eq, Structural)]
pub struct ComposeFaults {
    /// The meter reads the radiance before emission is added.
    pub meter_without_emission: bool,
}

impl Default for ComposeFaults {
    fn default() -> (r: ComposeFaults)
        ensures
            !r.meter_without_emission,
    {
        ComposeFaults { meter_without_emission: false }
    }
}

pub open spec fn param_fields() -> Seq<(Seq<char>, u64)> {
    seq![
        ("width"@, 4),
        ("height"@, 4),
        ("flags"@, 4),
        ("floor"@, 4),
        ("groups_x"@, 4),
        ("pad0"@, 4),
        ("pad1"@, 4),
        ("pad2"@, 4),
    ]
}

pub open spec fn layout_view() -> Seq<ParamView> {
    seq![
        ParamView::Descriptor("radiance"@, 0, Seq::empty()),
        ParamView::Descriptor("depth_tex"@, 1, Seq::empty()),
        ParamView::Descriptor("material_tex"@, 2, Seq::empty()),
        ParamView::Descriptor("emission"@, 3, Seq::empty()),
        ParamView::Descriptor("partials"@, 4, Seq::empty()),
        ParamView::PushConstants("params"@, packed(param_fields())),
    ]
}

/// What the host code assumes about the compose module.
pub fn host_layout() -> (r: Vec<Param>)
    ensures
        shapes_of(r@) == layout_view(),
{
    let params: [(&'static str, u64); 8] = [
        ("width", 4),
        ("height", 4),
        ("flags", 4),
        ("floor", 4),
        ("groups_x", 4),
        ("pad0", 4),
        ("pad1", 4),
        ("pad2", 4),
    ];
    proof {
        reveal_with_fuel(offset_at, 10);
        assert(named_sizes(params@) =~= param_fields());
    }
    let r = vec![
        plain("radiance", 0),
        plain("depth_tex", 1),
        plain("material_tex", 2),
        plain("emission", 3),
        plain("partials", 4),
        pushed("params", &params),
    ];
    assert(shapes_of(r@) =~= layout_view());
    r
}

/// Workgroups in each direction.
pub fn groups(width: u32, height: u32) -> (r: (u32, u32))
    ensures
        r.0 == group_count(width as int, GROUP as int),
        r.1 == group_count(height as int, GROUP as int),
{
    (groups_of(width, GROUP), groups_of(height, GROUP))
}

/// Bytes of the meter's partial sums, 16 per workgroup.
pub fn partial_bytes(groups: (u32, u32)) -> (r: u64)
    requires
        groups.0 * groups.1 <= u32::MAX,
    ensures
        r == 16 * (groups.0 * groups.1),
{
    (groups.0 * groups.1) as u64 * 16
}

/// The pass's flags: the meter always runs, emission and the fault follow the settings, and no
/// other bit is set.
pub fn flags(emission: bool, faults: ComposeFaults) -> (r: u32)
    ensures
        r & METER == METER,
        (r & EMISSION == EMISSION) == emission,
        (r & FAULT_METER_WITHOUT_EMISSION == FAULT_METER_WITHOUT_EMISSION) == faults.meter_without_emission,
        r & !259u32 == 0,
{
    let e: u32 = if emission {
        EMISSION
    } else {
        0
    };
    let f: u32 = if faults.meter_without_emission {
        FAULT_METER_WITHOUT_EMISSION
    } else {
        0
    };
    let r: u32 = METER | e | f;
    assert((e == 0 || e == 1) && (f == 0 || f == 256) && r == (2 | e | f) ==> r & 2 == 2 && (r & 1 == 1) == (e == 1) && (r & 256 == 256)
        == (f == 256) && r & !259u32 == 0) by (bit_vector);
    r
}

/// Each flag is one binary digit of the word, at the place where the shader tests it.
pub proof fn law_flags_are_binary_digits(r: u32)
    ensures
        r & EMISSION == EMISSION <==> r % 2 == 1,
        r & METER == METER <==> r / 2 % 2 == 1,
        r & FAULT_METER_WITHOUT_EMISSION == FAULT_METER_WITHOUT_EMISSION <==> r / 256 % 2 == 1,
{
    assert((r & 1u32 == 1 <==> r % 2 == 1) && (r & 2u32 == 2 <==> r / 2 % 2 == 1) && (r & 256u32 == 256 <==> r / 256 % 2 == 1)) by (bit_vector);
}

/// The workgroups cover the frame, sixteen pixels a side, and one fewer in a direction would not.
pub proof fn law_groups_cover_the_frame(n: u32)
    ensures
        16 * group_count(n as int, GROUP as int) >= n,
        n > 0 ==> 16 * (group_count(n as int, GROUP as int) - 1) < n,
{
    law_groups_are_the_fewest_that_cover(n as int, 16);
}

} // verus!
