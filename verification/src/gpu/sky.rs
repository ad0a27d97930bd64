//! The real-time sky tables on the device. Their sizes are shader constants; tables of any other
//! size are refused.
use crate::gpu::fields::{named_sizes, offset_at, packed, plain, pushed, shapes_of, ParamView};
use crate::gpu::reflect::Param;
use vstd::prelude::*;

verus! {

pub open spec fn param_fields() -> Seq<(Seq<char>, u64)> {
    seq![
        ("sun"@, 16),
    ]
}

pub open spec fn layout_view() -> Seq<ParamView> {
    seq![
        ParamView::Descriptor("trans"@, 0, Seq::empty()),
        ParamView::Descriptor("ms"@, 1, Seq::empty()),
        ParamView::Descriptor("ground_e"@, 2, Seq::empty()),
        ParamView::Descriptor("view"@, 3, Seq::empty()),
        ParamView::Descriptor("corr"@, 4, Seq::empty()),
        ParamView::PushConstants("params"@, packed(param_fields())),
    ]
}

/// What the host code assumes about the sky module.
pub fn host_layout() -> (r: Vec<Param>)
    ensures
        shapes_of(r@) == layout_view(),
{
    let params: [(&'static str, u64); 1] = [
        ("sun", 16),
    ];
    proof {
        reveal_with_fuel(offset_at, 3);
        assert(named_sizes(params@) =~= param_fields());
    }
    let r = vec![
        plain("trans", 0),
        plain("ms", 1),
        plain("ground_e", 2),
        plain("view", 3),
        plain("corr", 4),
        pushed("params", &params),
    ];
    assert(shapes_of(r@) =~= layout_view());
    r
}

/// A table's size, and the size the shader expects.
#[derive(Clone, Copy, Debug, PartialEq, Eq, Structural)]
pub struct TableSize {
    pub w: usize,
    pub h: usize,
    pub want_w: usize,
    pub want_h: usize,
}

/// The table has the size that the shader expects.
pub open spec fn fits(s: TableSize) -> bool {
    s.w == s.want_w && s.h == s.want_h
}

/// The first table of another size than the shader expects.
pub fn check_tables(sizes: &[TableSize]) -> (r: Result<(), TableSize>)
    ensures
        match r {
            Ok(_) => forall|i: int| 0 <= i < sizes@.len() ==> fits(#[trigger] sizes@[i]),
            Err(s) => exists|i: int|
                0 <= i < sizes@.len() && #[trigger] sizes@[i] == s && !fits(s) && forall|j: int| 0 <= j < i ==> fits(#[trigger] sizes@[j]),
        },
{
    let mut i: usize = 0;
    while i < sizes.len()
        invariant
            i <= sizes@.len(),
            forall|j: int| 0 <= j < i ==> fits(#[trigger] sizes@[j]),
        decreases sizes@.len() - i,
    {
        let s = sizes[i];
        if s.w != s.want_w || s.h != s.want_h {
            assert(sizes@[i as int] == s);
            return Err(s);
        }
        i += 1;
    }
    Ok(())
}

/// The shader's bindings, by name, have the numbers of their places, and the push constants come last.
pub proof fn law_bindings_are_numbered_in_order(i: int)
    requires
        0 <= i < 5,
    ensures
        layout_view().len() == 6,
        layout_view()[i] is Descriptor && layout_view()[i]->Descriptor_1 == i,
        layout_view()[i]->Descriptor_0 == seq!["trans"@, "ms"@, "ground_e"@, "view"@, "corr"@][i],
        layout_view()[5] is PushConstants && layout_view()[5]->PushConstants_0 == "params"@,
{
}

/// A table fits only with both of its sides.
pub proof fn law_tables_fit_with_both_sides(s: TableSize)
    ensures
        fits(s) <==> s.w == s.want_w && s.h == s.want_h,
{
}

} // verus!
