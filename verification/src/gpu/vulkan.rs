//! The flag tests and constants of the Vulkan bindings that the library's decisions rest on, over
//! raw bits.
use ash::vk;
use vstd::prelude::*;

verus! {

/// `vk::MemoryPropertyFlags::DEVICE_LOCAL`: bit 0.
#[verifier::external_body]
pub(crate) fn device_local() -> (r: u32)
    ensures
        r == 1,
{
    vk::MemoryPropertyFlags::DEVICE_LOCAL.as_raw()
}

/// `vk::MemoryPropertyFlags::HOST_VISIBLE`: bit 1.
#[verifier::external_body]
pub(crate) fn host_visible() -> (r: u32)
    ensures
        r == 2,
{
    vk::MemoryPropertyFlags::HOST_VISIBLE.as_raw()
}

/// `vk::MemoryPropertyFlags::HOST_COHERENT`: bit 2.
#[verifier::external_body]
pub(crate) fn host_coherent() -> (r: u32)
    ensures
        r == 4,
{
    vk::MemoryPropertyFlags::HOST_COHERENT.as_raw()
}

/// `vk::MemoryPropertyFlags::contains`: every bit of `want` is set in `flags`.
#[verifier::external_body]
pub(crate) fn memory_contains(flags: u32, want: u32) -> (r: bool)
    ensures
        r == (flags & want == want),
{
    vk::MemoryPropertyFlags::from_raw(flags).contains(vk::MemoryPropertyFlags::from_raw(want))
}

/// `vk::MemoryPropertyFlags::intersects`: some bit is set in both.
#[verifier::external_body]
pub(crate) fn memory_intersects(flags: u32, other: u32) -> (r: bool)
    ensures
        r == (flags & other != 0),
{
    vk::MemoryPropertyFlags::from_raw(flags).intersects(vk::MemoryPropertyFlags::from_raw(other))
}

/// `vk::MemoryHeapFlags::contains` with `vk::MemoryHeapFlags::DEVICE_LOCAL`: bit 0 is set.
#[verifier::external_body]
pub(crate) fn heap_is_device_local(flags: u32) -> (r: bool)
    ensures
        r == (flags & 1 == 1),
{
    vk::MemoryHeapFlags::from_raw(flags).contains(vk::MemoryHeapFlags::DEVICE_LOCAL)
}

/// `vk::QueueFlags::contains` with `GRAPHICS` and `COMPUTE`: bits 0 and 1 are set.
#[verifier::external_body]
pub(crate) fn queue_draws_and_computes(flags: u32) -> (r: bool)
    ensures
        r == (flags & 3 == 3),
{
    vk::QueueFlags::from_raw(flags).contains(vk::QueueFlags::GRAPHICS | vk::QueueFlags::COMPUTE)
}

/// `vk::API_VERSION_1_3`: major 1 from bit 22, minor 3 from bit 12.
#[verifier::external_body]
pub(crate) fn api_version_1_3() -> (r: u32)
    ensures
        r == 4206592,
{
    vk::API_VERSION_1_3
}

/// `vk::Packed24_8::new`, read back by `low_24` and `high_8`: the low 24 bits of `low`, and `high`.
#[verifier::external_body]
pub(crate) fn packed24_8(low: u32, high: u8) -> (r: (u32, u8))
    ensures
        r.0 == low & 0x00ff_ffff,
        r.1 == high,
{
    let p = vk::Packed24_8::new(low, high);
    (p.low_24(), p.high_8())
}

/// `vk::GeometryInstanceFlagsKHR::TRIANGLE_FRONT_COUNTERCLOCKWISE`: bit 1.
#[verifier::external_body]
pub(crate) fn front_counterclockwise() -> (r: u32)
    ensures
        r == 2,
{
    vk::GeometryInstanceFlagsKHR::TRIANGLE_FRONT_COUNTERCLOCKWISE.as_raw()
}

/// `vk::Format::B8G8R8A8_SRGB`, as a number.
#[verifier::external_body]
pub(crate) fn format_bgra_srgb() -> (r: i32)
    ensures
        r == 50,
{
    vk::Format::B8G8R8A8_SRGB.as_raw()
}

/// `vk::ColorSpaceKHR::SRGB_NONLINEAR`, as a number.
#[verifier::external_body]
pub(crate) fn space_srgb() -> (r: i32)
    ensures
        r == 0,
{
    vk::ColorSpaceKHR::SRGB_NONLINEAR.as_raw()
}

/// `vk::PresentModeKHR::FIFO`, as a number.
#[verifier::external_body]
pub(crate) fn present_fifo() -> (r: i32)
    ensures
        r == 2,
{
    vk::PresentModeKHR::FIFO.as_raw()
}

} // verus!
