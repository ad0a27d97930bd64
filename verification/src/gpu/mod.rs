//! What the renderer decides on the host: device layouts, allocation, retirement, scene updates
//! and the checks that tie them to the compiled shaders.
pub mod accel;
pub mod allocator;
pub mod bytes;
pub mod compose;
pub mod context;
pub mod debug_view;
pub mod decode;
pub mod denoise;
pub mod emitters;
pub mod equivalence;
pub mod exposure;
pub mod fields;
pub mod json;
pub mod layout;
pub mod mesh;
pub mod notation;
pub mod present;
pub mod raster;
pub mod ray;
pub mod reference;
pub mod reflect;
pub mod regions;
pub mod regrouping;
pub mod scene;
pub mod shade;
pub mod sky;
pub mod sky_bake;
pub mod spirv;
pub mod staging;
pub mod submit;
pub mod temporal;
pub mod timeline;
pub mod timing;
pub mod vulkan;
