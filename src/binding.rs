//! Bind groups, pipeline layouts, compute pipelines and query sets as the registry holds
//! them.
use vstd::prelude::*;
use crate::init_tracker::{MemoryInitAction, TextureInitAction};
use crate::track::UsageTracker;

verus! {

/// The kind of buffer binding that takes a dynamic offset; it decides the offset's
/// alignment.
#[derive(Clone, Copy, Debug, PartialEq, Eq, Structural)]
pub enum DynamicBindingKind {
    Uniform,
    Storage,
}

/// A bind group: the layout it was made for, its dynamic bindings in order, the usages
/// it puts on buffers and textures, and the buffer ranges and texture subresources its
/// shaders may read.
pub struct BindGroup {
    pub layout_id: u64,
    pub dynamic_bindings: Vec<DynamicBindingKind>,
    pub used_buffers: UsageTracker,
    pub used_textures: UsageTracker,
    pub used_buffer_ranges: Vec<MemoryInitAction>,
    pub used_texture_ranges: Vec<TextureInitAction>,
}

impl BindGroup {
    pub open spec fn wf(&self) -> bool {
        self.used_buffers.wf() && self.used_textures.wf()
    }
}

/// A push-constant byte range `start..end` that a layout declares for compute shaders.
#[derive(Clone, Copy, Debug, PartialEq, Eq, Structural)]
pub struct PushConstantRange {
    pub start: u32,
    pub end: u32,
}

/// A pipeline layout: the bind group layout expected at each slot, and the push-constant
/// ranges.
pub struct PipelineLayout {
    pub bind_group_layout_ids: Vec<u64>,
    pub push_constant_ranges: Vec<PushConstantRange>,
}

/// A compute pipeline and the layout it was made with.
#[derive(Clone, Copy, Debug, PartialEq, Eq, Structural)]
pub struct ComputePipeline {
    pub layout_id: u64,
}

#[derive(Clone, Copy, Debug, PartialEq, Eq, Structural)]
pub enum QueryType {
    Timestamp,
    PipelineStatistics,
}

/// A query set: what it queries and how many queries it holds.
#[derive(Clone, Copy, Debug, PartialEq, Eq, Structural)]
pub struct QuerySet {
    pub ty: QueryType,
    pub count: u32,
}

} // verus!
