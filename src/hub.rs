//! The registries of every kind of resource that commands refer to by id.
use vstd::prelude::*;
use crate::binding::{BindGroup, ComputePipeline, PipelineLayout, QuerySet};
use crate::resource::{Buffer, Storage, Texture};

verus! {

/// The resource registries. Commands only read them; what a command buffer changes is
/// held in the command buffer.
pub struct Global {
    pub buffers: Storage<Buffer>,
    pub textures: Storage<Texture>,
    pub bind_groups: Storage<BindGroup>,
    pub pipeline_layouts: Storage<PipelineLayout>,
    pub compute_pipelines: Storage<ComputePipeline>,
    pub query_sets: Storage<QuerySet>,
}

impl Global {
    /// Every texture is well formed, every bind group's trackers are, and no pipeline
    /// layout has more than eight bind group slots.
    pub open spec fn wf(&self) -> bool {
        &&& forall|i: int|
            0 <= i < self.textures.items@.len() && #[trigger] self.textures.items@[i] is Some
                ==> self.textures.items@[i]->Some_0.wf()
        &&& forall|i: int|
            0 <= i < self.bind_groups.items@.len() && #[trigger] self.bind_groups.items@[i] is Some
                ==> self.bind_groups.items@[i]->Some_0.wf()
        &&& forall|i: int|
            0 <= i < self.pipeline_layouts.items@.len() && #[trigger] self.pipeline_layouts.items@[i]
                is Some ==> self.pipeline_layouts.items@[i]->Some_0.bind_group_layout_ids@.len() <= 8
    }

    pub fn new() -> (r: Global)
        ensures
            r.wf(),
            r.buffers.items@.len() == 0,
            r.textures.items@.len() == 0,
            r.bind_groups.items@.len() == 0,
            r.pipeline_layouts.items@.len() == 0,
            r.compute_pipelines.items@.len() == 0,
            r.query_sets.items@.len() == 0,
    {
        Global {
            buffers: Storage::new(),
            textures: Storage::new(),
            bind_groups: Storage::new(),
            pipeline_layouts: Storage::new(),
            compute_pipelines: Storage::new(),
            query_sets: Storage::new(),
        }
    }
}

} // verus!
