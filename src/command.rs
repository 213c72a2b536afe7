//! The command buffer being encoded, and the native commands it emits.
use vstd::prelude::*;
use crate::init_tracker::{MemoryInitAction, TextureInitAction, TextureSurface};
use crate::track::{PendingTransition, UsageTracker};

verus! {

/// Encoding state of a command buffer. `Error` is terminal: a buffer in it can neither be
/// encoded into nor submitted.
#[derive(Clone, Copy, Debug, PartialEq, Eq, Structural)]
pub enum CommandEncoderStatus {
    Recording,
    Finished,
    Error,
}

/// Device limits that validation reads.
#[derive(Clone, Copy, Debug, PartialEq, Eq, Structural)]
pub struct Limits {
    pub max_bind_groups: u32,
    pub max_compute_workgroups_per_dimension: u32,
    pub min_uniform_buffer_offset_alignment: u32,
    pub min_storage_buffer_offset_alignment: u32,
}

/// Where a copy region starts in the texture.
#[derive(Clone, Copy, Debug, PartialEq, Eq, Structural)]
pub struct Origin3d {
    pub x: u32,
    pub y: u32,
    pub z: u32,
}

/// The size of a copy region in texels.
#[derive(Clone, Copy, Debug, PartialEq, Eq, Structural)]
pub struct CopyExtent {
    pub width: u32,
    pub height: u32,
    pub depth: u32,
}

/// One region of a buffer-to-texture copy; the buffer side starts at offset 0.
#[derive(Clone, Copy, Debug, PartialEq, Eq, Structural)]
pub struct BufferTextureCopy {
    pub bytes_per_row: u32,
    pub mip_level: u32,
    pub array_layer: u32,
    pub origin: Origin3d,
    pub size: CopyExtent,
}

/// A command handed to the native encoder.
#[allow(inconsistent_fields)]
#[derive(Clone, Debug, PartialEq)]
pub enum NativeCommand {
    /// A barrier on a buffer.
    TransitionBuffer(PendingTransition),
    /// A barrier on a texture subresource.
    TransitionTexture(PendingTransition),
    /// Fill bytes `start..end` of a buffer with zeros.
    ClearBuffer { buffer: u64, start: u64, end: u64 },
    /// Copy from the device's zero-filled scratch buffer into a texture.
    CopyZeroBufferToTexture { texture: u64, regions: Vec<BufferTextureCopy> },
    BeginComputePass,
    EndComputePass,
    SetComputePipeline(u64),
    SetBindGroup { index: u32, bind_group: u64, dynamic_offsets: Vec<u32> },
    SetPushConstants { offset: u32, data: Vec<u32> },
    Dispatch { x: u32, y: u32, z: u32 },
    DispatchIndirect { buffer: u64, offset: u64 },
    BeginDebugMarker(Vec<u8>),
    EndDebugMarker,
    InsertDebugMarker(Vec<u8>),
    WriteTimestamp { query_set: u64, query_index: u32 },
    BeginPipelineStatisticsQuery { query_set: u64, query_index: u32 },
    EndPipelineStatisticsQuery { query_set: u64, query_index: u32 },
    /// Zero one texture subresource whose contents were discarded, before it is read.
    ZeroSurface(TextureSurface),
}

/// A command buffer under encoding: its status, the device facts it was created with,
/// its usage trackers, its pending memory-initialisation actions, and the native
/// commands emitted so far.
pub struct CommandBuffer {
    pub id: u64,
    pub status: CommandEncoderStatus,
    pub support_clear_buffer_texture: bool,
    pub supports_indirect_execution: bool,
    pub limits: Limits,
    /// Required alignment of `bytes_per_row` in buffer-texture copies.
    pub buffer_copy_pitch: u32,
    pub buffer_trackers: UsageTracker,
    pub texture_trackers: UsageTracker,
    pub buffer_memory_init_actions: Vec<MemoryInitAction>,
    pub texture_memory_init_actions: Vec<TextureInitAction>,
    /// Texture subresources whose contents were discarded and are not yet defined again.
    pub discarded_surfaces: Vec<TextureSurface>,
    /// The query sets that the recorded commands use, in order of use.
    pub used_query_sets: Vec<u64>,
    pub raw: Vec<NativeCommand>,
}

/// The native barrier commands for `ts`, in order.
pub open spec fn barrier_commands(ts: Seq<PendingTransition>, textures: bool) -> Seq<NativeCommand> {
    ts.map_values(
        |t: PendingTransition|
            if textures {
                NativeCommand::TransitionTexture(t)
            } else {
                NativeCommand::TransitionBuffer(t)
            },
    )
}

/// Emits a barrier command for each of `ts`, in order.
pub fn push_barriers(raw: &mut Vec<NativeCommand>, ts: &Vec<PendingTransition>, textures: bool)
    ensures
        final(raw)@ == old(raw)@ + barrier_commands(ts@, textures),
{
    let ghost base = raw@;
    let mut i: usize = 0;
    while i < ts.len()
        invariant
            i <= ts@.len(),
            raw@ == base + barrier_commands(ts@.take(i as int), textures),
        decreases ts@.len() - i,
    {
        let t = ts[i];
        if textures {
            raw.push(NativeCommand::TransitionTexture(t));
        } else {
            raw.push(NativeCommand::TransitionBuffer(t));
        }
        assert(ts@.take(i + 1) == ts@.take(i as int).push(t));
        assert(barrier_commands(ts@.take(i + 1), textures) =~= barrier_commands(
            ts@.take(i as int),
            textures,
        ).push(raw@.last()));
        i = i + 1;
    }
    assert(ts@.take(ts@.len() as int) == ts@);
}

impl CommandBuffer {
    /// `self` and `other` are the same command buffer with the same device facts and status.
    pub open spec fn same_setup(&self, other: &CommandBuffer) -> bool {
        &&& self.id == other.id
        &&& self.status == other.status
        &&& self.support_clear_buffer_texture == other.support_clear_buffer_texture
        &&& self.supports_indirect_execution == other.supports_indirect_execution
        &&& self.limits == other.limits
        &&& self.buffer_copy_pitch == other.buffer_copy_pitch
    }

    pub open spec fn wf(&self) -> bool {
        &&& self.buffer_trackers.wf()
        &&& self.texture_trackers.wf()
        &&& 1 <= self.buffer_copy_pitch
        &&& self.limits.max_bind_groups <= 8
        &&& self.limits.min_uniform_buffer_offset_alignment >= 1
        &&& self.limits.min_storage_buffer_offset_alignment >= 1
    }

    /// `self` is `old` after more encoding: same setup, well formed, and the native
    /// commands of `old` still at the front.
    pub open spec fn extends(&self, old: &CommandBuffer) -> bool {
        &&& self.wf()
        &&& self.same_setup(old)
        &&& old.raw@.len() <= self.raw@.len()
        &&& self.raw@.subrange(0, old.raw@.len() as int) == old.raw@
    }

    /// A fresh command buffer, recording, with nothing tracked or emitted.
    pub fn new(
        id: u64,
        support_clear_buffer_texture: bool,
        supports_indirect_execution: bool,
        limits: Limits,
        buffer_copy_pitch: u32,
    ) -> (r: CommandBuffer)
        requires
            1 <= buffer_copy_pitch,
            limits.max_bind_groups <= 8,
            limits.min_uniform_buffer_offset_alignment >= 1,
            limits.min_storage_buffer_offset_alignment >= 1,
        ensures
            r.wf(),
            r.id == id,
            r.status == CommandEncoderStatus::Recording,
            r.support_clear_buffer_texture == support_clear_buffer_texture,
            r.supports_indirect_execution == supports_indirect_execution,
            r.limits == limits,
            r.buffer_copy_pitch == buffer_copy_pitch,
            r.buffer_trackers@ == Map::<crate::track::SubresourceKey, u32>::empty(),
            r.texture_trackers@ == Map::<crate::track::SubresourceKey, u32>::empty(),
            r.buffer_memory_init_actions@.len() == 0,
            r.texture_memory_init_actions@.len() == 0,
            r.discarded_surfaces@.len() == 0,
            r.used_query_sets@.len() == 0,
            r.raw@.len() == 0,
    {
        CommandBuffer {
            id,
            status: CommandEncoderStatus::Recording,
            support_clear_buffer_texture,
            supports_indirect_execution,
            limits,
            buffer_copy_pitch,
            buffer_trackers: UsageTracker::new(),
            texture_trackers: UsageTracker::new(),
            buffer_memory_init_actions: Vec::new(),
            texture_memory_init_actions: Vec::new(),
            discarded_surfaces: Vec::new(),
            used_query_sets: Vec::new(),
            raw: Vec::new(),
        }
    }
}

} // verus!
