//! Compute passes: the recorded command stream with its side buffers, and its replay,
//! which validates each command, tracks resource usage and emits native commands.
use vstd::prelude::*;
use vstd::string::StringSliceAdditionalSpecFns;
use crate::binding::{BindGroup, DynamicBindingKind, PushConstantRange, QueryType};
use crate::command::{
    barrier_commands, push_barriers, CommandBuffer, CommandEncoderStatus, Limits, NativeCommand,
};
use crate::hub::Global;
use crate::init_tracker::{
    fixup_actions, registered, Fixups, MemoryInitAction, MemoryInitKind, TextureSurface,
};
use crate::resource::BUFFER_USAGE_INDIRECT;
use crate::track::{
    can_merge, compatible, exact_transitions, extend_outcome, merged, replaced_by, SubresourceKey, UsageConflict, UsageTracker, USE_INDIRECT,
};

verus! {

/// Largest number of bind group slots of any device.
pub const MAX_BIND_GROUPS: u32 = 8;
/// Push-constant offsets and sizes are multiples of this many bytes.
pub const PUSH_CONSTANT_ALIGNMENT: u32 = 4;
/// Bytes of the arguments of an indirect dispatch: three 32-bit group counts.
pub const DISPATCH_INDIRECT_ARGS_SIZE: u64 = 12;

/// One recorded compute command. Variable-length payloads stand in the pass's side
/// buffers; a command holds only their length or offset.
#[derive(Clone, Copy, Debug, PartialEq, Eq, Structural)]
pub enum ComputeCommand {
    SetBindGroup { index: u8, num_dynamic_offsets: u8, bind_group_id: u64 },
    SetPipeline(u64),
    SetPushConstant { offset: u32, size_bytes: u32, values_offset: u32 },
    Dispatch(u32, u32, u32),
    DispatchIndirect { buffer_id: u64, offset: u64 },
    PushDebugGroup { color: u32, len: usize },
    PopDebugGroup,
    InsertDebugMarker { color: u32, len: usize },
    WriteTimestamp { query_set_id: u64, query_index: u32 },
    BeginPipelineStatisticsQuery { query_set_id: u64, query_index: u32 },
    EndPipelineStatisticsQuery,
}

/// Dynamic offsets that `cmds` take from the side buffer, in total.
pub open spec fn dynamic_offsets_used(cmds: Seq<ComputeCommand>) -> nat
    decreases cmds.len(),
{
    if cmds.len() == 0 {
        0
    } else {
        dynamic_offsets_used(cmds.drop_last()) + match cmds.last() {
            ComputeCommand::SetBindGroup { num_dynamic_offsets, .. } => num_dynamic_offsets as nat,
            _ => 0,
        }
    }
}

/// Label bytes that `cmds` take from the side buffer, in total.
pub open spec fn string_bytes_used(cmds: Seq<ComputeCommand>) -> nat
    decreases cmds.len(),
{
    if cmds.len() == 0 {
        0
    } else {
        string_bytes_used(cmds.drop_last()) + match cmds.last() {
            ComputeCommand::PushDebugGroup { len, .. } => len as nat,
            ComputeCommand::InsertDebugMarker { len, .. } => len as nat,
            _ => 0,
        }
    }
}

/// Every push-constant command of `cmds` refers to words inside `n` words of data.
pub open spec fn push_constants_in_bounds(cmds: Seq<ComputeCommand>, n: nat) -> bool {
    forall|i: int|
        0 <= i < cmds.len() ==> match #[trigger] cmds[i] {
            ComputeCommand::SetPushConstant { size_bytes, values_offset, .. } => values_offset
                + (size_bytes / PUSH_CONSTANT_ALIGNMENT) as int <= n,
            _ => true,
        }
}

/// A recorded pass: commands and the three side buffers they refer to.
pub struct BasePass {
    pub label: Option<String>,
    pub commands: Vec<ComputeCommand>,
    pub dynamic_offsets: Vec<u32>,
    pub string_data: Vec<u8>,
    pub push_constant_data: Vec<u32>,
}

impl BasePass {
    /// The side buffers hold exactly what the commands take from them.
    pub open spec fn wf(&self) -> bool {
        &&& dynamic_offsets_used(self.commands@) == self.dynamic_offsets@.len()
        &&& string_bytes_used(self.commands@) == self.string_data@.len()
        &&& push_constants_in_bounds(self.commands@, self.push_constant_data@.len())
    }

    pub fn new(label: &Option<String>) -> (r: BasePass)
        ensures
            r.wf(),
            r.commands@.len() == 0,
            r.dynamic_offsets@.len() == 0,
            r.string_data@.len() == 0,
            r.push_constant_data@.len() == 0,
    {
        BasePass {
            label: label.clone(),
            commands: Vec::new(),
            dynamic_offsets: Vec::new(),
            string_data: Vec::new(),
            push_constant_data: Vec::new(),
        }
    }
}

#[derive(Clone, Debug, Default)]
pub struct ComputePassDescriptor {
    pub label: Option<String>,
}

/// A compute pass being recorded for the command encoder `parent_id`.
pub struct ComputePass {
    base: BasePass,
    parent_id: u64,
}

/// A recorded command kept for tracing and replay.
pub enum TraceCommand {
    RunComputePass { base: BasePass },
}

impl ComputePass {
    pub closed spec fn spec_base(&self) -> BasePass {
        self.base
    }

    pub closed spec fn spec_parent_id(&self) -> u64 {
        self.parent_id
    }

    pub open spec fn commands(&self) -> Seq<ComputeCommand> {
        self.spec_base().commands@
    }

    pub open spec fn wf(&self) -> bool {
        self.spec_base().wf()
    }

    /// `self` records what `old` recorded, plus `cmd`, with side buffers that grow by
    /// `offsets`, `label` and `words`.
    pub open spec fn appended(
        &self,
        old: &ComputePass,
        cmd: ComputeCommand,
        offsets: Seq<u32>,
        label: Seq<u8>,
        words: Seq<u32>,
    ) -> bool {
        &&& self.wf()
        &&& self.spec_parent_id() == old.spec_parent_id()
        &&& self.commands() == old.commands().push(cmd)
        &&& self.spec_base().dynamic_offsets@ == old.spec_base().dynamic_offsets@ + offsets
        &&& self.spec_base().string_data@ == old.spec_base().string_data@ + label
        &&& self.spec_base().push_constant_data@ == old.spec_base().push_constant_data@ + words
        &&& self.spec_base().label == old.spec_base().label
    }

    /// An empty pass for encoder `parent_id`.
    pub fn new(parent_id: u64, desc: &ComputePassDescriptor) -> (r: ComputePass)
        ensures
            r.wf(),
            r.spec_parent_id() == parent_id,
            r.commands().len() == 0,
            r.spec_base().dynamic_offsets@.len() == 0,
            r.spec_base().string_data@.len() == 0,
            r.spec_base().push_constant_data@.len() == 0,
    {
        ComputePass { base: BasePass::new(&desc.label), parent_id }
    }

    pub fn parent_id(&self) -> (r: u64)
        ensures
            r == self.spec_parent_id(),
    {
        self.parent_id
    }

    /// The recorded pass, as a command for a trace.
    pub fn into_command(self) -> (r: TraceCommand)
        ensures
            r matches TraceCommand::RunComputePass { base } && base == self.spec_base(),
    {
        TraceCommand::RunComputePass { base: self.base }
    }

    /// The recorded commands and side buffers.
    pub fn base(&self) -> (r: &BasePass)
        ensures
            *r == self.spec_base(),
    {
        &self.base
    }
}

proof fn lemma_push_preserves_counts(cmds: Seq<ComputeCommand>, cmd: ComputeCommand)
    ensures
        cmds.push(cmd).drop_last() == cmds,
        cmds.push(cmd).last() == cmd,
        dynamic_offsets_used(cmds.push(cmd)) == dynamic_offsets_used(cmds) + match cmd {
            ComputeCommand::SetBindGroup { num_dynamic_offsets, .. } => num_dynamic_offsets as nat,
            _ => 0,
        },
        string_bytes_used(cmds.push(cmd)) == string_bytes_used(cmds) + match cmd {
            ComputeCommand::PushDebugGroup { len, .. } => len as nat,
            ComputeCommand::InsertDebugMarker { len, .. } => len as nat,
            _ => 0,
        },
{
    assert(cmds.push(cmd).drop_last() =~= cmds);
}

proof fn lemma_push_constants_grow(cmds: Seq<ComputeCommand>, cmd: ComputeCommand, n: nat, m: nat)
    requires
        push_constants_in_bounds(cmds, n),
        n <= m,
        match cmd {
            ComputeCommand::SetPushConstant { size_bytes, values_offset, .. } => values_offset
                + (size_bytes / PUSH_CONSTANT_ALIGNMENT) as int <= m,
            _ => true,
        },
    ensures
        push_constants_in_bounds(cmds.push(cmd), m),
{
    assert forall|i: int| 0 <= i < cmds.push(cmd).len() implies match #[trigger] cmds.push(
        cmd,
    )[i] {
        ComputeCommand::SetPushConstant { size_bytes, values_offset, .. } => values_offset
            + (size_bytes / PUSH_CONSTANT_ALIGNMENT) as int <= m,
        _ => true,
    } by {
        if i < cmds.len() {
            assert(cmds.push(cmd)[i] == cmds[i]);
        }
    }
}

/// Records binding `bind_group_id` at slot `index` with `offsets` as its dynamic offsets.
pub fn wgpu_compute_pass_set_bind_group(
    pass: &mut ComputePass,
    index: u32,
    bind_group_id: u64,
    offsets: &[u32],
)
    requires
        old(pass).wf(),
        index < 256,
        offsets@.len() < 256,
    ensures
        final(pass).appended(
            old(pass),
            ComputeCommand::SetBindGroup {
                index: index as u8,
                num_dynamic_offsets: offsets@.len() as u8,
                bind_group_id,
            },
            offsets@,
            Seq::empty(),
            Seq::empty(),
        ),
{
    let cmd = ComputeCommand::SetBindGroup {
        index: index as u8,
        num_dynamic_offsets: offsets.len() as u8,
        bind_group_id,
    };
    proof {
        lemma_push_preserves_counts(pass.commands(), cmd);
        lemma_push_constants_grow(
            pass.commands(),
            cmd,
            pass.spec_base().push_constant_data@.len(),
            pass.spec_base().push_constant_data@.len(),
        );
    }
    pass.base.commands.push(cmd);
    let mut i: usize = 0;
    let ghost start = pass.base.dynamic_offsets@;
    while i < offsets.len()
        invariant
            i <= offsets@.len(),
            pass.base.dynamic_offsets@ == start + offsets@.take(i as int),
            start == old(pass).spec_base().dynamic_offsets@,
            pass.base.commands@ == old(pass).spec_base().commands@.push(cmd),
            pass.base.string_data == old(pass).spec_base().string_data,
            pass.base.push_constant_data == old(pass).spec_base().push_constant_data,
            pass.base.label == old(pass).spec_base().label,
            pass.parent_id == old(pass).spec_parent_id(),
        decreases offsets@.len() - i,
    {
        pass.base.dynamic_offsets.push(offsets[i]);
        assert(offsets@.take(i + 1) == offsets@.take(i as int).push(offsets@[i as int]));
        i = i + 1;
    }
    assert(offsets@.take(offsets@.len() as int) == offsets@);
    assert(pass.base.string_data@ == pass.base.string_data@ + Seq::<u8>::empty());
    assert(pass.base.push_constant_data@ =~= pass.base.push_constant_data@ + Seq::<u32>::empty());
    assert(pass.base.string_data@ =~= pass.base.string_data@ + Seq::<u8>::empty());
}

/// Records selecting compute pipeline `pipeline_id`.
pub fn wgpu_compute_pass_set_pipeline(pass: &mut ComputePass, pipeline_id: u64)
    requires
        old(pass).wf(),
    ensures
        final(pass).appended(
            old(pass),
            ComputeCommand::SetPipeline(pipeline_id),
            Seq::empty(),
            Seq::empty(),
            Seq::empty(),
        ),
{
    record_plain(pass, ComputeCommand::SetPipeline(pipeline_id));
}

fn record_plain(pass: &mut ComputePass, cmd: ComputeCommand)
    requires
        old(pass).wf(),
        match cmd {
            ComputeCommand::SetBindGroup { num_dynamic_offsets, .. } => num_dynamic_offsets == 0,
            ComputeCommand::PushDebugGroup { len, .. } => len == 0,
            ComputeCommand::InsertDebugMarker { len, .. } => len == 0,
            ComputeCommand::SetPushConstant { .. } => false,
            _ => true,
        },
    ensures
        final(pass).appended(old(pass), cmd, Seq::empty(), Seq::empty(), Seq::empty()),
{
    proof {
        lemma_push_preserves_counts(pass.commands(), cmd);
        lemma_push_constants_grow(
            pass.commands(),
            cmd,
            pass.spec_base().push_constant_data@.len(),
            pass.spec_base().push_constant_data@.len(),
        );
    }
    pass.base.commands.push(cmd);
    assert(pass.base.dynamic_offsets@ =~= pass.base.dynamic_offsets@ + Seq::<u32>::empty());
    assert(pass.base.push_constant_data@ =~= pass.base.push_constant_data@ + Seq::<u32>::empty());
    assert(pass.base.string_data@ =~= pass.base.string_data@ + Seq::<u8>::empty());
}

/// The 32-bit word whose little-endian bytes are `b0..b3`.
pub open spec fn spec_word(b0: u8, b1: u8, b2: u8, b3: u8) -> u32 {
    (b0 as int + 256 * b1 as int + 65536 * b2 as int + 16777216 * b3 as int) as u32
}

/// The words whose little-endian bytes are `bytes`, four at a time.
pub open spec fn spec_words(bytes: Seq<u8>) -> Seq<u32> {
    Seq::new(
        bytes.len() / 4,
        |i: int| spec_word(bytes[4 * i], bytes[4 * i + 1], bytes[4 * i + 2], bytes[4 * i + 3]),
    )
}

/// Records writing `data` to the push constants at byte `offset`. The bytes are kept as
/// little-endian words.
pub fn wgpu_compute_pass_set_push_constant(pass: &mut ComputePass, offset: u32, data: &[u8])
    requires
        old(pass).wf(),
        offset % PUSH_CONSTANT_ALIGNMENT == 0,
        data@.len() % 4 == 0,
        data@.len() <= u32::MAX,
        old(pass).spec_base().push_constant_data@.len() + data@.len() / 4 <= u32::MAX,
    ensures
        final(pass).appended(
            old(pass),
            ComputeCommand::SetPushConstant {
                offset,
                size_bytes: data@.len() as u32,
                values_offset: old(pass).spec_base().push_constant_data@.len() as u32,
            },
            Seq::empty(),
            Seq::empty(),
            spec_words(data@),
        ),
{
    let size_bytes = data.len() as u32;
    let value_offset = pass.base.push_constant_data.len() as u32;
    let cmd = ComputeCommand::SetPushConstant { offset, size_bytes, values_offset: value_offset };
    let ghost start = pass.base.push_constant_data@;
    let n = data.len() / 4;
    let mut i: usize = 0;
    while i < n
        invariant
            n == data@.len() / 4,
            data@.len() <= u32::MAX,
            i <= n,
            pass.base.push_constant_data@ == start + spec_words(data@).take(i as int),
            pass.base.commands == old(pass).spec_base().commands,
            pass.base.dynamic_offsets == old(pass).spec_base().dynamic_offsets,
            pass.base.string_data == old(pass).spec_base().string_data,
            pass.base.label == old(pass).spec_base().label,
            pass.parent_id == old(pass).spec_parent_id(),
        decreases n - i,
    {
        assert(4 * i + 3 < data@.len()) by (nonlinear_arith)
            requires
                i < n,
                n == data@.len() / 4,
        ;
        let w = data[4 * i] as u32 + 256 * (data[4 * i + 1] as u32) + 65536 * (data[4 * i + 2] as u32)
            + 16777216 * (data[4 * i + 3] as u32);
        pass.base.push_constant_data.push(w);
        assert(spec_words(data@).take(i + 1) =~= spec_words(data@).take(i as int).push(w));
        i = i + 1;
    }
    assert(spec_words(data@).take(n as int) =~= spec_words(data@));
    proof {
        lemma_push_preserves_counts(pass.base.commands@, cmd);
        lemma_push_constants_grow(
            pass.base.commands@,
            cmd,
            start.len(),
            pass.base.push_constant_data@.len(),
        );
    }
    pass.base.commands.push(cmd);
    assert(pass.base.dynamic_offsets@ =~= pass.base.dynamic_offsets@ + Seq::<u32>::empty());
    assert(pass.base.string_data@ =~= pass.base.string_data@ + Seq::<u8>::empty());
}

/// Records a dispatch of `groups_x × groups_y × groups_z` workgroups.
pub fn wgpu_compute_pass_dispatch(pass: &mut ComputePass, groups_x: u32, groups_y: u32, groups_z: u32)
    requires
        old(pass).wf(),
    ensures
        final(pass).appended(
            old(pass),
            ComputeCommand::Dispatch(groups_x, groups_y, groups_z),
            Seq::empty(),
            Seq::empty(),
            Seq::empty(),
        ),
{
    record_plain(pass, ComputeCommand::Dispatch(groups_x, groups_y, groups_z));
}

/// Records a dispatch whose group counts are read from `buffer_id` at `offset`.
pub fn wgpu_compute_pass_dispatch_indirect(pass: &mut ComputePass, buffer_id: u64, offset: u64)
    requires
        old(pass).wf(),
    ensures
        final(pass).appended(
            old(pass),
            ComputeCommand::DispatchIndirect { buffer_id, offset },
            Seq::empty(),
            Seq::empty(),
            Seq::empty(),
        ),
{
    record_plain(pass, ComputeCommand::DispatchIndirect { buffer_id, offset });
}

fn record_label(pass: &mut ComputePass, label: &str, cmd: ComputeCommand)
    requires
        old(pass).wf(),
        match cmd {
            ComputeCommand::PushDebugGroup { len, .. } => len == label.spec_bytes().len(),
            ComputeCommand::InsertDebugMarker { len, .. } => len == label.spec_bytes().len(),
            _ => false,
        },
    ensures
        final(pass).appended(old(pass), cmd, Seq::empty(), label.spec_bytes(), Seq::empty()),
{
    let bytes = label.as_bytes();
    let ghost start = pass.base.string_data@;
    let mut i: usize = 0;
    while i < bytes.len()
        invariant
            i <= bytes@.len(),
            bytes@ == label.spec_bytes(),
            pass.base.string_data@ == start + bytes@.take(i as int),
            pass.base.commands == old(pass).spec_base().commands,
            pass.base.dynamic_offsets == old(pass).spec_base().dynamic_offsets,
            pass.base.push_constant_data == old(pass).spec_base().push_constant_data,
            pass.base.label == old(pass).spec_base().label,
            pass.parent_id == old(pass).spec_parent_id(),
        decreases bytes@.len() - i,
    {
        pass.base.string_data.push(bytes[i]);
        assert(bytes@.take(i + 1) == bytes@.take(i as int).push(bytes@[i as int]));
        i = i + 1;
    }
    assert(bytes@.take(bytes@.len() as int) == bytes@);
    proof {
        lemma_push_preserves_counts(pass.base.commands@, cmd);
        lemma_push_constants_grow(
            pass.base.commands@,
            cmd,
            pass.base.push_constant_data@.len(),
            pass.base.push_constant_data@.len(),
        );
    }
    pass.base.commands.push(cmd);
    assert(pass.base.dynamic_offsets@ =~= pass.base.dynamic_offsets@ + Seq::<u32>::empty());
    assert(pass.base.push_constant_data@ =~= pass.base.push_constant_data@ + Seq::<u32>::empty());
}

/// Records opening a debug group named `label`.
pub fn wgpu_compute_pass_push_debug_group(pass: &mut ComputePass, label: &str, color: u32)
    requires
        old(pass).wf(),
    ensures
        final(pass).appended(
            old(pass),
            ComputeCommand::PushDebugGroup { color, len: label.spec_bytes().len() as usize },
            Seq::empty(),
            label.spec_bytes(),
            Seq::empty(),
        ),
{
    let len = label.as_bytes().len();
    record_label(pass, label, ComputeCommand::PushDebugGroup { color, len });
}

/// Records closing the innermost debug group.
pub fn wgpu_compute_pass_pop_debug_group(pass: &mut ComputePass)
    requires
        old(pass).wf(),
    ensures
        final(pass).appended(
            old(pass),
            ComputeCommand::PopDebugGroup,
            Seq::empty(),
            Seq::empty(),
            Seq::empty(),
        ),
{
    record_plain(pass, ComputeCommand::PopDebugGroup);
}

/// Records a debug marker named `label`.
pub fn wgpu_compute_pass_insert_debug_marker(pass: &mut ComputePass, label: &str, color: u32)
    requires
        old(pass).wf(),
    ensures
        final(pass).appended(
            old(pass),
            ComputeCommand::InsertDebugMarker { color, len: label.spec_bytes().len() as usize },
            Seq::empty(),
            label.spec_bytes(),
            Seq::empty(),
        ),
{
    let len = label.as_bytes().len();
    record_label(pass, label, ComputeCommand::InsertDebugMarker { color, len });
}

/// Records writing a timestamp into query `query_index` of `query_set_id`.
pub fn wgpu_compute_pass_write_timestamp(pass: &mut ComputePass, query_set_id: u64, query_index: u32)
    requires
        old(pass).wf(),
    ensures
        final(pass).appended(
            old(pass),
            ComputeCommand::WriteTimestamp { query_set_id, query_index },
            Seq::empty(),
            Seq::empty(),
            Seq::empty(),
        ),
{
    record_plain(pass, ComputeCommand::WriteTimestamp { query_set_id, query_index });
}

/// Records starting pipeline-statistics query `query_index` of `query_set_id`.
pub fn wgpu_compute_pass_begin_pipeline_statistics_query(
    pass: &mut ComputePass,
    query_set_id: u64,
    query_index: u32,
)
    requires
        old(pass).wf(),
    ensures
        final(pass).appended(
            old(pass),
            ComputeCommand::BeginPipelineStatisticsQuery { query_set_id, query_index },
            Seq::empty(),
            Seq::empty(),
            Seq::empty(),
        ),
{
    record_plain(pass, ComputeCommand::BeginPipelineStatisticsQuery { query_set_id, query_index });
}

/// Records ending the active pipeline-statistics query.
pub fn wgpu_compute_pass_end_pipeline_statistics_query(pass: &mut ComputePass)
    requires
        old(pass).wf(),
    ensures
        final(pass).appended(
            old(pass),
            ComputeCommand::EndPipelineStatisticsQuery,
            Seq::empty(),
            Seq::empty(),
            Seq::empty(),
        ),
{
    record_plain(pass, ComputeCommand::EndPipelineStatisticsQuery);
}

/// Device capability bit: indirect dispatches can be executed.
pub const DOWNLEVEL_INDIRECT_EXECUTION: u32 = 1;

#[derive(Clone, Copy, Debug, PartialEq, Eq, Structural)]
pub enum CommandEncoderError {
    Invalid,
    NotRecording,
}

#[derive(Clone, Copy, Debug, PartialEq, Eq, Structural)]
pub enum DispatchError {
    MissingPipeline,
    IncompatibleBindGroup { index: u32 },
    InvalidGroupSize { current: WorkgroupCounts, limit: u32 },
}

/// Workgroup counts of a dispatch along x, y and z.
#[derive(Clone, Copy, Debug, PartialEq, Eq, Structural)]
pub struct WorkgroupCounts {
    pub x: u32,
    pub y: u32,
    pub z: u32,
}

#[derive(Clone, Copy, Debug, PartialEq, Eq, Structural)]
pub enum BindError {
    MismatchedDynamicOffsetCount { actual: usize, expected: usize },
    UnalignedDynamicBinding { idx: usize, offset: u32, alignment: u32 },
}

#[derive(Clone, Copy, Debug, PartialEq, Eq, Structural)]
pub enum PushConstantUploadError {
    /// `offset..end_offset` lies in no push-constant range of the layout.
    Unmatched { offset: u32, end_offset: u64 },
}

#[derive(Clone, Copy, Debug, PartialEq, Eq, Structural)]
pub enum QueryUseError {
    OutOfBounds { query_index: u32, query_set_size: u32 },
    AlreadyStarted { active_query_index: u32, new_query_index: u32 },
    AlreadyStopped,
    IncompatibleType { set_type: QueryType, query_type: QueryType },
}

#[derive(Clone, Copy, Debug, PartialEq, Eq, Structural)]
pub struct MissingBufferUsageError {
    pub actual: u32,
    pub expected: u32,
}

#[derive(Clone, Copy, Debug, PartialEq, Eq, Structural)]
pub struct MissingDownlevelFlags(pub u32);

/// Error encountered when performing a compute pass.
#[derive(Clone, Copy, Debug, PartialEq, Eq, Structural)]
pub enum ComputePassErrorInner {
    Encoder(CommandEncoderError),
    InvalidBindGroup(u64),
    BindGroupIndexOutOfRange { index: u8, max: u32 },
    InvalidPipeline(u64),
    InvalidQuerySet(u64),
    InvalidIndirectBuffer(u64),
    IndirectBufferOverrun { offset: u64, end_offset: u64, buffer_size: u64 },
    InvalidBuffer(u64),
    ResourceUsageConflict(UsageConflict),
    MissingBufferUsage(MissingBufferUsageError),
    InvalidPopDebugGroup,
    Dispatch(DispatchError),
    Bind(BindError),
    PushConstants(PushConstantUploadError),
    QueryUse(QueryUseError),
    MissingDownlevelFlags(MissingDownlevelFlags),
}

/// The command, or the pass, in which an error arose.
#[derive(Clone, Copy, Debug, PartialEq, Eq, Structural)]
pub enum PassErrorScope {
    Pass(u64),
    SetBindGroup(u64),
    SetPipelineCompute(u64),
    SetPushConstant,
    Dispatch { indirect: bool, pipeline: Option<u64> },
    PopDebugGroup,
    WriteTimestamp,
    BeginPipelineStatisticsQuery,
    EndPipelineStatisticsQuery,
}

/// Error encountered when performing a compute pass: what went wrong, and where.
#[derive(Clone, Copy, Debug, PartialEq, Eq, Structural)]
pub struct ComputePassError {
    pub scope: PassErrorScope,
    inner: ComputePassErrorInner,
}

impl ComputePassError {
    pub closed spec fn spec_inner(&self) -> ComputePassErrorInner {
        self.inner
    }

    pub closed spec fn spec_scope(&self) -> PassErrorScope {
        self.scope
    }

    pub fn inner(&self) -> (r: ComputePassErrorInner)
        ensures
            r == self.spec_inner(),
    {
        self.inner
    }
}

/// Attaches `scope` to the error of `r`.
pub fn map_pass_err<T>(r: Result<T, ComputePassErrorInner>, scope: PassErrorScope) -> (res: Result<
    T,
    ComputePassError,
>)
    ensures
        match r {
            Ok(v) => res == Ok::<T, ComputePassError>(v),
            Err(e) => res matches Err(pe) && pe.spec_scope() == scope && pe.spec_inner() == e,
        },
{
    match r {
        Ok(v) => Ok(v),
        Err(inner) => Err(ComputePassError { scope, inner }),
    }
}

/// A bind group assigned to a slot, with the layout it was made for and its dynamic
/// offsets.
pub struct BoundGroup {
    pub group_id: u64,
    pub layout_id: u64,
    pub dynamic_offsets: Vec<u32>,
}

/// Bind group slots, and the layouts that the current pipeline layout expects in them.
pub struct Binder {
    pub pipeline_layout_id: Option<u64>,
    pub expected: Vec<u64>,
    pub slots: Vec<Option<BoundGroup>>,
}

/// What a slot holds: the group, the layout it was made for, and its dynamic offsets.
pub struct SlotView {
    pub group_id: u64,
    pub layout_id: u64,
    pub offsets: Seq<u32>,
}

/// The binder as values: the current layout, the layouts it expects, and the slots.
pub struct BinderView {
    pub layout: Option<u64>,
    pub expected: Seq<u64>,
    pub slots: Seq<Option<SlotView>>,
}

impl BinderView {
    /// Slot `i` is not expected by the layout, or holds a group of the expected layout.
    pub open spec fn slot_valid(&self, i: int) -> bool {
        i >= self.expected.len() || (self.slots[i] is Some && self.slots[i]->Some_0.layout_id
            == self.expected[i])
    }

    /// Every slot that the layout expects is valid.
    pub open spec fn all_valid(&self) -> bool {
        forall|i: int| 0 <= i < self.expected.len() ==> #[trigger] self.slot_valid(i)
    }

    /// `i` is the first slot that the layout expects and that is not valid.
    pub open spec fn first_invalid(&self, i: int) -> bool {
        &&& 0 <= i < self.expected.len()
        &&& !self.slot_valid(i)
        &&& forall|j: int| 0 <= j < i ==> #[trigger] self.slot_valid(j)
    }
}

/// The value of one slot.
pub open spec fn slot_view(s: Option<BoundGroup>) -> Option<SlotView> {
    match s {
        Some(b) => Some(
            SlotView { group_id: b.group_id, layout_id: b.layout_id, offsets: b.dynamic_offsets@ },
        ),
        None => None,
    }
}

impl View for Binder {
    type V = BinderView;

    open spec fn view(&self) -> BinderView {
        BinderView {
            layout: self.pipeline_layout_id,
            expected: self.expected@,
            slots: self.slots@.map_values(|s: Option<BoundGroup>| slot_view(s)),
        }
    }
}

impl Binder {
    pub open spec fn wf(&self) -> bool {
        self.slots@.len() == MAX_BIND_GROUPS && self.expected@.len() <= MAX_BIND_GROUPS
    }

    /// Slot `i` is not expected by the layout, or holds a group of the expected layout.
    pub open spec fn slot_valid(&self, i: int) -> bool {
        self@.slot_valid(i)
    }

    /// Every slot that the layout expects is valid.
    pub open spec fn all_valid(&self) -> bool {
        self@.all_valid()
    }

    /// `i` is the first slot that the layout expects and that is not valid.
    pub open spec fn first_invalid(&self, i: int) -> bool {
        self@.first_invalid(i)
    }

    pub fn new() -> (r: Binder)
        ensures
            r.wf(),
            r.pipeline_layout_id is None,
            r.expected@.len() == 0,
            forall|i: int| 0 <= i < MAX_BIND_GROUPS ==> #[trigger] r.slots@[i] is None,
    {
        let mut slots: Vec<Option<BoundGroup>> = Vec::new();
        let mut i: u32 = 0;
        while i < MAX_BIND_GROUPS
            invariant
                i <= MAX_BIND_GROUPS,
                slots@.len() == i,
                forall|j: int| 0 <= j < i ==> #[trigger] slots@[j] is None,
            decreases MAX_BIND_GROUPS - i,
        {
            slots.push(None);
            i = i + 1;
        }
        Binder { pipeline_layout_id: None, expected: Vec::new(), slots }
    }

    fn is_slot_valid(&self, i: usize) -> (r: bool)
        requires
            self.wf(),
            i < MAX_BIND_GROUPS,
        ensures
            r == self@.slot_valid(i as int),
    {
        if i >= self.expected.len() {
            return true;
        }
        match &self.slots[i] {
            Some(b) => b.layout_id == self.expected[i],
            None => false,
        }
    }

    /// The first slot that the layout expects and that is not valid, if any.
    pub fn invalid_index(&self) -> (r: Option<u32>)
        requires
            self.wf(),
        ensures
            match r {
                Some(i) => self.first_invalid(i as int),
                None => self.all_valid(),
            },
    {
        let mut i: usize = 0;
        while i < self.expected.len()
            invariant
                self.wf(),
                i <= self.expected@.len(),
                forall|j: int| 0 <= j < i ==> #[trigger] self@.slot_valid(j),
            decreases self.expected@.len() - i,
        {
            if !self.is_slot_valid(i) {
                return Some(i as u32);
            }
            i = i + 1;
        }
        None
    }
}

/// What a compute pass replay keeps between commands.
pub struct State {
    pub binder: Binder,
    pub pipeline: Option<u64>,
    pub buffers: UsageTracker,
    pub textures: UsageTracker,
    pub debug_scope_depth: u32,
}

/// What `is_ready` returns for a state: the first invalid slot, or else a missing
/// pipeline, is an error.
pub open spec fn spec_ready(st: &State) -> Result<(), DispatchError> {
    ready_of(st.binder@, st.pipeline)
}

/// Whether a dispatch may run with binder `b` and pipeline `pipeline`: the first invalid
/// slot, or else a missing pipeline, is an error.
pub open spec fn ready_of(b: BinderView, pipeline: Option<u64>) -> Result<(), DispatchError> {
    if !b.all_valid() {
        Err(
            DispatchError::IncompatibleBindGroup {
                index: (choose|i: int| b.first_invalid(i)) as u32,
            },
        )
    } else if pipeline is None {
        Err(DispatchError::MissingPipeline)
    } else {
        Ok(())
    }
}

/// The depth of debug groups after `cmds`, or none where a pop finds no group open.
pub open spec fn debug_depth(cmds: Seq<ComputeCommand>) -> Option<nat>
    decreases cmds.len(),
{
    if cmds.len() == 0 {
        Some(0)
    } else {
        match debug_depth(cmds.drop_last()) {
            None => None,
            Some(d) => match cmds.last() {
                ComputeCommand::PushDebugGroup { .. } => Some(d + 1),
                ComputeCommand::PopDebugGroup => if d == 0 {
                    None
                } else {
                    Some((d - 1) as nat)
                },
                _ => Some(d),
            },
        }
    }
}

/// `cmds` only open, close and mark debug groups.
pub open spec fn debug_only(cmds: Seq<ComputeCommand>) -> bool {
    forall|i: int|
        0 <= i < cmds.len() ==> (#[trigger] cmds[i] is PushDebugGroup || cmds[i] is PopDebugGroup
            || cmds[i] is InsertDebugMarker)
}

/// Every dispatch of `cmds` comes after some pipeline was set.
pub open spec fn dispatches_follow_pipeline(cmds: Seq<ComputeCommand>) -> bool {
    forall|k: int|
        0 <= k < cmds.len() && (#[trigger] cmds[k] is Dispatch || cmds[k] is DispatchIndirect)
            ==> exists|j: int| 0 <= j < k && cmds[j] is SetPipeline
}

/// The alignment that the device asks of a dynamic offset of binding kind `k`.
pub open spec fn offset_alignment(l: Limits, k: DynamicBindingKind) -> u32 {
    match k {
        DynamicBindingKind::Uniform => l.min_uniform_buffer_offset_alignment,
        DynamicBindingKind::Storage => l.min_storage_buffer_offset_alignment,
    }
}

/// Dynamic offset `k` of `offsets` is aligned for the binding it goes to.
pub open spec fn offset_aligned(l: Limits, bg: &BindGroup, offsets: Seq<u32>, k: int) -> bool {
    offsets[k] % offset_alignment(l, bg.dynamic_bindings@[k]) == 0
}

/// `k` is the first dynamic offset that is not aligned.
pub open spec fn first_unaligned(l: Limits, bg: &BindGroup, offsets: Seq<u32>, k: int) -> bool {
    &&& 0 <= k < offsets.len()
    &&& !offset_aligned(l, bg, offsets, k)
    &&& forall|j: int| 0 <= j < k ==> #[trigger] offset_aligned(l, bg, offsets, j)
}

/// The error of setting bind group `id` at slot `index` with dynamic offsets `offsets`,
/// if it has one, in the order the checks are made.
pub open spec fn set_bind_group_error(
    l: Limits,
    g: &Global,
    index: u8,
    id: u64,
    offsets: Seq<u32>,
) -> Option<ComputePassErrorInner> {
    if index as u32 >= l.max_bind_groups {
        Some(ComputePassErrorInner::BindGroupIndexOutOfRange { index, max: l.max_bind_groups })
    } else {
        match g.bind_groups.spec_get(id) {
            None => Some(ComputePassErrorInner::InvalidBindGroup(id)),
            Some(bg) => if offsets.len() != bg.dynamic_bindings@.len() {
                Some(
                    ComputePassErrorInner::Bind(
                        BindError::MismatchedDynamicOffsetCount {
                            actual: offsets.len() as usize,
                            expected: bg.dynamic_bindings@.len() as usize,
                        },
                    ),
                )
            } else if exists|k: int| first_unaligned(l, &bg, offsets, k) {
                let k = choose|k: int| first_unaligned(l, &bg, offsets, k);
                Some(
                    ComputePassErrorInner::Bind(
                        BindError::UnalignedDynamicBinding {
                            idx: k as usize,
                            offset: offsets[k],
                            alignment: offset_alignment(l, bg.dynamic_bindings@[k]),
                        },
                    ),
                )
            } else {
                None
            },
        }
    }
}

/// The initialisation actions that binding a group with used ranges `rs` records: those
/// whose buffer exists and whose range may still hold undefined bytes, in order.
pub open spec fn needed_actions(g: &Global, rs: Seq<MemoryInitAction>) -> Seq<MemoryInitAction>
    decreases rs.len(),
{
    if rs.len() == 0 {
        Seq::empty()
    } else {
        let a = rs.last();
        needed_actions(g, rs.drop_last()) + match g.buffers.spec_get(a.id) {
            Some(b) => if b.initialization_status.needs_init(a.start as int, a.end as int) {
                seq![a]
            } else {
                Seq::empty()
            },
            None => Seq::empty(),
        }
    }
}

/// The error that an indirect dispatch of the arguments at `offset` in buffer
/// `buffer_id` meets before the gathered usages are flushed, if any, in the order the
/// checks are made.
pub open spec fn dispatch_indirect_error(
    b: BinderView,
    pipeline: Option<u64>,
    local_buffers: Map<SubresourceKey, u32>,
    supports_indirect_execution: bool,
    g: &Global,
    buffer_id: u64,
    offset: u64,
) -> Option<ComputePassErrorInner> {
    if ready_of(b, pipeline) is Err {
        Some(ComputePassErrorInner::Dispatch(ready_of(b, pipeline)->Err_0))
    } else if !supports_indirect_execution {
        Some(
            ComputePassErrorInner::MissingDownlevelFlags(
                MissingDownlevelFlags(DOWNLEVEL_INDIRECT_EXECUTION),
            ),
        )
    } else {
        match g.buffers.spec_get(buffer_id) {
            None => Some(ComputePassErrorInner::InvalidIndirectBuffer(buffer_id)),
            Some(b) => match extend_outcome(
                local_buffers,
                SubresourceKey { resource: buffer_id, mip_level: 0, array_layer: 0 },
                USE_INDIRECT,
            ) {
                Err(c) => Some(ComputePassErrorInner::ResourceUsageConflict(c)),
                Ok(_) => if b.usage & BUFFER_USAGE_INDIRECT == 0 {
                    Some(
                        ComputePassErrorInner::MissingBufferUsage(
                            MissingBufferUsageError { actual: b.usage, expected: BUFFER_USAGE_INDIRECT },
                        ),
                    )
                } else if offset + DISPATCH_INDIRECT_ARGS_SIZE > b.size {
                    Some(
                        ComputePassErrorInner::IndirectBufferOverrun {
                            offset,
                            end_offset: if offset + DISPATCH_INDIRECT_ARGS_SIZE <= u64::MAX {
                                (offset + DISPATCH_INDIRECT_ARGS_SIZE) as u64
                            } else {
                                u64::MAX
                            },
                            buffer_size: b.size,
                        },
                    )
                } else if b.destroyed {
                    Some(ComputePassErrorInner::InvalidIndirectBuffer(buffer_id))
                } else {
                    None
                },
            },
        }
    }
}

/// The error of query command `cmd` with `active` the running statistics query, if any.
pub open spec fn query_error(g: &Global, active: Option<(u64, u32)>, cmd: ComputeCommand) -> Option<
    ComputePassErrorInner,
> {
    match cmd {
        ComputeCommand::WriteTimestamp { query_set_id, query_index } => query_use_error(
            g,
            active,
            query_set_id,
            query_index,
            QueryType::Timestamp,
        ),
        ComputeCommand::BeginPipelineStatisticsQuery { query_set_id, query_index } => query_use_error(
            g,
            active,
            query_set_id,
            query_index,
            QueryType::PipelineStatistics,
        ),
        _ => if active is None {
            Some(ComputePassErrorInner::QueryUse(QueryUseError::AlreadyStopped))
        } else {
            None
        },
    }
}

/// The error of writing a timestamp or starting a statistics query (`ty`) into query
/// `query_index` of set `query_set_id`, if any.
pub open spec fn query_use_error(
    g: &Global,
    active: Option<(u64, u32)>,
    query_set_id: u64,
    query_index: u32,
    ty: QueryType,
) -> Option<ComputePassErrorInner> {
    match g.query_sets.spec_get(query_set_id) {
        None => Some(ComputePassErrorInner::InvalidQuerySet(query_set_id)),
        Some(q) => if q.ty != ty {
            Some(
                ComputePassErrorInner::QueryUse(
                    QueryUseError::IncompatibleType { set_type: q.ty, query_type: ty },
                ),
            )
        } else if query_index >= q.count {
            Some(
                ComputePassErrorInner::QueryUse(
                    QueryUseError::OutOfBounds { query_index, query_set_size: q.count },
                ),
            )
        } else if ty == QueryType::PipelineStatistics && active is Some {
            Some(
                ComputePassErrorInner::QueryUse(
                    QueryUseError::AlreadyStarted {
                        active_query_index: active->Some_0.1,
                        new_query_index: query_index,
                    },
                ),
            )
        } else {
            None
        },
    }
}

/// Some range of `ranges` holds the bytes `start..end`.
pub open spec fn push_range_declared(ranges: Seq<PushConstantRange>, start: int, end: int) -> bool {
    exists|q: int| 0 <= q < ranges.len() && #[trigger] ranges[q].start <= start && end <= ranges[q].end
}

/// `after` is `before` followed by exactly the barriers that flushing the gathered
/// usages `gb` and `gt` into the trackers `mb` and `mt` needs: buffers first, then
/// textures.
pub open spec fn flush_commands(
    before: Seq<NativeCommand>,
    after: Seq<NativeCommand>,
    mb: Map<SubresourceKey, u32>,
    mt: Map<SubresourceKey, u32>,
    gb: Map<SubresourceKey, u32>,
    gt: Map<SubresourceKey, u32>,
) -> bool {
    exists|tb: Seq<crate::track::PendingTransition>, tt: Seq<crate::track::PendingTransition>|
        exact_transitions(mb, gb, tb) && exact_transitions(mt, gt, tt) && after == before
            + barrier_commands(tb, false) + barrier_commands(tt, true)
}

/// `c` binds natively, at slot `i`, the group that `sv` describes.
pub open spec fn is_bind_at(c: NativeCommand, i: int, sv: SlotView) -> bool {
    match c {
        NativeCommand::SetBindGroup { index, bind_group, dynamic_offsets } => index == i
            && bind_group == sv.group_id && dynamic_offsets@ == sv.offsets,
        _ => false,
    }
}

/// The slots before `k` that the layout of `b` expects and that hold a group of the
/// expected layout, in order.
pub open spec fn valid_slots(b: BinderView, k: int) -> Seq<int>
    decreases k,
{
    if k <= 0 {
        Seq::empty()
    } else {
        valid_slots(b, k - 1) + if k - 1 < b.expected.len() && b.slot_valid(k - 1) {
            seq![k - 1]
        } else {
            Seq::empty()
        }
    }
}

/// `cmds` binds natively, one command each and in order, the valid slots of `b` before `k`.
pub open spec fn rebinds(cmds: Seq<NativeCommand>, b: BinderView, k: int) -> bool {
    let v = valid_slots(b, k);
    &&& cmds.len() == v.len()
    &&& forall|j: int|
        0 <= j < v.len() ==> is_bind_at(#[trigger] cmds[j], v[j], b.slots[v[j]]->Some_0)
}

/// The non-empty ranges among the first `k` of `rs`, in order.
pub open spec fn nonempty_ranges(rs: Seq<PushConstantRange>, k: int) -> Seq<PushConstantRange>
    decreases k,
{
    if k <= 0 {
        Seq::empty()
    } else {
        nonempty_ranges(rs, k - 1) + if rs[k - 1].start < rs[k - 1].end {
            seq![rs[k - 1]]
        } else {
            Seq::empty()
        }
    }
}

/// `c` writes zeros over push-constant range `r`.
pub open spec fn is_zeroing(c: NativeCommand, r: PushConstantRange) -> bool {
    match c {
        NativeCommand::SetPushConstants { offset, data } => offset == r.start && data@ == Seq::new(
            ((r.end - r.start) / PUSH_CONSTANT_ALIGNMENT as int) as nat,
            |q: int| 0u32,
        ),
        _ => false,
    }
}

/// `cmds` zeroes, one command each and in order, the non-empty ranges among the first `k`
/// of `rs`.
pub open spec fn zeroings(cmds: Seq<NativeCommand>, rs: Seq<PushConstantRange>, k: int) -> bool {
    let z = nonempty_ranges(rs, k);
    &&& cmds.len() == z.len()
    &&& forall|j: int| 0 <= j < z.len() ==> is_zeroing(#[trigger] cmds[j], z[j])
}

/// The number of leading slots of `b` that are valid: the first invalid slot, or all the
/// expected ones.
pub open spec fn compatible_count(b: BinderView) -> int {
    if b.all_valid() {
        b.expected.len() as int
    } else {
        choose|i: int| b.first_invalid(i)
    }
}

/// `cmds` binds natively, one command each and in order, slots `from..to` of `b`.
pub open spec fn binds_range(cmds: Seq<NativeCommand>, b: BinderView, from: int, to: int) -> bool {
    &&& cmds.len() == to - from
    &&& forall|j: int|
        0 <= j < to - from ==> is_bind_at(#[trigger] cmds[j], from + j, b.slots[from + j]->Some_0)
}

/// The usages of the bind groups in the first `n` slots of `b`, joined one group after
/// the other into `m`; none where a group's usages conflict with those gathered before.
pub open spec fn gathered(
    m: Map<SubresourceKey, u32>,
    g: &Global,
    b: BinderView,
    n: int,
    textures: bool,
) -> Option<Map<SubresourceKey, u32>>
    decreases n,
{
    if n <= 0 {
        Some(m)
    } else {
        match gathered(m, g, b, n - 1, textures) {
            None => None,
            Some(acc) => match b.slots[n - 1] {
                Some(bound) => match g.bind_groups.spec_get(bound.group_id) {
                    Some(bg) => {
                        let o = if textures {
                            bg.used_textures@
                        } else {
                            bg.used_buffers@
                        };
                        if can_merge(acc, o) {
                            Some(merged(acc, o))
                        } else {
                            None
                        }
                    },
                    None => Some(acc),
                },
                None => Some(acc),
            },
        }
    }
}

/// `c` is a conflict between the usages gathered from slots before `i` into `acc` and
/// those of the group in slot `i`.
pub open spec fn conflict_with_slot(
    acc: Map<SubresourceKey, u32>,
    g: &Global,
    b: BinderView,
    i: int,
    textures: bool,
    c: UsageConflict,
) -> bool {
    match b.slots[i] {
        Some(sv) => match g.bind_groups.spec_get(sv.group_id) {
            Some(bg) => {
                let o = if textures {
                    bg.used_textures@
                } else {
                    bg.used_buffers@
                };
                &&& acc.contains_key(c.key)
                &&& o.contains_key(c.key)
                &&& c.old == acc[c.key]
                &&& c.new == o[c.key]
                &&& !compatible(c.old, c.new)
            },
            None => false,
        },
        None => false,
    }
}

/// `c` names a subresource on which gathering the bind groups' usages into `mb` (buffers)
/// or `mt` (textures) meets incompatible states.
pub open spec fn gather_conflict(
    mb: Map<SubresourceKey, u32>,
    mt: Map<SubresourceKey, u32>,
    g: &Global,
    b: BinderView,
    c: UsageConflict,
) -> bool {
    ||| exists|i: int|
        0 <= i < b.expected.len() && #[trigger] gathered(mb, g, b, i, false) is Some
            && conflict_with_slot(gathered(mb, g, b, i, false)->Some_0, g, b, i, false, c)
    ||| exists|i: int|
        0 <= i < b.expected.len() && #[trigger] gathered(mt, g, b, i, true) is Some
            && conflict_with_slot(gathered(mt, g, b, i, true)->Some_0, g, b, i, true, c)
}

proof fn lemma_gathered_sticks(
    m: Map<SubresourceKey, u32>,
    g: &Global,
    b: BinderView,
    i: int,
    n: int,
    textures: bool,
)
    requires
        0 <= i <= n,
        gathered(m, g, b, i, textures) is None,
    ensures
        gathered(m, g, b, n, textures) is None,
    decreases n - i,
{
    if i < n {
        lemma_gathered_sticks(m, g, b, i, n - 1, textures);
    }
}

impl State {
    pub open spec fn wf(&self) -> bool {
        self.binder.wf() && self.buffers.wf() && self.textures.wf()
    }

    pub fn new() -> (r: State)
        ensures
            r.wf(),
            r.pipeline is None,
            r.binder.pipeline_layout_id is None,
            r.binder.expected@.len() == 0,
            forall|i: int| 0 <= i < MAX_BIND_GROUPS ==> #[trigger] r.binder.slots@[i] is None,
            r.debug_scope_depth == 0,
            r.buffers@ == Map::<SubresourceKey, u32>::empty(),
            r.textures@ == Map::<SubresourceKey, u32>::empty(),
    {
        State {
            binder: Binder::new(),
            pipeline: None,
            buffers: UsageTracker::new(),
            textures: UsageTracker::new(),
            debug_scope_depth: 0,
        }
    }

    /// A dispatch may run: every expected slot holds a group of its layout, and a pipeline
    /// is set.
    pub fn is_ready(&self) -> (r: Result<(), DispatchError>)
        requires
            self.wf(),
        ensures
            r == spec_ready(self),
    {
        match self.binder.invalid_index() {
            Some(i) => {
                assert(!self.binder.all_valid());
                assert(self.binder.first_invalid(i as int));
                let ghost c = choose|c: int| self.binder.first_invalid(c);
                assert(c == i) by {
                    if c < i {
                        assert(self.binder.slot_valid(c));
                    } else if c > i {
                        assert(self.binder.slot_valid(i as int));
                    }
                }
                return Err(DispatchError::IncompatibleBindGroup { index: i });
            },
            None => {},
        }
        if self.pipeline.is_none() {
            return Err(DispatchError::MissingPipeline);
        }
        Ok(())
    }

    /// Takes in the usages of every bind group the layout expects, then emits the barriers
    /// the command buffer needs for all usages gathered so far and forgets them. A
    /// conflict between gathered usages leaves the command buffer as it was.
    pub fn flush_states(&mut self, g: &Global, cmd_buf: &mut CommandBuffer) -> (r: Result<
        (),
        UsageConflict,
    >)
        requires
            old(self).wf(),
            old(cmd_buf).wf(),
            g.wf(),
        ensures
            final(self).wf(),
            final(self).binder == old(self).binder,
            final(self).pipeline == old(self).pipeline,
            final(self).debug_scope_depth == old(self).debug_scope_depth,
            final(cmd_buf).extends(old(cmd_buf)),
            final(cmd_buf).buffer_memory_init_actions == old(cmd_buf).buffer_memory_init_actions,
            r is Err ==> *final(cmd_buf) == *old(cmd_buf),
            r matches Err(c) ==> gather_conflict(
                old(self).buffers@,
                old(self).textures@,
                g,
                old(self).binder@,
                c,
            ),
            ({
                let n = old(self).binder.expected@.len() as int;
                let gb = gathered(old(self).buffers@, g, old(self).binder@, n, false);
                let gt = gathered(old(self).textures@, g, old(self).binder@, n, true);
                &&& r is Ok <==> (gb is Some && gt is Some)
                &&& r is Ok ==> final(cmd_buf).buffer_trackers@ == replaced_by(
                    old(cmd_buf).buffer_trackers@,
                    gb->Some_0,
                )
                &&& r is Ok ==> final(cmd_buf).texture_trackers@ == replaced_by(
                    old(cmd_buf).texture_trackers@,
                    gt->Some_0,
                )
            }),
            r is Ok ==> final(self).buffers@ == Map::<SubresourceKey, u32>::empty()
                && final(self).textures@ == Map::<SubresourceKey, u32>::empty(),
            r is Ok ==> flush_commands(
                old(cmd_buf).raw@,
                final(cmd_buf).raw@,
                old(cmd_buf).buffer_trackers@,
                old(cmd_buf).texture_trackers@,
                gathered(
                    old(self).buffers@,
                    g,
                    old(self).binder@,
                    old(self).binder.expected@.len() as int,
                    false,
                )->Some_0,
                gathered(
                    old(self).textures@,
                    g,
                    old(self).binder@,
                    old(self).binder.expected@.len() as int,
                    true,
                )->Some_0,
            ),
    {
        let n = self.binder.expected.len();
        let mut i: usize = 0;
        assert(cmd_buf.raw@.subrange(0, cmd_buf.raw@.len() as int) =~= cmd_buf.raw@);
        while i < n
            invariant
                n == self.binder.expected@.len(),
                i <= n,
                self.wf(),
                g.wf(),
                self.binder == old(self).binder,
                self.pipeline == old(self).pipeline,
                self.debug_scope_depth == old(self).debug_scope_depth,
                *cmd_buf == *old(cmd_buf),
                cmd_buf.wf(),
                cmd_buf.raw@.subrange(0, cmd_buf.raw@.len() as int) == cmd_buf.raw@,
                gathered(old(self).buffers@, g, old(self).binder@, i as int, false) == Some(
                    self.buffers@,
                ),
                gathered(old(self).textures@, g, old(self).binder@, i as int, true) == Some(
                    self.textures@,
                ),
            decreases n - i,
        {
            match &self.binder.slots[i] {
                Some(bound) => {
                    match g.bind_groups.get(bound.group_id) {
                        Some(bg) => {
                            proof {
                                assert(g.bind_groups.items@[bound.group_id as int] is Some);
                            }
                            match self.buffers.merge_extend(&bg.used_buffers) {
                                Err(e) => {
                                    proof {
                                        lemma_gathered_sticks(
                                            old(self).buffers@,
                                            g,
                                            old(self).binder@,
                                            i + 1,
                                            n as int,
                                            false,
                                        );
                                        assert(old(self).binder@.slots[i as int] == slot_view(
                                            self.binder.slots@[i as int],
                                        ));
                                        assert(conflict_with_slot(
                                            self.buffers@,
                                            g,
                                            old(self).binder@,
                                            i as int,
                                            false,
                                            e,
                                        ));
                                        assert(gathered(
                                            old(self).buffers@,
                                            g,
                                            old(self).binder@,
                                            i as int,
                                            false,
                                        ) is Some);
                                    }
                                    return Err(e);
                                },
                                Ok(()) => {},
                            }
                            match self.textures.merge_extend(&bg.used_textures) {
                                Err(e) => {
                                    proof {
                                        lemma_gathered_sticks(
                                            old(self).textures@,
                                            g,
                                            old(self).binder@,
                                            i + 1,
                                            n as int,
                                            true,
                                        );
                                        assert(old(self).binder@.slots[i as int] == slot_view(
                                            self.binder.slots@[i as int],
                                        ));
                                        assert(conflict_with_slot(
                                            self.textures@,
                                            g,
                                            old(self).binder@,
                                            i as int,
                                            true,
                                            e,
                                        ));
                                        assert(gathered(
                                            old(self).textures@,
                                            g,
                                            old(self).binder@,
                                            i as int,
                                            true,
                                        ) is Some);
                                    }
                                    return Err(e);
                                },
                                Ok(()) => {},
                            }
                        },
                        None => {},
                    }
                },
                None => {},
            }
            i = i + 1;
        }
        let ghost raw0 = cmd_buf.raw@;
        let tb = cmd_buf.buffer_trackers.apply_all(&self.buffers);
        push_barriers(&mut cmd_buf.raw, &tb, false);
        let tt = cmd_buf.texture_trackers.apply_all(&self.textures);
        push_barriers(&mut cmd_buf.raw, &tt, true);
        self.buffers.clear();
        self.textures.clear();
        assert(cmd_buf.raw@.subrange(0, raw0.len() as int) =~= raw0);
        Ok(())
    }
}

/// The elements `start..end` of `v`, copied.
fn copy_range<T: Copy>(v: &Vec<T>, start: usize, end: usize) -> (r: Vec<T>)
    requires
        start <= end <= v@.len(),
    ensures
        r@ == v@.subrange(start as int, end as int),
{
    let mut r: Vec<T> = Vec::new();
    let mut i = start;
    while i < end
        invariant
            start <= i <= end,
            end <= v@.len(),
            r@ == v@.subrange(start as int, i as int),
        decreases end - i,
    {
        r.push(v[i]);
        assert(v@.subrange(start as int, i + 1) == v@.subrange(start as int, i as int).push(
            v@[i as int],
        ));
        i = i + 1;
    }
    r
}

proof fn lemma_prefix_step(cmds: Seq<ComputeCommand>, i: int)
    requires
        0 <= i < cmds.len(),
    ensures
        cmds.take(i + 1).drop_last() == cmds.take(i),
        cmds.take(i + 1).last() == cmds[i],
        dynamic_offsets_used(cmds.take(i + 1)) == dynamic_offsets_used(cmds.take(i)) + match cmds[i] {
            ComputeCommand::SetBindGroup { num_dynamic_offsets, .. } => num_dynamic_offsets as nat,
            _ => 0,
        },
        string_bytes_used(cmds.take(i + 1)) == string_bytes_used(cmds.take(i)) + match cmds[i] {
            ComputeCommand::PushDebugGroup { len, .. } => len as nat,
            ComputeCommand::InsertDebugMarker { len, .. } => len as nat,
            _ => 0,
        },
        debug_depth(cmds.take(i + 1)) == match debug_depth(cmds.take(i)) {
            None => None,
            Some(d) => match cmds[i] {
                ComputeCommand::PushDebugGroup { .. } => Some(d + 1),
                ComputeCommand::PopDebugGroup => if d == 0 {
                    None
                } else {
                    Some((d - 1) as nat)
                },
                _ => Some(d),
            },
        },
{
    assert(cmds.take(i + 1).drop_last() =~= cmds.take(i));
}

proof fn lemma_prefix_bounded(cmds: Seq<ComputeCommand>, i: int)
    requires
        0 <= i <= cmds.len(),
    ensures
        dynamic_offsets_used(cmds.take(i)) <= dynamic_offsets_used(cmds),
        string_bytes_used(cmds.take(i)) <= string_bytes_used(cmds),
    decreases cmds.len() - i,
{
    if i < cmds.len() {
        lemma_prefix_step(cmds, i);
        lemma_prefix_bounded(cmds, i + 1);
    } else {
        assert(cmds.take(i) =~= cmds);
    }
}

impl Global {
    /// Replays setting bind group `bind_group_id` at slot `index`, with the
    /// `num_dynamic_offsets` dynamic offsets from `offsets_start` on in the pass's side
    /// buffer. On success the ranges that the group's shaders may read are queued for
    /// initialisation where needed, the slot holds the group, and the group is bound
    /// natively at once where the current layout expects its layout there.
    pub fn run_set_bind_group(
        &self,
        state: &mut State,
        cmd_buf: &mut CommandBuffer,
        base: &BasePass,
        offsets_start: usize,
        offsets_end: usize,
        index: u8,
        num_dynamic_offsets: u8,
        bind_group_id: u64,
    ) -> (r: Result<(), ComputePassError>)
        requires
            self.wf(),
            old(state).wf(),
            old(cmd_buf).wf(),
            offsets_end == offsets_start + num_dynamic_offsets,
            offsets_end <= base.dynamic_offsets@.len(),
        ensures
            final(state).wf(),
            final(cmd_buf).extends(old(cmd_buf)),
            final(state).pipeline == old(state).pipeline,
            final(state).debug_scope_depth == old(state).debug_scope_depth,
            r matches Err(e) ==> e.spec_scope() == PassErrorScope::SetBindGroup(bind_group_id),
            ({
                let offsets = base.dynamic_offsets@.subrange(
                    offsets_start as int,
                    offsets_start + num_dynamic_offsets,
                );
                match set_bind_group_error(
                    old(cmd_buf).limits,
                    self,
                    index,
                    bind_group_id,
                    offsets,
                ) {
                    Some(e) => (r matches Err(pe) && pe.spec_inner() == e) && *final(cmd_buf)
                        == *old(cmd_buf) && *final(state) == *old(state),
                    None => {
                        let bg = self.bind_groups.spec_get(bind_group_id)->Some_0;
                        &&& r is Ok
                        &&& final(cmd_buf).buffer_memory_init_actions@ == old(
                            cmd_buf,
                        ).buffer_memory_init_actions@ + needed_actions(
                            self,
                            bg.used_buffer_ranges@,
                        )
                        &&& final(state).binder.slots@[index as int] matches Some(b) && b.group_id
                            == bind_group_id && b.layout_id == bg.layout_id && b.dynamic_offsets@
                            == offsets
                        &&& forall|j: int|
                            0 <= j < MAX_BIND_GROUPS && j != index ==> (final(state).binder.slots@[j]
                                == old(state).binder.slots@[j])
                        &&& final(state).binder.expected == old(state).binder.expected
                        &&& final(state).binder.pipeline_layout_id == old(
                            state,
                        ).binder.pipeline_layout_id
                        &&& final(state).buffers == old(state).buffers
                        &&& final(state).textures == old(state).textures
                        &&& final(cmd_buf).buffer_trackers == old(cmd_buf).buffer_trackers
                        &&& final(cmd_buf).texture_trackers == old(cmd_buf).texture_trackers
                        &&& if final(state).binder@.layout is Some && (index as int)
                            < compatible_count(final(state).binder@) {
                            old(cmd_buf).raw@.len() <= final(cmd_buf).raw@.len() && binds_range(
                                final(cmd_buf).raw@.subrange(
                                    old(cmd_buf).raw@.len() as int,
                                    final(cmd_buf).raw@.len() as int,
                                ),
                                final(state).binder@,
                                index as int,
                                compatible_count(final(state).binder@),
                            )
                        } else {
                            final(cmd_buf).raw@ == old(cmd_buf).raw@
                        }
                        &&& final(state).binder@ == (BinderView {
                            slots: old(state).binder@.slots.update(
                                index as int,
                                Some(
                                    SlotView {
                                        group_id: bind_group_id,
                                        layout_id: bg.layout_id,
                                        offsets,
                                    },
                                ),
                            ),
                            ..old(state).binder@
                        })
                    },
                }
            }),
    {
        let scope = PassErrorScope::SetBindGroup(bind_group_id);
        assert(cmd_buf.raw@.subrange(0, cmd_buf.raw@.len() as int) =~= cmd_buf.raw@);
        let max_bind_groups = cmd_buf.limits.max_bind_groups;
        if index as u32 >= max_bind_groups {
            return map_pass_err(
                Err(ComputePassErrorInner::BindGroupIndexOutOfRange { index, max: max_bind_groups }),
                scope,
            );
        }
        let temp_offsets = copy_range(
            &base.dynamic_offsets,
            offsets_start,
            offsets_end,
        );
        let bind_group = match self.bind_groups.get(bind_group_id) {
            Some(bg) => bg,
            None => {
                return map_pass_err(Err(ComputePassErrorInner::InvalidBindGroup(bind_group_id)), scope);
            },
        };
        if temp_offsets.len() != bind_group.dynamic_bindings.len() {
            return map_pass_err(
                Err(
                    ComputePassErrorInner::Bind(
                        BindError::MismatchedDynamicOffsetCount {
                            actual: temp_offsets.len(),
                            expected: bind_group.dynamic_bindings.len(),
                        },
                    ),
                ),
                scope,
            );
        }
        let mut k: usize = 0;
        while k < temp_offsets.len()
            invariant
                k <= temp_offsets@.len(),
                temp_offsets@.len() == bind_group.dynamic_bindings@.len(),
                cmd_buf.wf(),
                *cmd_buf == *old(cmd_buf),
                *state == *old(state),
                state.wf(),
                cmd_buf.raw@.subrange(0, cmd_buf.raw@.len() as int) == cmd_buf.raw@,
                scope == PassErrorScope::SetBindGroup(bind_group_id),
                (index as u32) < old(cmd_buf).limits.max_bind_groups,
                self.bind_groups.spec_get(bind_group_id) == Some(*bind_group),
                offsets_start + num_dynamic_offsets <= base.dynamic_offsets@.len(),
                temp_offsets@ == base.dynamic_offsets@.subrange(
                    offsets_start as int,
                    offsets_start + num_dynamic_offsets,
                ),
                forall|j: int|
                    0 <= j < k ==> #[trigger] offset_aligned(
                        old(cmd_buf).limits,
                        bind_group,
                        temp_offsets@,
                        j,
                    ),
            decreases temp_offsets@.len() - k,
        {
            let alignment = match bind_group.dynamic_bindings[k] {
                DynamicBindingKind::Uniform => cmd_buf.limits.min_uniform_buffer_offset_alignment,
                DynamicBindingKind::Storage => cmd_buf.limits.min_storage_buffer_offset_alignment,
            };
            if temp_offsets[k] % alignment != 0 {
                proof {
                    assert(first_unaligned(cmd_buf.limits, bind_group, temp_offsets@, k as int));
                    let c = choose|c: int| first_unaligned(cmd_buf.limits, bind_group, temp_offsets@, c);
                    assert(c == k) by {
                        if c < k {
                            assert(offset_aligned(cmd_buf.limits, bind_group, temp_offsets@, c));
                        } else if c > k {
                            assert(offset_aligned(cmd_buf.limits, bind_group, temp_offsets@, k as int));
                        }
                    }
                }
                return map_pass_err(
                    Err(
                        ComputePassErrorInner::Bind(
                            BindError::UnalignedDynamicBinding {
                                idx: k,
                                offset: temp_offsets[k],
                                alignment,
                            },
                        ),
                    ),
                    scope,
                );
            }
            k = k + 1;
        }
        proof {
            assert forall|c: int| !first_unaligned(cmd_buf.limits, bind_group, temp_offsets@, c) by {
                if 0 <= c < temp_offsets@.len() {
                    assert(offset_aligned(cmd_buf.limits, bind_group, temp_offsets@, c));
                }
            }
        }
        let mut a: usize = 0;
        proof {
            assert(bind_group.used_buffer_ranges@.take(0) =~= Seq::<MemoryInitAction>::empty());
            assert(cmd_buf.buffer_memory_init_actions@ =~= old(cmd_buf).buffer_memory_init_actions@
                + needed_actions(self, bind_group.used_buffer_ranges@.take(0)));
        }
        while a < bind_group.used_buffer_ranges.len()
            invariant
                a <= bind_group.used_buffer_ranges@.len(),
                cmd_buf.wf(),
                cmd_buf.same_setup(old(cmd_buf)),
                cmd_buf.raw == old(cmd_buf).raw,
                cmd_buf.buffer_trackers == old(cmd_buf).buffer_trackers,
                cmd_buf.texture_trackers == old(cmd_buf).texture_trackers,
                cmd_buf.buffer_memory_init_actions@ == old(cmd_buf).buffer_memory_init_actions@
                    + needed_actions(self, bind_group.used_buffer_ranges@.take(a as int)),
                *state == *old(state),
                state.wf(),
                offsets_start + num_dynamic_offsets <= base.dynamic_offsets@.len(),
            decreases bind_group.used_buffer_ranges@.len() - a,
        {
            let action = bind_group.used_buffer_ranges[a];
            proof {
                let t1 = bind_group.used_buffer_ranges@.take(a + 1);
                assert(t1.drop_last() =~= bind_group.used_buffer_ranges@.take(a as int));
                assert(t1.last() == action);
            }
            let ghost before = cmd_buf.buffer_memory_init_actions@;
            match self.buffers.get(action.id) {
                Some(buffer) => {
                    match buffer.initialization_status.check_action(&action) {
                        Some(act) => {
                            cmd_buf.buffer_memory_init_actions.push(act);
                        },
                        None => {},
                    }
                },
                None => {},
            }
            proof {
                let rest = needed_actions(self, bind_group.used_buffer_ranges@.take(a as int));
                let one = match self.buffers.spec_get(action.id) {
                    Some(b) => if b.initialization_status.needs_init(
                        action.start as int,
                        action.end as int,
                    ) {
                        seq![action]
                    } else {
                        Seq::empty()
                    },
                    None => Seq::empty(),
                };
                assert(cmd_buf.buffer_memory_init_actions@ =~= before + one);
                assert(old(cmd_buf).buffer_memory_init_actions@ + (rest + one) =~= (old(
                    cmd_buf,
                ).buffer_memory_init_actions@ + rest) + one);
            }
            a = a + 1;
        }
        proof {
            assert(bind_group.used_buffer_ranges@.take(
                bind_group.used_buffer_ranges@.len() as int,
            ) =~= bind_group.used_buffer_ranges@);
        }
        let slot = index as usize;
        let layout_id = bind_group.layout_id;
        let ghost old_view = state.binder@;
        state.binder.slots.set(
            slot,
            Some(BoundGroup { group_id: bind_group_id, layout_id, dynamic_offsets: temp_offsets }),
        );
        assert(state.binder@.slots =~= old_view.slots.update(
            slot as int,
            Some(
                SlotView {
                    group_id: bind_group_id,
                    layout_id,
                    offsets: base.dynamic_offsets@.subrange(
                        offsets_start as int,
                        offsets_start + num_dynamic_offsets,
                    ),
                },
            ),
        ));
        let compatible = match state.binder.invalid_index() {
            Some(i) => i as usize,
            None => state.binder.expected.len(),
        };
        proof {
            let bv = state.binder@;
            if !bv.all_valid() {
                let c = choose|c: int| bv.first_invalid(c);
                assert(c == compatible) by {
                    if c < compatible {
                        assert(bv.slot_valid(c));
                    } else if c > compatible {
                        assert(bv.slot_valid(compatible as int));
                    }
                }
            }
            assert(compatible as int == compatible_count(bv));
            assert(cmd_buf.raw@.subrange(
                old(cmd_buf).raw@.len() as int,
                cmd_buf.raw@.len() as int,
            ) =~= Seq::<NativeCommand>::empty());
        }
        if state.binder.pipeline_layout_id.is_some() && slot < compatible {
            let mut j = slot;
            while j < compatible
                invariant
                    slot <= j <= compatible,
                    compatible as int == compatible_count(state.binder@),
                    compatible <= state.binder.expected@.len(),
                    forall|q: int| 0 <= q < compatible ==> #[trigger] state.binder@.slot_valid(q),
                    state.wf(),
                    cmd_buf.wf(),
                    cmd_buf.same_setup(old(cmd_buf)),
                    cmd_buf.buffer_trackers == old(cmd_buf).buffer_trackers,
                    cmd_buf.texture_trackers == old(cmd_buf).texture_trackers,
                    cmd_buf.buffer_memory_init_actions@ == old(cmd_buf).buffer_memory_init_actions@
                        + needed_actions(self, bind_group.used_buffer_ranges@),
                    old(cmd_buf).raw@.len() <= cmd_buf.raw@.len(),
                    cmd_buf.raw@.subrange(0, old(cmd_buf).raw@.len() as int) == old(cmd_buf).raw@,
                    binds_range(
                        cmd_buf.raw@.subrange(
                            old(cmd_buf).raw@.len() as int,
                            cmd_buf.raw@.len() as int,
                        ),
                        state.binder@,
                        slot as int,
                        j as int,
                    ),
                decreases compatible - j,
            {
                proof {
                    assert(state.binder@.slot_valid(j as int));
                    assert(state.binder@.slots[j as int] == slot_view(state.binder.slots@[j as int]));
                }
                match &state.binder.slots[j] {
                    Some(b) => {
                        let ghost before = cmd_buf.raw@;
                        cmd_buf.raw.push(
                            NativeCommand::SetBindGroup {
                                index: j as u32,
                                bind_group: b.group_id,
                                dynamic_offsets: copy_range(
                                    &b.dynamic_offsets,
                                    0,
                                    b.dynamic_offsets.len(),
                                ),
                            },
                        );
                        proof {
                            assert(b.dynamic_offsets@.subrange(0, b.dynamic_offsets@.len() as int)
                                =~= b.dynamic_offsets@);
                            let o = old(cmd_buf).raw@.len() as int;
                            let e0 = before.subrange(o, before.len() as int);
                            let e1 = cmd_buf.raw@.subrange(o, cmd_buf.raw@.len() as int);
                            assert(e1 =~= e0.push(cmd_buf.raw@.last()));
                            assert(cmd_buf.raw@.subrange(0, o) =~= before.subrange(0, o));
                            assert forall|q: int| 0 <= q < j + 1 - slot implies is_bind_at(
                                #[trigger] e1[q],
                                slot + q,
                                state.binder@.slots[slot + q]->Some_0,
                            ) by {
                                if q < j - slot {
                                    assert(e1[q] == e0[q]);
                                }
                            }
                        }
                    },
                    None => {},
                }
                j = j + 1;
            }
        }
        assert(cmd_buf.raw@.subrange(0, old(cmd_buf).raw@.len() as int) =~= old(cmd_buf).raw@);
        Ok(())
    }

    /// Replays selecting compute pipeline `pipeline_id`. Selecting the current pipeline
    /// again changes nothing. Otherwise the pipeline is bound natively; where its layout
    /// differs from the current one, the slots still valid under the new layout are bound
    /// again and its push-constant ranges are zeroed.
    pub fn run_set_pipeline(&self, state: &mut State, cmd_buf: &mut CommandBuffer, pipeline_id: u64) -> (r:
        Result<(), ComputePassError>)
        requires
            self.wf(),
            old(state).wf(),
            old(cmd_buf).wf(),
        ensures
            final(state).wf(),
            final(cmd_buf).extends(old(cmd_buf)),
            final(state).debug_scope_depth == old(state).debug_scope_depth,
            final(state).buffers == old(state).buffers,
            final(state).textures == old(state).textures,
            r is Ok ==> final(state).pipeline == Some(pipeline_id),
            r is Err ==> final(state).pipeline == old(state).pipeline,
            r matches Err(e) ==> e.spec_scope() == PassErrorScope::SetPipelineCompute(pipeline_id),
            old(state).pipeline == Some(pipeline_id) ==> r is Ok && *final(state) == *old(state)
                && *final(cmd_buf) == *old(cmd_buf),
            old(state).pipeline != Some(pipeline_id) ==> match self.compute_pipelines.spec_get(
                pipeline_id,
            ) {
                None => (r matches Err(e) && e.spec_inner() == ComputePassErrorInner::InvalidPipeline(
                    pipeline_id,
                )) && *final(cmd_buf) == *old(cmd_buf),
                Some(p) => match self.pipeline_layouts.spec_get(p.layout_id) {
                    None => (r matches Err(e) && e.spec_inner()
                        == ComputePassErrorInner::InvalidPipeline(pipeline_id)) && *final(cmd_buf)
                        == *old(cmd_buf),
                    Some(l) => {
                        &&& r is Ok
                        &&& final(state).binder@ == if old(state).binder@.layout == Some(
                            p.layout_id,
                        ) {
                            old(state).binder@
                        } else {
                            BinderView {
                                layout: Some(p.layout_id),
                                expected: l.bind_group_layout_ids@,
                                slots: old(state).binder@.slots,
                            }
                        }
                        &&& final(cmd_buf).raw@[old(cmd_buf).raw@.len() as int]
                            == NativeCommand::SetComputePipeline(pipeline_id)
                        &&& old(state).binder@.layout == Some(p.layout_id)
                            ==> (final(cmd_buf).raw@ == old(cmd_buf).raw@.push(
                            NativeCommand::SetComputePipeline(pipeline_id),
                        ))
                        &&& old(state).binder@.layout != Some(p.layout_id) ==> {
                            let nb = BinderView {
                                layout: Some(p.layout_id),
                                expected: l.bind_group_layout_ids@,
                                slots: old(state).binder@.slots,
                            };
                            let o = old(cmd_buf).raw@.len() + 1int;
                            let k = o + valid_slots(nb, nb.expected.len() as int).len() as int;
                            &&& k <= final(cmd_buf).raw@.len()
                            &&& rebinds(
                                final(cmd_buf).raw@.subrange(o, k),
                                nb,
                                nb.expected.len() as int,
                            )
                            &&& zeroings(
                                final(cmd_buf).raw@.subrange(k, final(cmd_buf).raw@.len() as int),
                                l.push_constant_ranges@,
                                l.push_constant_ranges@.len() as int,
                            )
                        }
                    },
                },
            },
            r is Ok ==> final(cmd_buf).buffer_trackers == old(cmd_buf).buffer_trackers
                && final(cmd_buf).texture_trackers == old(cmd_buf).texture_trackers
                && final(cmd_buf).buffer_memory_init_actions == old(
                cmd_buf,
            ).buffer_memory_init_actions,
    {
        let scope = PassErrorScope::SetPipelineCompute(pipeline_id);
        assert(cmd_buf.raw@.subrange(0, cmd_buf.raw@.len() as int) =~= cmd_buf.raw@);
        if state.pipeline == Some(pipeline_id) {
            return Ok(());
        }
        let pipeline = match self.compute_pipelines.get(pipeline_id) {
            Some(p) => *p,
            None => {
                return map_pass_err(Err(ComputePassErrorInner::InvalidPipeline(pipeline_id)), scope);
            },
        };
        let layout = match self.pipeline_layouts.get(pipeline.layout_id) {
            Some(l) => l,
            None => {
                return map_pass_err(Err(ComputePassErrorInner::InvalidPipeline(pipeline_id)), scope);
            },
        };
        proof {
            assert(self.pipeline_layouts.items@[pipeline.layout_id as int] is Some);
        }
        state.pipeline = Some(pipeline_id);
        cmd_buf.raw.push(NativeCommand::SetComputePipeline(pipeline_id));
        assert(cmd_buf.raw@.subrange(0, old(cmd_buf).raw@.len() as int) =~= old(cmd_buf).raw@);
        let ghost raw_p = cmd_buf.raw@;
        assert(cmd_buf.raw@.subrange(0, raw_p.len() as int) =~= raw_p);
        if state.binder.pipeline_layout_id != Some(pipeline.layout_id) {
            state.binder.pipeline_layout_id = Some(pipeline.layout_id);
            state.binder.expected = copy_range(
                &layout.bind_group_layout_ids,
                0,
                layout.bind_group_layout_ids.len(),
            );
            assert(state.binder@.slots =~= old(state).binder@.slots);
            assert(state.binder.expected@ =~= layout.bind_group_layout_ids@);
            assert(state.binder@ == (BinderView {
                layout: Some(pipeline.layout_id),
                expected: layout.bind_group_layout_ids@,
                slots: old(state).binder@.slots,
            }));
            let mut i: usize = 0;
            while i < state.binder.expected.len()
                invariant
                    state.wf(),
                    i <= state.binder.expected@.len(),
                    cmd_buf.wf(),
                    cmd_buf.same_setup(old(cmd_buf)),
                    old(cmd_buf).raw@.len() <= cmd_buf.raw@.len(),
                    cmd_buf.raw@.subrange(0, old(cmd_buf).raw@.len() as int) == old(cmd_buf).raw@,
                    raw_p.len() <= cmd_buf.raw@.len(),
                    cmd_buf.raw@.subrange(0, raw_p.len() as int) == raw_p,
                    raw_p.len() == old(cmd_buf).raw@.len() + 1,
                    raw_p.last() == NativeCommand::SetComputePipeline(pipeline_id),
                    state.binder.pipeline_layout_id == Some(pipeline.layout_id),
                    state.pipeline == Some(pipeline_id),
                    state.buffers == old(state).buffers,
                    state.textures == old(state).textures,
                    state.debug_scope_depth == old(state).debug_scope_depth,
                    cmd_buf.buffer_trackers == old(cmd_buf).buffer_trackers,
                    cmd_buf.texture_trackers == old(cmd_buf).texture_trackers,
                    cmd_buf.buffer_memory_init_actions == old(cmd_buf).buffer_memory_init_actions,
                    state.binder@ == (BinderView {
                        layout: Some(pipeline.layout_id),
                        expected: layout.bind_group_layout_ids@,
                        slots: old(state).binder@.slots,
                    }),
                    rebinds(
                        cmd_buf.raw@.subrange(raw_p.len() as int, cmd_buf.raw@.len() as int),
                        state.binder@,
                        i as int,
                    ),
                decreases state.binder.expected@.len() - i,
            {
                let ghost r_before = cmd_buf.raw@;
                let ghost e_before = r_before.subrange(raw_p.len() as int, r_before.len() as int);
                if state.binder.is_slot_valid(i) {
                    match &state.binder.slots[i] {
                        Some(b) => {
                            let ghost before = cmd_buf.raw@;
                            cmd_buf.raw.push(
                                NativeCommand::SetBindGroup {
                                    index: i as u32,
                                    bind_group: b.group_id,
                                    dynamic_offsets: copy_range(
                                        &b.dynamic_offsets,
                                        0,
                                        b.dynamic_offsets.len(),
                                    ),
                                },
                            );
                            assert(cmd_buf.raw@.subrange(0, old(cmd_buf).raw@.len() as int)
                                =~= before.subrange(0, old(cmd_buf).raw@.len() as int));
                            assert(cmd_buf.raw@.subrange(0, raw_p.len() as int) =~= before.subrange(
                                0,
                                raw_p.len() as int,
                            ));
                            assert(b.dynamic_offsets@.subrange(0, b.dynamic_offsets@.len() as int)
                                =~= b.dynamic_offsets@);
                            assert(state.binder@.slots[i as int] == slot_view(
                                state.binder.slots@[i as int],
                            ));
                            assert(is_bind_at(
                                cmd_buf.raw@.last(),
                                i as int,
                                state.binder@.slots[i as int]->Some_0,
                            ));
                        },
                        None => {},
                    }
                }
                proof {
                    let bv = state.binder@;
                    let e_after = cmd_buf.raw@.subrange(
                        raw_p.len() as int,
                        cmd_buf.raw@.len() as int,
                    );
                    assert(valid_slots(bv, i + 1) == valid_slots(bv, i as int) + if (i as int)
                        < bv.expected.len() && bv.slot_valid(i as int) {
                        seq![i as int]
                    } else {
                        Seq::<int>::empty()
                    });
                    if bv.slot_valid(i as int) {
                        assert(e_after =~= e_before.push(cmd_buf.raw@.last()));
                        assert(bv.slots[i as int] == slot_view(state.binder.slots@[i as int]));
                        let v = valid_slots(bv, i + 1);
                        assert forall|j: int| 0 <= j < v.len() implies is_bind_at(
                            #[trigger] e_after[j],
                            v[j],
                            bv.slots[v[j]]->Some_0,
                        ) by {
                            if j < e_before.len() {
                                assert(e_after[j] == e_before[j]);
                            } else {
                                assert(e_after[j] == cmd_buf.raw@.last());
                                assert(v[j] == i);
                            }
                        }
                    } else {
                        assert(e_after =~= e_before);
                    }
                }
                i = i + 1;
            }
            let ghost raw_b = cmd_buf.raw@;
            proof {
                assert(cmd_buf.raw@.subrange(0, raw_b.len() as int) =~= raw_b);
                assert(cmd_buf.raw@.subrange(raw_b.len() as int, raw_b.len() as int) =~= Seq::<
                    NativeCommand,
                >::empty());
            }
            let mut k: usize = 0;
            while k < layout.push_constant_ranges.len()
                invariant
                    k <= layout.push_constant_ranges@.len(),
                    cmd_buf.wf(),
                    cmd_buf.same_setup(old(cmd_buf)),
                    old(cmd_buf).raw@.len() <= cmd_buf.raw@.len(),
                    cmd_buf.raw@.subrange(0, old(cmd_buf).raw@.len() as int) == old(cmd_buf).raw@,
                    raw_p.len() <= cmd_buf.raw@.len(),
                    cmd_buf.raw@.subrange(0, raw_p.len() as int) == raw_p,
                    raw_p.len() == old(cmd_buf).raw@.len() + 1,
                    raw_p.last() == NativeCommand::SetComputePipeline(pipeline_id),
                    cmd_buf.buffer_trackers == old(cmd_buf).buffer_trackers,
                    cmd_buf.texture_trackers == old(cmd_buf).texture_trackers,
                    cmd_buf.buffer_memory_init_actions == old(cmd_buf).buffer_memory_init_actions,
                    raw_b.len() <= cmd_buf.raw@.len(),
                    cmd_buf.raw@.subrange(0, raw_b.len() as int) == raw_b,
                    raw_p.len() <= raw_b.len(),
                    rebinds(
                        raw_b.subrange(raw_p.len() as int, raw_b.len() as int),
                        state.binder@,
                        state.binder@.expected.len() as int,
                    ),
                    state.binder@ == (BinderView {
                        layout: Some(pipeline.layout_id),
                        expected: layout.bind_group_layout_ids@,
                        slots: old(state).binder@.slots,
                    }),
                    state.pipeline == Some(pipeline_id),
                    state.buffers == old(state).buffers,
                    state.textures == old(state).textures,
                    state.debug_scope_depth == old(state).debug_scope_depth,
                    state.wf(),
                    zeroings(
                        cmd_buf.raw@.subrange(raw_b.len() as int, cmd_buf.raw@.len() as int),
                        layout.push_constant_ranges@,
                        k as int,
                    ),
                decreases layout.push_constant_ranges@.len() - k,
            {
                let range = layout.push_constant_ranges[k];
                let ghost r_before = cmd_buf.raw@;
                let ghost e_before = r_before.subrange(raw_b.len() as int, r_before.len() as int);
                if range.start < range.end {
                    let words = (range.end - range.start) / PUSH_CONSTANT_ALIGNMENT;
                    let mut zeros: Vec<u32> = Vec::new();
                    let mut w: u32 = 0;
                    while w < words
                        invariant
                            w <= words,
                            zeros@ == Seq::new(w as nat, |q: int| 0u32),
                        decreases words - w,
                    {
                        zeros.push(0);
                        w = w + 1;
                        assert(zeros@ =~= Seq::new(w as nat, |q: int| 0u32));
                    }
                    let ghost before = cmd_buf.raw@;
                    cmd_buf.raw.push(NativeCommand::SetPushConstants { offset: range.start, data: zeros });
                    assert(cmd_buf.raw@.subrange(0, old(cmd_buf).raw@.len() as int)
                        =~= before.subrange(0, old(cmd_buf).raw@.len() as int));
                    assert(cmd_buf.raw@.subrange(0, raw_p.len() as int) =~= before.subrange(
                        0,
                        raw_p.len() as int,
                    ));
                    assert(cmd_buf.raw@.subrange(0, raw_b.len() as int) =~= before.subrange(
                        0,
                        raw_b.len() as int,
                    ));
                }
                proof {
                    let rs = layout.push_constant_ranges@;
                    let e_after = cmd_buf.raw@.subrange(
                        raw_b.len() as int,
                        cmd_buf.raw@.len() as int,
                    );
                    assert(rs[k as int] == range);
                    assert(nonempty_ranges(rs, k + 1) == nonempty_ranges(rs, k as int) + if range.start
                        < range.end {
                        seq![range]
                    } else {
                        Seq::<PushConstantRange>::empty()
                    });
                    if range.start < range.end {
                        assert(e_after =~= e_before.push(cmd_buf.raw@.last()));
                        let z = nonempty_ranges(rs, k + 1);
                        assert forall|j: int| 0 <= j < z.len() implies is_zeroing(
                            #[trigger] e_after[j],
                            z[j],
                        ) by {
                            if j < e_before.len() {
                                assert(e_after[j] == e_before[j]);
                            }
                        }
                    } else {
                        assert(e_after =~= e_before);
                    }
                }
                k = k + 1;
            }
            proof {
                let o = old(cmd_buf).raw@.len() + 1;
                assert(o == raw_p.len());
                assert(cmd_buf.raw@.subrange(o as int, raw_b.len() as int) =~= raw_b.subrange(
                    raw_p.len() as int,
                    raw_b.len() as int,
                ));
                assert(layout.push_constant_ranges@.len() == k);
            }
        }
        assert(cmd_buf.raw@[old(cmd_buf).raw@.len() as int] == cmd_buf.raw@.subrange(
            0,
            raw_p.len() as int,
        )[old(cmd_buf).raw@.len() as int]);
        Ok(())
    }

    /// Replays writing the push constants `offset..offset + size_bytes` from the words at
    /// `values_offset` of the pass's side buffer. The current layout must declare a range
    /// that holds them.
    pub fn run_set_push_constant(
        &self,
        state: &State,
        cmd_buf: &mut CommandBuffer,
        base: &BasePass,
        offset: u32,
        size_bytes: u32,
        values_offset: u32,
        values_end: usize,
    ) -> (r: Result<(), ComputePassError>)
        requires
            old(cmd_buf).wf(),
            values_end == values_offset + (size_bytes / PUSH_CONSTANT_ALIGNMENT) as int,
            values_end <= base.push_constant_data@.len(),
        ensures
            final(cmd_buf).extends(old(cmd_buf)),
            r matches Err(e) ==> e.spec_scope() == PassErrorScope::SetPushConstant,
            r is Err ==> *final(cmd_buf) == *old(cmd_buf),
            state.binder.pipeline_layout_id is None ==> (r matches Err(e) && e.spec_inner()
                == ComputePassErrorInner::Dispatch(DispatchError::MissingPipeline)),
            state.binder.pipeline_layout_id matches Some(id) ==> match self.pipeline_layouts.spec_get(
                id,
            ) {
                Some(layout) => if push_range_declared(
                    layout.push_constant_ranges@,
                    offset as int,
                    offset + size_bytes,
                ) {
                    r is Ok && final(cmd_buf).raw@.len() == old(cmd_buf).raw@.len() + 1
                        && match final(cmd_buf).raw@.last() {
                        NativeCommand::SetPushConstants { offset: o, data } => o == offset && data@
                            == base.push_constant_data@.subrange(
                            values_offset as int,
                            values_offset + (size_bytes / PUSH_CONSTANT_ALIGNMENT) as int,
                        ),
                        _ => false,
                    }
                } else {
                    r matches Err(e) && e.spec_inner() == ComputePassErrorInner::PushConstants(
                        PushConstantUploadError::Unmatched {
                            offset,
                            end_offset: (offset + size_bytes) as u64,
                        },
                    )
                },
                None => r matches Err(e) && e.spec_inner() == ComputePassErrorInner::Dispatch(
                    DispatchError::MissingPipeline,
                ),
            },
            final(cmd_buf).buffer_trackers == old(cmd_buf).buffer_trackers,
            final(cmd_buf).texture_trackers == old(cmd_buf).texture_trackers,
            final(cmd_buf).buffer_memory_init_actions == old(cmd_buf).buffer_memory_init_actions,
    {
        let scope = PassErrorScope::SetPushConstant;
        assert(cmd_buf.raw@.subrange(0, cmd_buf.raw@.len() as int) =~= cmd_buf.raw@);
        let layout_id = match state.binder.pipeline_layout_id {
            Some(id) => id,
            None => {
                return map_pass_err(
                    Err(ComputePassErrorInner::Dispatch(DispatchError::MissingPipeline)),
                    scope,
                );
            },
        };
        let layout = match self.pipeline_layouts.get(layout_id) {
            Some(l) => l,
            None => {
                return map_pass_err(
                    Err(ComputePassErrorInner::Dispatch(DispatchError::MissingPipeline)),
                    scope,
                );
            },
        };
        let end_offset = offset as u64 + size_bytes as u64;
        let mut found = false;
        let mut k: usize = 0;
        while k < layout.push_constant_ranges.len()
            invariant
                k <= layout.push_constant_ranges@.len(),
                end_offset == offset + size_bytes,
                found == push_range_declared(
                    layout.push_constant_ranges@.take(k as int),
                    offset as int,
                    end_offset as int,
                ),
            decreases layout.push_constant_ranges@.len() - k,
        {
            let range = layout.push_constant_ranges[k];
            proof {
                let t1 = layout.push_constant_ranges@.take(k + 1);
                let t0 = layout.push_constant_ranges@.take(k as int);
                assert(t1[k as int] == range);
                assert forall|q: int| 0 <= q < k implies t1[q] == t0[q] by {}
            }
            if range.start <= offset && end_offset <= range.end as u64 {
                found = true;
            }
            proof {
                let t1 = layout.push_constant_ranges@.take(k + 1);
                let t0 = layout.push_constant_ranges@.take(k as int);
                if push_range_declared(t0, offset as int, end_offset as int) {
                    let q = choose|q: int| 0 <= q < t0.len() && #[trigger] t0[q].start <= offset
                        && end_offset <= t0[q].end;
                    assert(t1[q] == t0[q]);
                }
                if push_range_declared(t1, offset as int, end_offset as int) {
                    let q = choose|q: int| 0 <= q < t1.len() && #[trigger] t1[q].start <= offset
                        && end_offset <= t1[q].end;
                    if q < k {
                        assert(t0[q] == t1[q]);
                    }
                }
            }
            k = k + 1;
        }
        proof {
            assert(layout.push_constant_ranges@.take(layout.push_constant_ranges@.len() as int)
                =~= layout.push_constant_ranges@);
        }
        if !found {
            return map_pass_err(
                Err(
                    ComputePassErrorInner::PushConstants(
                        PushConstantUploadError::Unmatched { offset, end_offset },
                    ),
                ),
                scope,
            );
        }
        let start = values_offset as usize;
        let data = copy_range(
            &base.push_constant_data,
            start,
            values_end,
        );
        cmd_buf.raw.push(NativeCommand::SetPushConstants { offset, data });
        assert(cmd_buf.raw@.subrange(0, old(cmd_buf).raw@.len() as int) =~= old(cmd_buf).raw@);
        Ok(())
    }

    /// Replays a direct dispatch of `x × y × z` workgroups: the state must be ready, the
    /// gathered usages are flushed as barriers, and each count must be within the device
    /// limit.
    pub fn run_dispatch(
        &self,
        state: &mut State,
        cmd_buf: &mut CommandBuffer,
        x: u32,
        y: u32,
        z: u32,
    ) -> (r: Result<(), ComputePassError>)
        requires
            self.wf(),
            old(state).wf(),
            old(cmd_buf).wf(),
        ensures
            final(state).wf(),
            final(cmd_buf).extends(old(cmd_buf)),
            final(state).pipeline == old(state).pipeline,
            final(state).binder == old(state).binder,
            final(state).debug_scope_depth == old(state).debug_scope_depth,
            r matches Err(e) ==> e.spec_scope() == (PassErrorScope::Dispatch {
                indirect: false,
                pipeline: old(state).pipeline,
            }),
            spec_ready(old(state)) matches Err(e) ==> (r matches Err(pe) && pe.spec_inner()
                == ComputePassErrorInner::Dispatch(e)) && *final(cmd_buf) == *old(cmd_buf),
            r is Ok ==> spec_ready(old(state)) is Ok,
            ({
                let n = old(state).binder.expected@.len() as int;
                let limit = old(cmd_buf).limits.max_compute_workgroups_per_dimension;
                let gb = gathered(old(state).buffers@, self, old(state).binder@, n, false);
                let gt = gathered(old(state).textures@, self, old(state).binder@, n, true);
                spec_ready(old(state)) is Ok ==> {
                    &&& (gb is None || gt is None) ==> (r matches Err(e)
                        && e.spec_inner() is ResourceUsageConflict && gather_conflict(
                        old(state).buffers@,
                        old(state).textures@,
                        self,
                        old(state).binder@,
                        e.spec_inner()->ResourceUsageConflict_0,
                    ))
                    &&& (gb is None || gt is None) ==> *final(cmd_buf) == *old(cmd_buf)
                    &&& (gb is Some && gt is Some && (x > limit || y > limit || z > limit)) ==> (
                    r matches Err(e) && e.spec_inner() == ComputePassErrorInner::Dispatch(
                        DispatchError::InvalidGroupSize {
                            current: WorkgroupCounts { x, y, z },
                            limit,
                        },
                    ))
                    &&& (gb is Some && gt is Some && (x > limit || y > limit || z > limit))
                        ==> flush_commands(
                        old(cmd_buf).raw@,
                        final(cmd_buf).raw@,
                        old(cmd_buf).buffer_trackers@,
                        old(cmd_buf).texture_trackers@,
                        gb->Some_0,
                        gt->Some_0,
                    )
                    &&& r is Ok ==> {
                        &&& gb is Some && gt is Some
                        &&& x <= limit && y <= limit && z <= limit
                        &&& final(state).buffers@ == Map::<SubresourceKey, u32>::empty()
                        &&& final(state).textures@ == Map::<SubresourceKey, u32>::empty()
                        &&& final(cmd_buf).buffer_trackers@ == replaced_by(
                            old(cmd_buf).buffer_trackers@,
                            gb->Some_0,
                        )
                        &&& final(cmd_buf).texture_trackers@ == replaced_by(
                            old(cmd_buf).texture_trackers@,
                            gt->Some_0,
                        )
                        &&& final(cmd_buf).buffer_memory_init_actions == old(
                            cmd_buf,
                        ).buffer_memory_init_actions
                        &&& final(cmd_buf).raw@.len() > 0
                        &&& final(cmd_buf).raw@.last() == NativeCommand::Dispatch { x, y, z }
                        &&& flush_commands(
                            old(cmd_buf).raw@,
                            final(cmd_buf).raw@.drop_last(),
                            old(cmd_buf).buffer_trackers@,
                            old(cmd_buf).texture_trackers@,
                            gb->Some_0,
                            gt->Some_0,
                        )
                    }
                }
            }),
            ({
                let n = old(state).binder.expected@.len() as int;
                let limit = old(cmd_buf).limits.max_compute_workgroups_per_dimension;
                (spec_ready(old(state)) is Ok && gathered(
                    old(state).buffers@,
                    self,
                    old(state).binder@,
                    n,
                    false,
                ) is Some && gathered(old(state).textures@, self, old(state).binder@, n, true) is Some
                    && x <= limit && y <= limit && z <= limit) ==> r is Ok
            }),
    {
        let scope = PassErrorScope::Dispatch { indirect: false, pipeline: state.pipeline };
        assert(cmd_buf.raw@.subrange(0, cmd_buf.raw@.len() as int) =~= cmd_buf.raw@);
        match state.is_ready() {
            Err(e) => {
                return map_pass_err(Err(ComputePassErrorInner::Dispatch(e)), scope);
            },
            Ok(()) => {},
        }
        match state.flush_states(self, cmd_buf) {
            Err(e) => {
                return map_pass_err(Err(ComputePassErrorInner::ResourceUsageConflict(e)), scope);
            },
            Ok(()) => {},
        }
        let limit = cmd_buf.limits.max_compute_workgroups_per_dimension;
        if x > limit || y > limit || z > limit {
            return map_pass_err(
                Err(
                    ComputePassErrorInner::Dispatch(
                        DispatchError::InvalidGroupSize {
                            current: WorkgroupCounts { x, y, z },
                            limit,
                        },
                    ),
                ),
                scope,
            );
        }
        let ghost before = cmd_buf.raw@;
        cmd_buf.raw.push(NativeCommand::Dispatch { x, y, z });
        assert(cmd_buf.raw@.drop_last() =~= before);
        assert(cmd_buf.raw@.subrange(0, old(cmd_buf).raw@.len() as int) =~= before.subrange(
            0,
            old(cmd_buf).raw@.len() as int,
        ));
        Ok(())
    }

    /// Replays a dispatch whose group counts are read from bytes `offset..offset + 12` of
    /// buffer `buffer_id`: the state must be ready, the device must run indirect
    /// dispatches, the buffer must allow indirect use and hold the arguments, which are
    /// queued to be initialised where needed; then the gathered usages are flushed as
    /// barriers and the dispatch is emitted.
    pub fn run_dispatch_indirect(
        &self,
        state: &mut State,
        cmd_buf: &mut CommandBuffer,
        buffer_id: u64,
        offset: u64,
    ) -> (r: Result<(), ComputePassError>)
        requires
            self.wf(),
            old(state).wf(),
            old(cmd_buf).wf(),
        ensures
            final(state).wf(),
            final(cmd_buf).extends(old(cmd_buf)),
            final(state).pipeline == old(state).pipeline,
            final(state).debug_scope_depth == old(state).debug_scope_depth,
            r is Ok ==> spec_ready(old(state)) is Ok,
            r matches Err(e) ==> e.spec_scope() == (PassErrorScope::Dispatch {
                indirect: true,
                pipeline: old(state).pipeline,
            }),
            match dispatch_indirect_error(
                old(state).binder@,
                old(state).pipeline,
                old(state).buffers@,
                old(cmd_buf).supports_indirect_execution,
                self,
                buffer_id,
                offset,
            ) {
                Some(e) => (r matches Err(pe) && pe.spec_inner() == e) && *final(cmd_buf)
                    == *old(cmd_buf),
                None => {
                    let b = self.buffers.spec_get(buffer_id)->Some_0;
                    let m = extend_outcome(
                        old(state).buffers@,
                        SubresourceKey { resource: buffer_id, mip_level: 0, array_layer: 0 },
                        USE_INDIRECT,
                    )->Ok_0;
                    let n = old(state).binder.expected@.len() as int;
                    let gb = gathered(m, self, old(state).binder@, n, false);
                    let gt = gathered(old(state).textures@, self, old(state).binder@, n, true);
                    &&& r is Ok <==> (gb is Some && gt is Some)
                    &&& r is Ok ==> final(cmd_buf).buffer_memory_init_actions@ == old(
                        cmd_buf,
                    ).buffer_memory_init_actions@ + if b.initialization_status.needs_init(
                        offset as int,
                        offset + DISPATCH_INDIRECT_ARGS_SIZE,
                    ) {
                        seq![
                            MemoryInitAction {
                                id: buffer_id,
                                start: offset,
                                end: (offset + DISPATCH_INDIRECT_ARGS_SIZE) as u64,
                                kind: MemoryInitKind::NeedsInitializedMemory,
                            },
                        ]
                    } else {
                        Seq::empty()
                    }
                    &&& r is Ok ==> final(cmd_buf).buffer_trackers@ == replaced_by(
                        old(cmd_buf).buffer_trackers@,
                        gb->Some_0,
                    )
                    &&& r is Err ==> (r matches Err(e) && e.spec_inner() is ResourceUsageConflict
                        && gather_conflict(
                        m,
                        old(state).textures@,
                        self,
                        old(state).binder@,
                        e.spec_inner()->ResourceUsageConflict_0,
                    ))
                    &&& r is Err ==> final(cmd_buf).raw == old(cmd_buf).raw
                    &&& r is Ok ==> final(cmd_buf).texture_trackers@ == replaced_by(
                        old(cmd_buf).texture_trackers@,
                        gt->Some_0,
                    )
                    &&& r is Ok ==> final(state).buffers@ == Map::<SubresourceKey, u32>::empty()
                        && final(state).textures@ == Map::<SubresourceKey, u32>::empty()
                        && final(state).binder == old(state).binder
                    &&& r is Ok ==> final(cmd_buf).raw@.len() > 0 && final(cmd_buf).raw@.last()
                        == (NativeCommand::DispatchIndirect { buffer: buffer_id, offset })
                        && flush_commands(
                        old(cmd_buf).raw@,
                        final(cmd_buf).raw@.drop_last(),
                        old(cmd_buf).buffer_trackers@,
                        old(cmd_buf).texture_trackers@,
                        gb->Some_0,
                        gt->Some_0,
                    )
                },
            },
    {
        let scope = PassErrorScope::Dispatch { indirect: true, pipeline: state.pipeline };
        assert(cmd_buf.raw@.subrange(0, cmd_buf.raw@.len() as int) =~= cmd_buf.raw@);
        match state.is_ready() {
            Err(e) => {
                return map_pass_err(Err(ComputePassErrorInner::Dispatch(e)), scope);
            },
            Ok(()) => {},
        }
        if !cmd_buf.supports_indirect_execution {
            return map_pass_err(
                Err(
                    ComputePassErrorInner::MissingDownlevelFlags(
                        MissingDownlevelFlags(DOWNLEVEL_INDIRECT_EXECUTION),
                    ),
                ),
                scope,
            );
        }
        let indirect_buffer = match self.buffers.get(buffer_id) {
            Some(b) => b,
            None => {
                return map_pass_err(
                    Err(ComputePassErrorInner::InvalidIndirectBuffer(buffer_id)),
                    scope,
                );
            },
        };
        let key = SubresourceKey { resource: buffer_id, mip_level: 0, array_layer: 0 };
        match state.buffers.extend(key, USE_INDIRECT) {
            Err(e) => {
                return map_pass_err(Err(ComputePassErrorInner::ResourceUsageConflict(e)), scope);
            },
            Ok(()) => {},
        }
        if indirect_buffer.usage & BUFFER_USAGE_INDIRECT == 0 {
            return map_pass_err(
                Err(
                    ComputePassErrorInner::MissingBufferUsage(
                        MissingBufferUsageError {
                            actual: indirect_buffer.usage,
                            expected: BUFFER_USAGE_INDIRECT,
                        },
                    ),
                ),
                scope,
            );
        }
        let end_offset = if offset <= u64::MAX - DISPATCH_INDIRECT_ARGS_SIZE {
            offset + DISPATCH_INDIRECT_ARGS_SIZE
        } else {
            u64::MAX
        };
        if offset > u64::MAX - DISPATCH_INDIRECT_ARGS_SIZE || end_offset > indirect_buffer.size {
            return map_pass_err(
                Err(
                    ComputePassErrorInner::IndirectBufferOverrun {
                        offset,
                        end_offset,
                        buffer_size: indirect_buffer.size,
                    },
                ),
                scope,
            );
        }
        if indirect_buffer.destroyed {
            return map_pass_err(
                Err(ComputePassErrorInner::InvalidIndirectBuffer(buffer_id)),
                scope,
            );
        }
        match indirect_buffer.initialization_status.create_action(
            buffer_id,
            offset,
            end_offset,
            MemoryInitKind::NeedsInitializedMemory,
        ) {
            Some(action) => {
                cmd_buf.buffer_memory_init_actions.push(action);
            },
            None => {},
        }
        assert(cmd_buf.raw@.subrange(0, cmd_buf.raw@.len() as int) =~= cmd_buf.raw@);
        match state.flush_states(self, cmd_buf) {
            Err(e) => {
                return map_pass_err(Err(ComputePassErrorInner::ResourceUsageConflict(e)), scope);
            },
            Ok(()) => {},
        }
        let ghost before = cmd_buf.raw@;
        cmd_buf.raw.push(NativeCommand::DispatchIndirect { buffer: buffer_id, offset });
        assert(cmd_buf.raw@.drop_last() =~= before);
        assert(cmd_buf.raw@.subrange(0, old(cmd_buf).raw@.len() as int) =~= before.subrange(
            0,
            old(cmd_buf).raw@.len() as int,
        ));
        Ok(())
    }

    /// Replays a query command: writing a timestamp, or starting or ending a
    /// pipeline-statistics query, of which at most one runs at a time.
    pub fn run_query(
        &self,
        cmd_buf: &mut CommandBuffer,
        active_query: &mut Option<(u64, u32)>,
        cmd: ComputeCommand,
    ) -> (r: Result<(), ComputePassError>)
        requires
            old(cmd_buf).wf(),
            cmd is WriteTimestamp || cmd is BeginPipelineStatisticsQuery
                || cmd is EndPipelineStatisticsQuery,
        ensures
            final(cmd_buf).extends(old(cmd_buf)),
            r matches Err(e) ==> scope_fits(cmd, e.spec_scope()),
            final(cmd_buf).buffer_trackers == old(cmd_buf).buffer_trackers,
            final(cmd_buf).texture_trackers == old(cmd_buf).texture_trackers,
            final(cmd_buf).buffer_memory_init_actions == old(cmd_buf).buffer_memory_init_actions,
            final(cmd_buf).used_query_sets@ == match cmd {
                ComputeCommand::WriteTimestamp { query_set_id, .. } => if self.query_sets.spec_get(
                    query_set_id,
                ) is Some {
                    old(cmd_buf).used_query_sets@.push(query_set_id)
                } else {
                    old(cmd_buf).used_query_sets@
                },
                ComputeCommand::BeginPipelineStatisticsQuery { query_set_id, .. } => if self.query_sets.spec_get(
                    query_set_id,
                ) is Some {
                    old(cmd_buf).used_query_sets@.push(query_set_id)
                } else {
                    old(cmd_buf).used_query_sets@
                },
                _ => old(cmd_buf).used_query_sets@,
            },
            match query_error(self, *old(active_query), cmd) {
                Some(e) => (r matches Err(pe) && pe.spec_inner() == e) && final(cmd_buf).raw
                    == old(cmd_buf).raw && *final(active_query) == *old(active_query),
                None => r is Ok && match cmd {
                    ComputeCommand::WriteTimestamp { query_set_id, query_index } => (final(cmd_buf).raw@
                        == old(cmd_buf).raw@.push(
                        NativeCommand::WriteTimestamp { query_set: query_set_id, query_index },
                    ) && *final(active_query) == *old(active_query)),
                    ComputeCommand::BeginPipelineStatisticsQuery { query_set_id, query_index } => (final(cmd_buf).raw@
                        == old(cmd_buf).raw@.push(
                        NativeCommand::BeginPipelineStatisticsQuery {
                            query_set: query_set_id,
                            query_index,
                        },
                    ) && *final(active_query) == Some((query_set_id, query_index))),
                    _ => (final(cmd_buf).raw@ == old(cmd_buf).raw@.push(
                        NativeCommand::EndPipelineStatisticsQuery {
                            query_set: old(active_query)->Some_0.0,
                            query_index: old(active_query)->Some_0.1,
                        },
                    ) && *final(active_query) is None),
                },
            },
    {
        assert(cmd_buf.raw@.subrange(0, cmd_buf.raw@.len() as int) =~= cmd_buf.raw@);
        let (scope, query_set_id, query_index, query_type) = match cmd {
            ComputeCommand::WriteTimestamp { query_set_id, query_index } => (
                PassErrorScope::WriteTimestamp,
                query_set_id,
                query_index,
                QueryType::Timestamp,
            ),
            ComputeCommand::BeginPipelineStatisticsQuery { query_set_id, query_index } => (
                PassErrorScope::BeginPipelineStatisticsQuery,
                query_set_id,
                query_index,
                QueryType::PipelineStatistics,
            ),
            _ => {
                let scope = PassErrorScope::EndPipelineStatisticsQuery;
                match *active_query {
                    Some((set, index)) => {
                        *active_query = None;
                        cmd_buf.raw.push(
                            NativeCommand::EndPipelineStatisticsQuery {
                                query_set: set,
                                query_index: index,
                            },
                        );
                        assert(cmd_buf.raw@.subrange(0, old(cmd_buf).raw@.len() as int)
                            =~= old(cmd_buf).raw@);
                        return Ok(());
                    },
                    None => {
                        return map_pass_err(
                            Err(ComputePassErrorInner::QueryUse(QueryUseError::AlreadyStopped)),
                            scope,
                        );
                    },
                }
            },
        };
        let query_set = match self.query_sets.get(query_set_id) {
            Some(q) => *q,
            None => {
                return map_pass_err(Err(ComputePassErrorInner::InvalidQuerySet(query_set_id)), scope);
            },
        };
        cmd_buf.used_query_sets.push(query_set_id);
        if query_set.ty != query_type {
            return map_pass_err(
                Err(
                    ComputePassErrorInner::QueryUse(
                        QueryUseError::IncompatibleType { set_type: query_set.ty, query_type },
                    ),
                ),
                scope,
            );
        }
        if query_index >= query_set.count {
            return map_pass_err(
                Err(
                    ComputePassErrorInner::QueryUse(
                        QueryUseError::OutOfBounds { query_index, query_set_size: query_set.count },
                    ),
                ),
                scope,
            );
        }
        if query_type == QueryType::Timestamp {
            cmd_buf.raw.push(
                NativeCommand::WriteTimestamp { query_set: query_set_id, query_index },
            );
        } else {
            match *active_query {
                Some((_, old_index)) => {
                    return map_pass_err(
                        Err(
                            ComputePassErrorInner::QueryUse(
                                QueryUseError::AlreadyStarted {
                                    active_query_index: old_index,
                                    new_query_index: query_index,
                                },
                            ),
                        ),
                        scope,
                    );
                },
                None => {},
            }
            *active_query = Some((query_set_id, query_index));
            cmd_buf.raw.push(
                NativeCommand::BeginPipelineStatisticsQuery { query_set: query_set_id, query_index },
            );
        }
        assert(cmd_buf.raw@.subrange(0, old(cmd_buf).raw@.len() as int) =~= old(cmd_buf).raw@);
        Ok(())
    }

    /// Replays one recorded command, where `dc` dynamic offsets and `sc` label bytes of the
    /// side buffers were taken before it.
    #[verifier::rlimit(100)]
    fn replay_command(
        &self,
        state: &mut State,
        cmd_buf: &mut CommandBuffer,
        fixups: &mut Fixups,
        active_query: &mut Option<(u64, u32)>,
        base: &BasePass,
        command: ComputeCommand,
        dc: usize,
        sc: usize,
        offsets_total: usize,
        string_total: usize,
        words_total: usize,
    ) -> (r: Result<(), ComputePassError>)
        requires
            self.wf(),
            old(state).wf(),
            old(cmd_buf).wf(),
            offsets_total == base.dynamic_offsets@.len(),
            string_total == base.string_data@.len(),
            words_total == base.push_constant_data@.len(),
            old(state).debug_scope_depth < u32::MAX,
            match command {
                ComputeCommand::SetBindGroup { num_dynamic_offsets, .. } => dc + num_dynamic_offsets
                    <= offsets_total,
                ComputeCommand::PushDebugGroup { len, .. } => sc + len <= string_total,
                ComputeCommand::InsertDebugMarker { len, .. } => sc + len <= string_total,
                ComputeCommand::SetPushConstant { size_bytes, values_offset, .. } => values_offset
                    + (size_bytes / PUSH_CONSTANT_ALIGNMENT) as int <= words_total,
                _ => true,
            },
        ensures
            final(state).wf(),
            final(cmd_buf).extends(old(cmd_buf)),
            r matches Err(e) ==> scope_fits(command, e.spec_scope()),
            matches_outcome(
                self,
                step(
                    self,
                    base,
                    old(cmd_buf).limits,
                    old(cmd_buf).supports_indirect_execution,
                    model_of(old(state), old(cmd_buf), *old(active_query), old(fixups)),
                    command,
                    dc as int,
                ),
                model_of(final(state), final(cmd_buf), *final(active_query), final(fixups)),
                r,
            ),
            step_emits(
                self,
                base,
                old(cmd_buf).limits,
                old(cmd_buf).supports_indirect_execution,
                model_of(old(state), old(cmd_buf), *old(active_query), old(fixups)),
                command,
                dc as int,
                sc as int,
                final(cmd_buf).raw@.subrange(
                    old(cmd_buf).raw@.len() as int,
                    final(cmd_buf).raw@.len() as int,
                ),
            ),
    {
        let ghost m_before = model_of(state, cmd_buf, *active_query, fixups);
        let ghost raw_before = cmd_buf.raw@;
        assert(cmd_buf.raw@.subrange(0, cmd_buf.raw@.len() as int) =~= cmd_buf.raw@);
        match command {
        ComputeCommand::SetBindGroup { index, num_dynamic_offsets, bind_group_id } => {
            let offsets_end = dc + num_dynamic_offsets as usize;
            let res = self.run_set_bind_group(
                state,
                cmd_buf,
                base,
                dc,
                offsets_end,
                index,
                num_dynamic_offsets,
                bind_group_id,
            );
                        if res.is_ok() {
                match self.bind_groups.get(bind_group_id) {
                    Some(bg) => {
                        fixups.register(&bg.used_texture_ranges);
                    },
                    None => {},
                }
            }
            proof {
                assert(cmd_buf.raw@.subrange(0, raw_before.len() as int) =~= raw_before);
                if res is Err || !(cmd_buf.raw@.len() > raw_before.len()) {
                    assert(cmd_buf.raw@.subrange(
                        raw_before.len() as int,
                        cmd_buf.raw@.len() as int,
                    ) =~= Seq::<NativeCommand>::empty());
                }
                assert(step_emits(
                    self,
                    base,
                    old(cmd_buf).limits,
                    old(cmd_buf).supports_indirect_execution,
                    m_before,
                    command,
                    dc as int,
                    sc as int,
                    cmd_buf.raw@.subrange(raw_before.len() as int, cmd_buf.raw@.len() as int),
                ));
            }
            res
        },
        ComputeCommand::SetPipeline(pipeline_id) => {
            let res = self.run_set_pipeline(state, cmd_buf, pipeline_id);
            proof {
                let o = raw_before.len() as int;
                let e_step = cmd_buf.raw@.subrange(o, cmd_buf.raw@.len() as int);
                assert(cmd_buf.raw@.subrange(0, o) =~= raw_before);
                if cmd_buf.raw@ == raw_before {
                    assert(e_step =~= Seq::<NativeCommand>::empty());
                }
                if cmd_buf.raw@ == raw_before.push(NativeCommand::SetComputePipeline(pipeline_id)) {
                    assert(e_step =~= seq![NativeCommand::SetComputePipeline(pipeline_id)]);
                }
                if res is Ok && m_before.pipeline != Some(pipeline_id) {
                    let p = self.compute_pipelines.spec_get(pipeline_id)->Some_0;
                    let l = self.pipeline_layouts.spec_get(p.layout_id)->Some_0;
                    assert(e_step[0] == cmd_buf.raw@[o]);
                    if m_before.binder.layout != Some(p.layout_id) {
                        let nb = BinderView {
                            layout: Some(p.layout_id),
                            expected: l.bind_group_layout_ids@,
                            slots: m_before.binder.slots,
                        };
                        let kk = 1 + valid_slots(nb, nb.expected.len() as int).len() as int;
                        assert(e_step.subrange(1, kk) =~= cmd_buf.raw@.subrange(
                            o + 1,
                            o + kk,
                        ));
                        assert(e_step.subrange(kk, e_step.len() as int)
                            =~= cmd_buf.raw@.subrange(o + kk, cmd_buf.raw@.len() as int));
                    }
                }
                assert(step_emits(
                    self,
                    base,
                    old(cmd_buf).limits,
                    old(cmd_buf).supports_indirect_execution,
                    m_before,
                    command,
                    dc as int,
                    sc as int,
                    cmd_buf.raw@.subrange(raw_before.len() as int, cmd_buf.raw@.len() as int),
                ));
            }
            res
        },
        ComputeCommand::SetPushConstant { offset, size_bytes, values_offset } => {
            
            let values_end = values_offset as usize + (size_bytes / PUSH_CONSTANT_ALIGNMENT)
                as usize;
            let res = self.run_set_push_constant(
                state,
                cmd_buf,
                base,
                offset,
                size_bytes,
                values_offset,
                values_end,
            );
            proof {
                let o = raw_before.len() as int;
                let e_step = cmd_buf.raw@.subrange(o, cmd_buf.raw@.len() as int);
                assert(cmd_buf.raw@.subrange(0, o) =~= raw_before);
                if res is Ok {
                    assert(e_step[0] == cmd_buf.raw@.last());
                } else {
                    assert(e_step =~= Seq::<NativeCommand>::empty());
                }
                assert(step_emits(
                    self,
                    base,
                    old(cmd_buf).limits,
                    old(cmd_buf).supports_indirect_execution,
                    m_before,
                    command,
                    dc as int,
                    sc as int,
                    cmd_buf.raw@.subrange(raw_before.len() as int, cmd_buf.raw@.len() as int),
                ));
            }
            res
        },
        ComputeCommand::Dispatch(x, y, z) => {
            self.replay_dispatch(state, cmd_buf, fixups, *active_query, base, x, y, z)
        },
        ComputeCommand::DispatchIndirect { buffer_id, offset } => {
            let ghost st0 = *state;
            let ghost cb0 = *cmd_buf;
            let res = self.run_dispatch_indirect(state, cmd_buf, buffer_id, offset);
            proof {
                let o = raw_before.len() as int;
                let e_step = cmd_buf.raw@.subrange(o, cmd_buf.raw@.len() as int);
                assert(cmd_buf.raw@.subrange(0, o) =~= raw_before);
                if res is Ok {
                    assert(raw_before =~= raw_before + Seq::<NativeCommand>::empty());
                    let lb = extend_outcome(
                        st0.buffers@,
                        SubresourceKey { resource: buffer_id, mip_level: 0, array_layer: 0 },
                        USE_INDIRECT,
                    )->Ok_0;
                    let n = st0.binder.expected@.len() as int;
                    lemma_flush_shift(
                        raw_before,
                        Seq::<NativeCommand>::empty(),
                        cmd_buf.raw@.drop_last(),
                        cb0.buffer_trackers@,
                        cb0.texture_trackers@,
                        gathered(lb, self, st0.binder@, n, false)->Some_0,
                        gathered(st0.textures@, self, st0.binder@, n, true)->Some_0,
                    );
                    assert(e_step.drop_last() =~= cmd_buf.raw@.drop_last().subrange(
                        o,
                        cmd_buf.raw@.drop_last().len() as int,
                    ));
                    assert(e_step.last() == cmd_buf.raw@.last());
                } else {
                    assert(e_step =~= Seq::<NativeCommand>::empty());
                }
                assert(step_emits(
                    self,
                    base,
                    old(cmd_buf).limits,
                    old(cmd_buf).supports_indirect_execution,
                    m_before,
                    command,
                    dc as int,
                    sc as int,
                    cmd_buf.raw@.subrange(raw_before.len() as int, cmd_buf.raw@.len() as int),
                ));
            }
            res
        },
        ComputeCommand::PushDebugGroup { color: _, len } => {
            state.debug_scope_depth = state.debug_scope_depth + 1;
            let label = copy_range(&base.string_data, sc, sc + len);
                        cmd_buf.raw.push(NativeCommand::BeginDebugMarker(label));
            proof {
                assert(cmd_buf.raw@.subrange(0, raw_before.len() as int) =~= raw_before);
                assert(cmd_buf.raw@.subrange(raw_before.len() as int, cmd_buf.raw@.len() as int)
                    =~= seq![cmd_buf.raw@.last()]);
            }
            Ok(())
        },
        ComputeCommand::PopDebugGroup => {
            if state.debug_scope_depth == 0 {
                map_pass_err(
                    Err(ComputePassErrorInner::InvalidPopDebugGroup),
                    PassErrorScope::PopDebugGroup,
                )
            } else {
                state.debug_scope_depth = state.debug_scope_depth - 1;
                cmd_buf.raw.push(NativeCommand::EndDebugMarker);
                proof {
                    assert(cmd_buf.raw@.subrange(0, raw_before.len() as int) =~= raw_before);
                    assert(cmd_buf.raw@.subrange(raw_before.len() as int, cmd_buf.raw@.len() as int)
                        =~= seq![cmd_buf.raw@.last()]);
                }
                Ok(())
            }
        },
        ComputeCommand::InsertDebugMarker { color: _, len } => {
            let label = copy_range(&base.string_data, sc, sc + len);
                        cmd_buf.raw.push(NativeCommand::InsertDebugMarker(label));
            proof {
                assert(cmd_buf.raw@.subrange(0, raw_before.len() as int) =~= raw_before);
                assert(cmd_buf.raw@.subrange(raw_before.len() as int, cmd_buf.raw@.len() as int)
                    =~= seq![cmd_buf.raw@.last()]);
            }
            Ok(())
        },
        _ => {
            let res = self.run_query(cmd_buf, active_query, command);
            proof {
                let o = raw_before.len() as int;
                let e_step = cmd_buf.raw@.subrange(o, cmd_buf.raw@.len() as int);
                assert(cmd_buf.raw@.subrange(0, o) =~= raw_before);
                if res is Ok {
                    assert(e_step =~= seq![cmd_buf.raw@.last()]);
                } else {
                    assert(e_step =~= Seq::<NativeCommand>::empty());
                }
            }
            res
        },
        }
    }

    /// Replays a direct dispatch: the pending fix-up clears first, then `run_dispatch`.
    fn replay_dispatch(
        &self,
        state: &mut State,
        cmd_buf: &mut CommandBuffer,
        fixups: &mut Fixups,
        active_query: Option<(u64, u32)>,
        base: &BasePass,
        x: u32,
        y: u32,
        z: u32,
    ) -> (r: Result<(), ComputePassError>)
        requires
            self.wf(),
            old(state).wf(),
            old(cmd_buf).wf(),
        ensures
            final(state).wf(),
            final(cmd_buf).extends(old(cmd_buf)),
            r matches Err(e) ==> scope_fits(ComputeCommand::Dispatch(x, y, z), e.spec_scope()),
            matches_outcome(
                self,
                step(
                    self,
                    base,
                    old(cmd_buf).limits,
                    old(cmd_buf).supports_indirect_execution,
                    model_of(old(state), old(cmd_buf), active_query, old(fixups)),
                    ComputeCommand::Dispatch(x, y, z),
                    0,
                ),
                model_of(final(state), final(cmd_buf), active_query, final(fixups)),
                r,
            ),
            step_emits(
                self,
                base,
                old(cmd_buf).limits,
                old(cmd_buf).supports_indirect_execution,
                model_of(old(state), old(cmd_buf), active_query, old(fixups)),
                ComputeCommand::Dispatch(x, y, z),
                0,
                0,
                final(cmd_buf).raw@.subrange(
                    old(cmd_buf).raw@.len() as int,
                    final(cmd_buf).raw@.len() as int,
                ),
            ),
    {
        let ghost m_before = model_of(state, cmd_buf, active_query, fixups);
        let ghost raw_before = cmd_buf.raw@;
        fixup_discarded_surfaces(fixups, &mut cmd_buf.raw);
        proof {
            assert(cmd_buf.raw@.subrange(0, raw_before.len() as int) =~= raw_before);
            assert(fixups.pending@ =~= Seq::<TextureSurface>::empty());
            assert(model_of(state, cmd_buf, active_query, fixups) == fixed_up(m_before));
        }
        let ghost raw_f = cmd_buf.raw@;
        let ghost cb_f = *cmd_buf;
        let ghost st_f = *state;
        let res = self.run_dispatch(state, cmd_buf, x, y, z);
        proof {
            let o = raw_before.len() as int;
            let pre = fixup_commands(m_before.pending);
            let e_step = cmd_buf.raw@.subrange(o, cmd_buf.raw@.len() as int);
            assert(raw_f =~= raw_before + pre);
            assert(cmd_buf.raw@.subrange(0, raw_f.len() as int) == raw_f);
            assert(cmd_buf.raw@.subrange(0, o) =~= raw_before);
            let n = st_f.binder.expected@.len() as int;
            let gb = gathered(st_f.buffers@, self, st_f.binder@, n, false);
            let gt = gathered(st_f.textures@, self, st_f.binder@, n, true);
            if res is Ok {
                lemma_flush_shift(
                    raw_before,
                    pre,
                    cmd_buf.raw@.drop_last(),
                    cb_f.buffer_trackers@,
                    cb_f.texture_trackers@,
                    gb->Some_0,
                    gt->Some_0,
                );
                assert(e_step.drop_last() =~= cmd_buf.raw@.drop_last().subrange(
                    o,
                    cmd_buf.raw@.drop_last().len() as int,
                ));
                assert(e_step.last() == cmd_buf.raw@.last());
            } else if spec_ready(&st_f) is Ok && gb is Some && gt is Some {
                lemma_flush_shift(
                    raw_before,
                    pre,
                    cmd_buf.raw@,
                    cb_f.buffer_trackers@,
                    cb_f.texture_trackers@,
                    gb->Some_0,
                    gt->Some_0,
                );
            } else {
                assert(e_step =~= pre);
            }
        }
        res
    }

    /// Replays the recorded pass `pass` onto `cmd_buf`.
    pub fn command_encoder_run_compute_pass(
        &self,
        cmd_buf: &mut CommandBuffer,
        pass: &ComputePass,
    ) -> (r: Result<(), ComputePassError>)
        requires
            self.wf(),
            old(cmd_buf).wf(),
            pass.wf(),
            pass.commands().len() < u32::MAX,
        ensures
            run_outcome(self, &pass.spec_base(), old(cmd_buf), final(cmd_buf), pass.commands(), r),
    {
        self.command_encoder_run_compute_pass_impl(cmd_buf, &pass.base)
    }

    /// Replays the recorded commands of `base` onto `cmd_buf`, in order, validating each.
    /// The command buffer is marked as failed before the first command and as recording
    /// again only after the last one replayed without error; the first error stops the
    /// replay.
    #[verifier::rlimit(100)]
    #[verifier::spinoff_prover]
    pub fn command_encoder_run_compute_pass_impl(
        &self,
        cmd_buf: &mut CommandBuffer,
        base: &BasePass,
    ) -> (r: Result<(), ComputePassError>)
        requires
            self.wf(),
            old(cmd_buf).wf(),
            base.wf(),
            base.commands@.len() < u32::MAX,
        ensures
            run_outcome(self, base, old(cmd_buf), final(cmd_buf), base.commands@, r),
    {
        let scope = PassErrorScope::Pass(cmd_buf.id);
        if cmd_buf.status != CommandEncoderStatus::Recording {
            let e = if cmd_buf.status == CommandEncoderStatus::Error {
                CommandEncoderError::Invalid
            } else {
                CommandEncoderError::NotRecording
            };
            return map_pass_err(Err(ComputePassErrorInner::Encoder(e)), scope);
        }
        cmd_buf.status = CommandEncoderStatus::Error;
        let mut fixups = Fixups { discarded: Vec::new(), pending: Vec::new(), actions: Vec::new() };
        std::mem::swap(&mut fixups.discarded, &mut cmd_buf.discarded_surfaces);
        std::mem::swap(&mut fixups.actions, &mut cmd_buf.texture_memory_init_actions);
        let ghost raw0 = cmd_buf.raw@;
        cmd_buf.raw.push(NativeCommand::BeginComputePass);
        let ghost start = *cmd_buf;
        assert(cmd_buf.raw@.subrange(0, cmd_buf.raw@.len() as int) =~= cmd_buf.raw@);
        let mut state = State::new();
        let mut active_query: Option<(u64, u32)> = None;
        let mut dynamic_offset_count: usize = 0;
        let mut string_offset: usize = 0;
        let ghost cmds = base.commands@;
        let n = base.commands.len();
        // The side buffers' lengths bound the cursors into them, which keeps the cursor
        // sums below in range.
        let offsets_total = base.dynamic_offsets.len();
        let string_total = base.string_data.len();
        let words_total = base.push_constant_data.len();
        let mut i: usize = 0;
        proof {
            assert(cmds.take(0) =~= Seq::<ComputeCommand>::empty());
            assert(state.binder@.slots =~= initial_model(old(cmd_buf)).binder.slots);
            assert(state.binder@.expected =~= Seq::<u64>::empty());
            assert(state.buffers@ =~= Map::<SubresourceKey, u32>::empty());
            assert(model_of(&state, cmd_buf, active_query, &fixups) == initial_model(old(cmd_buf)));
        }
        while i < n
            invariant
                n == cmds.len(),
                cmds == base.commands@,
                offsets_total == base.dynamic_offsets@.len(),
                string_total == base.string_data@.len(),
                words_total == base.push_constant_data@.len(),
                base.wf(),
                self.wf(),
                n < u32::MAX,
                i <= n,
                state.wf(),
                cmd_buf.extends(&start),
                start.status == CommandEncoderStatus::Error,
                old(cmd_buf).status == CommandEncoderStatus::Recording,
                start.raw@ == raw0.push(NativeCommand::BeginComputePass),
                raw0 == old(cmd_buf).raw@,
                start.id == old(cmd_buf).id,
                start.support_clear_buffer_texture == old(cmd_buf).support_clear_buffer_texture,
                start.supports_indirect_execution == old(cmd_buf).supports_indirect_execution,
                start.limits == old(cmd_buf).limits,
                start.buffer_copy_pitch == old(cmd_buf).buffer_copy_pitch,
                dynamic_offset_count == dynamic_offsets_used(cmds.take(i as int)),
                string_offset == string_bytes_used(cmds.take(i as int)),
                state.debug_scope_depth <= i,
                debug_only(cmds.take(i as int)) ==> debug_depth(cmds.take(i as int)) == Some(
                    state.debug_scope_depth as nat,
                ),
                state.pipeline is Some ==> exists|j: int| 0 <= j < i && cmds[j] is SetPipeline,
                dispatches_follow_pipeline(cmds.take(i as int)),
                debug_only(cmds.take(i as int)) ==> fixups.pending@.len() == 0,
                replay_emits(
                    self,
                    base,
                    old(cmd_buf).limits,
                    old(cmd_buf).supports_indirect_execution,
                    initial_model(old(cmd_buf)),
                    cmds,
                    i as int,
                    cmd_buf.raw@.subrange(start.raw@.len() as int, cmd_buf.raw@.len() as int),
                ),
                replay(
                    self,
                    base,
                    old(cmd_buf).limits,
                    old(cmd_buf).supports_indirect_execution,
                    initial_model(old(cmd_buf)),
                    cmds,
                    i as int,
                ) == Ok::<ReplayModel, StepError>(model_of(&state, cmd_buf, active_query, &fixups)),
            decreases n - i,
        {
            let command = base.commands[i];
            proof {
                lemma_prefix_step(cmds, i as int);
                lemma_prefix_bounded(cmds, i + 1);
                assert(base.push_constant_data@.len() >= 0);
            }
            let ghost before_state_pipeline = state.pipeline;
            let ghost m_before = model_of(&state, cmd_buf, active_query, &fixups);
            let ghost raw_before = cmd_buf.raw@;
            let ghost sc_before = string_offset;
            let ghost dc_before = dynamic_offset_count;
            let outcome = self.replay_command(
                &mut state,
                cmd_buf,
                &mut fixups,
                &mut active_query,
                base,
                command,
                dynamic_offset_count,
                string_offset,
                offsets_total,
                string_total,
                words_total,
            );
            match command {
                ComputeCommand::SetBindGroup { num_dynamic_offsets, .. } => {
                    dynamic_offset_count = dynamic_offset_count + num_dynamic_offsets as usize;
                },
                ComputeCommand::PushDebugGroup { len, .. } => {
                    string_offset = string_offset + len;
                },
                ComputeCommand::InsertDebugMarker { len, .. } => {
                    string_offset = string_offset + len;
                },
                _ => {},
            }
            proof {
                assert(cmds[i as int] == command);
                assert(matches_outcome(
                    self,
                    step(
                        self,
                        base,
                        old(cmd_buf).limits,
                        old(cmd_buf).supports_indirect_execution,
                        m_before,
                        command,
                        dynamic_offsets_used(cmds.take(i as int)) as int,
                    ),
                    model_of(&state, cmd_buf, active_query, &fixups),
                    outcome,
                ));
            }
            assert(cmd_buf.raw@.subrange(0, start.raw@.len() as int) == start.raw@) by {
                assert(cmd_buf.raw@.subrange(0, start.raw@.len() as int) =~= start.raw@);
            }
            proof {
                let sl = start.raw@.len() as int;
                assert(raw_before.subrange(0, sl) == start.raw@);
                assert(raw_before.len() <= cmd_buf.raw@.len());
                let e_old = raw_before.subrange(sl, raw_before.len() as int);
                let e_new = cmd_buf.raw@.subrange(sl, cmd_buf.raw@.len() as int);
                let e_step = cmd_buf.raw@.subrange(raw_before.len() as int, cmd_buf.raw@.len() as int);
                lemma_emits_step(
                    self,
                    base,
                    old(cmd_buf).limits,
                    old(cmd_buf).supports_indirect_execution,
                    initial_model(old(cmd_buf)),
                    cmds,
                    i as int,
                    m_before,
                    e_old,
                    e_step,
                );
                assert(e_new =~= e_old + e_step);
            }
            match outcome {
                Err(e) => {
                    proof {
                        assert(cmds.take(i as int) =~= cmds.take(i + 1 - 1));
                        lemma_replay_sticks(
                            self,
                            base,
                            old(cmd_buf).limits,
                            old(cmd_buf).supports_indirect_execution,
                            initial_model(old(cmd_buf)),
                            cmds,
                            i + 1,
                            n as int,
                        );
                        assert(cmds[i as int] == command);
                        assert(scope_fits(cmds[i as int], e.spec_scope()));
                        assert(cmd_buf.raw@.subrange(0, raw0.len() as int) =~= start.raw@.subrange(
                            0,
                            raw0.len() as int,
                        ));
                        assert(start.raw@.subrange(0, raw0.len() as int) =~= raw0);
                        assert(cmd_buf.raw@[raw0.len() as int] == start.raw@[raw0.len() as int]);
                        if debug_only(cmds) {
                            assert(debug_only(cmds.take(i as int))) by {
                                assert forall|q: int| 0 <= q < i implies #[trigger] cmds.take(
                                    i as int,
                                )[q] is PushDebugGroup || cmds.take(i as int)[q] is PopDebugGroup
                                    || cmds.take(i as int)[q] is InsertDebugMarker by {
                                    assert(cmds.take(i as int)[q] == cmds[q]);
                                }
                            }
                            assert(cmds[i as int] == command);
                            assert(command is PopDebugGroup);
                            assert(debug_depth(cmds.take(i + 1)) is None);
                            lemma_debug_failure_sticks(cmds, i + 1);
                        }
                    }
                    std::mem::swap(&mut fixups.discarded, &mut cmd_buf.discarded_surfaces);
                    std::mem::swap(&mut fixups.actions, &mut cmd_buf.texture_memory_init_actions);
                    return Err(e);
                },
                Ok(()) => {},
            }
            proof {
                let t1 = cmds.take(i + 1);
                if debug_only(t1) {
                    assert(debug_only(cmds.take(i as int))) by {
                        assert forall|q: int| 0 <= q < i implies #[trigger] cmds.take(i as int)[q]
                            is PushDebugGroup || cmds.take(i as int)[q] is PopDebugGroup
                            || cmds.take(i as int)[q] is InsertDebugMarker by {
                            assert(cmds.take(i as int)[q] == t1[q]);
                        }
                    }
                    assert(t1[i as int] == cmds[i as int]);
                }
                if state.pipeline is Some {
                    if command is SetPipeline {
                        assert(cmds[i as int] is SetPipeline);
                    } else {
                        assert(before_state_pipeline is Some);
                        let j = choose|j: int| 0 <= j < i && cmds[j] is SetPipeline;
                        assert(0 <= j < i + 1 && cmds[j] is SetPipeline);
                    }
                }
                assert forall|k: int|
                    0 <= k < t1.len() && (#[trigger] t1[k] is Dispatch || t1[k] is DispatchIndirect)
                        implies exists|j: int| 0 <= j < k && t1[j] is SetPipeline by {
                    if k < i {
                        assert(cmds.take(i as int)[k] == t1[k]);
                        assert(cmds.take(i as int)[k] is Dispatch || cmds.take(i as int)[k] is DispatchIndirect);
                        let j = choose|j: int| 0 <= j < k && cmds.take(i as int)[j] is SetPipeline;
                        assert(t1[j] == cmds.take(i as int)[j]);
                    } else {
                        assert(t1[k] == cmds[i as int]);
                        assert(before_state_pipeline is Some);
                        let j = choose|j: int| 0 <= j < i && cmds[j] is SetPipeline;
                        assert(t1[j] == cmds[j]);
                    }
                }
            }
            i = i + 1;
        }
        let ghost before_fix = cmd_buf.raw@;
        let ghost pending_at_end = fixups.pending@;
        fixup_discarded_surfaces(&mut fixups, &mut cmd_buf.raw);
        let ghost before_end = cmd_buf.raw@;
        cmd_buf.raw.push(NativeCommand::EndComputePass);
        cmd_buf.status = CommandEncoderStatus::Recording;
        std::mem::swap(&mut fixups.discarded, &mut cmd_buf.discarded_surfaces);
        std::mem::swap(&mut fixups.actions, &mut cmd_buf.texture_memory_init_actions);
        proof {
            let b0 = raw0.len() as int;
            let len = cmd_buf.raw@.len() as int;
            let np = pending_at_end.len() as int;
            assert(before_end =~= before_fix + fixup_commands(pending_at_end));
            assert(cmd_buf.raw@ =~= before_fix + fixup_commands(pending_at_end) + seq![
                NativeCommand::EndComputePass,
            ]);
            assert(before_fix.subrange(0, start.raw@.len() as int) == start.raw@);
            assert(start.raw@.subrange(0, b0) =~= raw0);
            assert(cmd_buf.raw@.subrange(0, b0) =~= raw0);
            assert(cmd_buf.raw@[b0] == start.raw@[b0]);
            assert(cmd_buf.raw@.subrange(b0 + 1, len - np - 1) =~= before_fix.subrange(
                start.raw@.len() as int,
                before_fix.len() as int,
            ));
            assert(cmd_buf.raw@.subrange(len - np - 1, len - 1) =~= fixup_commands(pending_at_end));
            assert(cmds.take(n as int) =~= cmds);
        }
        Ok(())
    }
}

/// A flush after `a + p` is a flush after `p` once `a` is set aside.
proof fn lemma_flush_shift(
    a: Seq<NativeCommand>,
    p: Seq<NativeCommand>,
    after: Seq<NativeCommand>,
    mb: Map<SubresourceKey, u32>,
    mt: Map<SubresourceKey, u32>,
    gb: Map<SubresourceKey, u32>,
    gt: Map<SubresourceKey, u32>,
)
    requires
        flush_commands(a + p, after, mb, mt, gb, gt),
    ensures
        a.len() <= after.len(),
        after.subrange(0, a.len() as int) == a,
        flush_commands(p, after.subrange(a.len() as int, after.len() as int), mb, mt, gb, gt),
{
    let (tb, tt) = choose|
        tb: Seq<crate::track::PendingTransition>,
        tt: Seq<crate::track::PendingTransition>,
    |
        #![trigger exact_transitions(mb, gb, tb), exact_transitions(mt, gt, tt)]
        exact_transitions(mb, gb, tb) && exact_transitions(mt, gt, tt) && after == (a + p)
            + barrier_commands(tb, false) + barrier_commands(tt, true);
    assert(after.subrange(0, a.len() as int) =~= a);
    assert(after.subrange(a.len() as int, after.len() as int) =~= p + barrier_commands(tb, false)
        + barrier_commands(tt, true));
}

/// What the first `i` commands emit, followed by what the next one emits, is what the
/// first `i + 1` emit.
proof fn lemma_emits_step(
    g: &Global,
    base: &BasePass,
    limits: Limits,
    indirect_ok: bool,
    m0: ReplayModel,
    cmds: Seq<ComputeCommand>,
    i: int,
    m: ReplayModel,
    e_old: Seq<NativeCommand>,
    e_step: Seq<NativeCommand>,
)
    requires
        0 <= i < cmds.len(),
        replay(g, base, limits, indirect_ok, m0, cmds, i) == Ok::<ReplayModel, StepError>(m),
        replay_emits(g, base, limits, indirect_ok, m0, cmds, i, e_old),
        step_emits(
            g,
            base,
            limits,
            indirect_ok,
            m,
            cmds[i],
            dynamic_offsets_used(cmds.take(i)) as int,
            string_bytes_used(cmds.take(i)) as int,
            e_step,
        ),
    ensures
        replay_emits(g, base, limits, indirect_ok, m0, cmds, i + 1, e_old + e_step),
{
    let e = e_old + e_step;
    assert(cmds.take(i + 1 - 1) =~= cmds.take(i));
    assert(e.subrange(0, e_old.len() as int) =~= e_old);
    assert(e.subrange(e_old.len() as int, e.len() as int) =~= e_step);
}

/// Once a command fails, the replay of any longer prefix fails the same way.
proof fn lemma_replay_sticks(
    g: &Global,
    base: &BasePass,
    limits: Limits,
    indirect_ok: bool,
    m0: ReplayModel,
    cmds: Seq<ComputeCommand>,
    k: int,
    n: int,
)
    requires
        0 <= k <= n,
        replay(g, base, limits, indirect_ok, m0, cmds, k) is Err,
    ensures
        replay(g, base, limits, indirect_ok, m0, cmds, n) == replay(
            g,
            base,
            limits,
            indirect_ok,
            m0,
            cmds,
            k,
        ),
    decreases n - k,
{
    if k < n {
        lemma_replay_sticks(g, base, limits, indirect_ok, m0, cmds, k, n - 1);
    }
}

/// A failed pop of a debug group: in a pass of debug commands only, no later command
/// undoes it.
proof fn lemma_debug_failure_sticks(cmds: Seq<ComputeCommand>, i: int)
    requires
        0 <= i <= cmds.len(),
        debug_depth(cmds.take(i)) is None,
    ensures
        debug_depth(cmds) is None,
    decreases cmds.len() - i,
{
    if i < cmds.len() {
        lemma_prefix_step(cmds, i);
        lemma_debug_failure_sticks(cmds, i + 1);
    } else {
        assert(cmds.take(i) =~= cmds);
    }
}

/// What a replay keeps between commands, as values: the binder, the pipeline, the usages
/// gathered in the pass, the command buffer's trackers and initialisation actions, the
/// debug group depth and the running statistics query.
pub struct ReplayModel {
    pub binder: BinderView,
    pub pipeline: Option<u64>,
    pub local_buffers: Map<SubresourceKey, u32>,
    pub local_textures: Map<SubresourceKey, u32>,
    pub buffers: Map<SubresourceKey, u32>,
    pub textures: Map<SubresourceKey, u32>,
    pub actions: Seq<MemoryInitAction>,
    pub depth: nat,
    pub active: Option<(u64, u32)>,
    pub discarded: Seq<TextureSurface>,
    pub pending: Seq<TextureSurface>,
    pub texture_actions: Seq<crate::init_tracker::TextureInitAction>,
}

/// How a replayed command fails: with exactly this scope and error, or with a usage
/// conflict in this scope, met while gathering the bind groups of binder `b` into the
/// usages `mb` and `mt`.
pub enum StepError {
    Exact(PassErrorScope, ComputePassErrorInner),
    Conflict(PassErrorScope, Map<SubresourceKey, u32>, Map<SubresourceKey, u32>, BinderView),
}

/// The model of a replay state.
pub open spec fn model_of(
    st: &State,
    cb: &CommandBuffer,
    active: Option<(u64, u32)>,
    fx: &Fixups,
) -> ReplayModel {
    ReplayModel {
        binder: st.binder@,
        pipeline: st.pipeline,
        local_buffers: st.buffers@,
        local_textures: st.textures@,
        buffers: cb.buffer_trackers@,
        textures: cb.texture_trackers@,
        actions: cb.buffer_memory_init_actions@,
        depth: st.debug_scope_depth as nat,
        active,
        discarded: fx.discarded@,
        pending: fx.pending@,
        texture_actions: fx.actions@,
    }
}

/// The model when a replay on `cb` starts.
pub open spec fn initial_model(cb: &CommandBuffer) -> ReplayModel {
    ReplayModel {
        binder: BinderView {
            layout: None,
            expected: Seq::empty(),
            slots: Seq::new(MAX_BIND_GROUPS as nat, |i: int| None::<SlotView>),
        },
        pipeline: None,
        local_buffers: Map::empty(),
        local_textures: Map::empty(),
        buffers: cb.buffer_trackers@,
        textures: cb.texture_trackers@,
        actions: cb.buffer_memory_init_actions@,
        depth: 0,
        active: None,
        discarded: cb.discarded_surfaces@,
        pending: Seq::empty(),
        texture_actions: cb.texture_memory_init_actions@,
    }
}

/// `m` after the fix-up clears of its pending surfaces.
pub open spec fn fixed_up(m: ReplayModel) -> ReplayModel {
    ReplayModel {
        pending: Seq::empty(),
        texture_actions: m.texture_actions + fixup_actions(m.pending),
        ..m
    }
}

/// The native commands of the fix-up clears of `pending`.
pub open spec fn fixup_commands(pending: Seq<TextureSurface>) -> Seq<NativeCommand> {
    pending.map_values(|s: TextureSurface| NativeCommand::ZeroSurface(s))
}

/// Emits the fix-up clears of the pending surfaces and records them as initialised.
fn fixup_discarded_surfaces(fx: &mut Fixups, raw: &mut Vec<NativeCommand>)
    ensures
        final(fx).discarded == old(fx).discarded,
        final(fx).pending@.len() == 0,
        final(fx).actions@ == old(fx).actions@ + fixup_actions(old(fx).pending@),
        final(raw)@ == old(raw)@ + fixup_commands(old(fx).pending@),
{
    let ghost p = fx.pending@;
    let ghost a0 = fx.actions@;
    let ghost r0 = raw@;
    let mut i: usize = 0;
    while i < fx.pending.len()
        invariant
            fx.pending@ == p,
            fx.discarded == old(fx).discarded,
            i <= p.len(),
            fx.actions@ == a0 + fixup_actions(p.take(i as int)),
            raw@ == r0 + fixup_commands(p.take(i as int)),
            a0 == old(fx).actions@,
            r0 == old(raw)@,
        decreases p.len() - i,
    {
        let sf = fx.pending[i];
        fx.actions.push(
            crate::init_tracker::TextureInitAction {
                texture: sf.texture,
                mip_level: sf.mip_level,
                array_layer: sf.array_layer,
                kind: MemoryInitKind::ImplicitlyInitialized,
            },
        );
        raw.push(NativeCommand::ZeroSurface(sf));
        proof {
            assert(p.take(i + 1) == p.take(i as int).push(sf));
            assert(fixup_actions(p.take(i + 1)) =~= fixup_actions(p.take(i as int)).push(
                fx.actions@.last(),
            ));
            assert(fixup_commands(p.take(i + 1)) =~= fixup_commands(p.take(i as int)).push(
                raw@.last(),
            ));
        }
        i = i + 1;
    }
    proof {
        assert(p.take(p.len() as int) == p);
    }
    fx.pending = Vec::new();
}

/// `m` after the gathered usages `gb` and `gt` are flushed into the command buffer's
/// trackers.
pub open spec fn flushed(
    m: ReplayModel,
    gb: Map<SubresourceKey, u32>,
    gt: Map<SubresourceKey, u32>,
) -> ReplayModel {
    ReplayModel {
        local_buffers: Map::empty(),
        local_textures: Map::empty(),
        buffers: replaced_by(m.buffers, gb),
        textures: replaced_by(m.textures, gt),
        ..m
    }
}

/// The outcome of replaying `cmd` on `m`, where `dc` dynamic offsets and `sc` label bytes
/// of the side buffers were taken before it.
pub open spec fn step(
    g: &Global,
    base: &BasePass,
    limits: Limits,
    indirect_ok: bool,
    m: ReplayModel,
    cmd: ComputeCommand,
    dc: int,
) -> Result<ReplayModel, StepError> {
    match cmd {
        ComputeCommand::SetBindGroup { index, num_dynamic_offsets, bind_group_id } => {
            let offsets = base.dynamic_offsets@.subrange(dc, dc + num_dynamic_offsets);
            match set_bind_group_error(limits, g, index, bind_group_id, offsets) {
                Some(e) => Err(StepError::Exact(PassErrorScope::SetBindGroup(bind_group_id), e)),
                None => {
                    let bg = g.bind_groups.spec_get(bind_group_id)->Some_0;
                    Ok(
                        ReplayModel {
                            binder: BinderView {
                                slots: m.binder.slots.update(
                                    index as int,
                                    Some(
                                        SlotView {
                                            group_id: bind_group_id,
                                            layout_id: bg.layout_id,
                                            offsets,
                                        },
                                    ),
                                ),
                                ..m.binder
                            },
                            actions: m.actions + needed_actions(g, bg.used_buffer_ranges@),
                            discarded: registered(
                                m.discarded,
                                m.pending,
                                m.texture_actions,
                                bg.used_texture_ranges@,
                            ).0,
                            pending: registered(
                                m.discarded,
                                m.pending,
                                m.texture_actions,
                                bg.used_texture_ranges@,
                            ).1,
                            texture_actions: registered(
                                m.discarded,
                                m.pending,
                                m.texture_actions,
                                bg.used_texture_ranges@,
                            ).2,
                            ..m
                        },
                    )
                },
            }
        },
        ComputeCommand::SetPipeline(id) => {
            let scope = PassErrorScope::SetPipelineCompute(id);
            if m.pipeline == Some(id) {
                Ok(m)
            } else {
                match g.compute_pipelines.spec_get(id) {
                    None => Err(StepError::Exact(scope, ComputePassErrorInner::InvalidPipeline(id))),
                    Some(p) => match g.pipeline_layouts.spec_get(p.layout_id) {
                        None => Err(
                            StepError::Exact(scope, ComputePassErrorInner::InvalidPipeline(id)),
                        ),
                        Some(l) => Ok(
                            ReplayModel {
                                pipeline: Some(id),
                                binder: if m.binder.layout == Some(p.layout_id) {
                                    m.binder
                                } else {
                                    BinderView {
                                        layout: Some(p.layout_id),
                                        expected: l.bind_group_layout_ids@,
                                        slots: m.binder.slots,
                                    }
                                },
                                ..m
                            },
                        ),
                    },
                }
            }
        },
        ComputeCommand::SetPushConstant { offset, size_bytes, .. } => {
            let scope = PassErrorScope::SetPushConstant;
            let missing = ComputePassErrorInner::Dispatch(DispatchError::MissingPipeline);
            match m.binder.layout {
                None => Err(StepError::Exact(scope, missing)),
                Some(id) => match g.pipeline_layouts.spec_get(id) {
                    None => Err(StepError::Exact(scope, missing)),
                    Some(l) => if push_range_declared(
                        l.push_constant_ranges@,
                        offset as int,
                        offset + size_bytes,
                    ) {
                        Ok(m)
                    } else {
                        Err(
                            StepError::Exact(
                                scope,
                                ComputePassErrorInner::PushConstants(
                                    PushConstantUploadError::Unmatched {
                                        offset,
                                        end_offset: (offset + size_bytes) as u64,
                                    },
                                ),
                            ),
                        )
                    },
                },
            }
        },
        ComputeCommand::Dispatch(x, y, z) => {
            let m = fixed_up(m);
            let scope = PassErrorScope::Dispatch { indirect: false, pipeline: m.pipeline };
            match ready_of(m.binder, m.pipeline) {
                Err(e) => Err(StepError::Exact(scope, ComputePassErrorInner::Dispatch(e))),
                Ok(_) => {
                    let n = m.binder.expected.len() as int;
                    let gb = gathered(m.local_buffers, g, m.binder, n, false);
                    let gt = gathered(m.local_textures, g, m.binder, n, true);
                    let limit = limits.max_compute_workgroups_per_dimension;
                    if gb is None || gt is None {
                        Err(StepError::Conflict(scope, m.local_buffers, m.local_textures, m.binder))
                    } else if x > limit || y > limit || z > limit {
                        Err(
                            StepError::Exact(
                                scope,
                                ComputePassErrorInner::Dispatch(
                                    DispatchError::InvalidGroupSize {
                                        current: WorkgroupCounts { x, y, z },
                                        limit,
                                    },
                                ),
                            ),
                        )
                    } else {
                        Ok(flushed(m, gb->Some_0, gt->Some_0))
                    }
                },
            }
        },
        ComputeCommand::DispatchIndirect { buffer_id, offset } => {
            let scope = PassErrorScope::Dispatch { indirect: true, pipeline: m.pipeline };
            match dispatch_indirect_error(
                m.binder,
                m.pipeline,
                m.local_buffers,
                indirect_ok,
                g,
                buffer_id,
                offset,
            ) {
                Some(e) => Err(StepError::Exact(scope, e)),
                None => {
                    let b = g.buffers.spec_get(buffer_id)->Some_0;
                    let lb = extend_outcome(
                        m.local_buffers,
                        SubresourceKey { resource: buffer_id, mip_level: 0, array_layer: 0 },
                        USE_INDIRECT,
                    )->Ok_0;
                    let n = m.binder.expected.len() as int;
                    let gb = gathered(lb, g, m.binder, n, false);
                    let gt = gathered(m.local_textures, g, m.binder, n, true);
                    if gb is None || gt is None {
                        Err(StepError::Conflict(scope, lb, m.local_textures, m.binder))
                    } else {
                        let f = flushed(m, gb->Some_0, gt->Some_0);
                        Ok(
                            ReplayModel {
                                actions: m.actions + if b.initialization_status.needs_init(
                                    offset as int,
                                    offset + DISPATCH_INDIRECT_ARGS_SIZE,
                                ) {
                                    seq![
                                        MemoryInitAction {
                                            id: buffer_id,
                                            start: offset,
                                            end: (offset + DISPATCH_INDIRECT_ARGS_SIZE) as u64,
                                            kind: MemoryInitKind::NeedsInitializedMemory,
                                        },
                                    ]
                                } else {
                                    Seq::empty()
                                },
                                ..f
                            },
                        )
                    }
                },
            }
        },
        ComputeCommand::PushDebugGroup { .. } => Ok(ReplayModel { depth: m.depth + 1, ..m }),
        ComputeCommand::PopDebugGroup => if m.depth == 0 {
            Err(
                StepError::Exact(
                    PassErrorScope::PopDebugGroup,
                    ComputePassErrorInner::InvalidPopDebugGroup,
                ),
            )
        } else {
            Ok(ReplayModel { depth: (m.depth - 1) as nat, ..m })
        },
        ComputeCommand::InsertDebugMarker { .. } => Ok(m),
        ComputeCommand::WriteTimestamp { .. } => match query_error(g, m.active, cmd) {
            Some(e) => Err(StepError::Exact(PassErrorScope::WriteTimestamp, e)),
            None => Ok(m),
        },
        ComputeCommand::BeginPipelineStatisticsQuery { query_set_id, query_index } => match query_error(
            g,
            m.active,
            cmd,
        ) {
            Some(e) => Err(StepError::Exact(PassErrorScope::BeginPipelineStatisticsQuery, e)),
            None => Ok(ReplayModel { active: Some((query_set_id, query_index)), ..m }),
        },
        ComputeCommand::EndPipelineStatisticsQuery => match query_error(g, m.active, cmd) {
            Some(e) => Err(StepError::Exact(PassErrorScope::EndPipelineStatisticsQuery, e)),
            None => Ok(ReplayModel { active: None, ..m }),
        },
    }
}

/// The outcome of replaying the first `k` commands of `cmds` from `m0`, one after the
/// other; the first failing command ends it.
pub open spec fn replay(
    g: &Global,
    base: &BasePass,
    limits: Limits,
    indirect_ok: bool,
    m0: ReplayModel,
    cmds: Seq<ComputeCommand>,
    k: int,
) -> Result<ReplayModel, StepError>
    decreases k,
{
    if k <= 0 {
        Ok(m0)
    } else {
        match replay(g, base, limits, indirect_ok, m0, cmds, k - 1) {
            Err(e) => Err(e),
            Ok(m) => step(
                g,
                base,
                limits,
                indirect_ok,
                m,
                cmds[k - 1],
                dynamic_offsets_used(cmds.take(k - 1)) as int,
            ),
        }
    }
}

/// `e` holds the native commands that replaying `cmd` on `m` emits, where `dc` dynamic
/// offsets and `sc` label bytes of the side buffers were taken before it. A command that
/// fails emits nothing, but for a dispatch: its fix-up clears, and, when its group counts
/// are over the limit, the barriers flushed before that check.
pub open spec fn step_emits(
    g: &Global,
    base: &BasePass,
    limits: Limits,
    indirect_ok: bool,
    m: ReplayModel,
    cmd: ComputeCommand,
    dc: int,
    sc: int,
    e: Seq<NativeCommand>,
) -> bool {
    let out = step(g, base, limits, indirect_ok, m, cmd, dc);
    match cmd {
        ComputeCommand::SetBindGroup { index, .. } => match out {
            Ok(m1) => if m1.binder.layout is Some && (index as int) < compatible_count(m1.binder) {
                binds_range(e, m1.binder, index as int, compatible_count(m1.binder))
            } else {
                e.len() == 0
            },
            Err(_) => e.len() == 0,
        },
        ComputeCommand::SetPipeline(id) => match out {
            Ok(m1) => if m.pipeline == Some(id) {
                e.len() == 0
            } else if m.binder.layout == m1.binder.layout {
                e == seq![NativeCommand::SetComputePipeline(id)]
            } else {
                let k = 1 + valid_slots(m1.binder, m1.binder.expected.len() as int).len() as int;
                &&& e.len() >= k
                &&& e[0] == NativeCommand::SetComputePipeline(id)
                &&& rebinds(e.subrange(1, k), m1.binder, m1.binder.expected.len() as int)
                &&& zeroings(
                    e.subrange(k, e.len() as int),
                    g.pipeline_layouts.spec_get(m1.binder.layout->Some_0)->Some_0.push_constant_ranges@,
                    g.pipeline_layouts.spec_get(
                        m1.binder.layout->Some_0,
                    )->Some_0.push_constant_ranges@.len() as int,
                )
            },
            Err(_) => e.len() == 0,
        },
        ComputeCommand::SetPushConstant { offset, size_bytes, values_offset } => match out {
            Ok(_) => e.len() == 1 && match e[0] {
                NativeCommand::SetPushConstants { offset: o, data } => o == offset && data@
                    == base.push_constant_data@.subrange(
                    values_offset as int,
                    values_offset + (size_bytes / PUSH_CONSTANT_ALIGNMENT) as int,
                ),
                _ => false,
            },
            Err(_) => e.len() == 0,
        },
        ComputeCommand::Dispatch(x, y, z) => {
            let mf = fixed_up(m);
            let pre = fixup_commands(m.pending);
            let n = mf.binder.expected.len() as int;
            let gb = gathered(mf.local_buffers, g, mf.binder, n, false);
            let gt = gathered(mf.local_textures, g, mf.binder, n, true);
            match out {
                Ok(_) => e.len() > 0 && e.last() == (NativeCommand::Dispatch { x, y, z })
                    && flush_commands(pre, e.drop_last(), mf.buffers, mf.textures, gb->Some_0, gt->Some_0),
                Err(StepError::Exact(_, ComputePassErrorInner::Dispatch(DispatchError::InvalidGroupSize { .. }))) =>
                    flush_commands(pre, e, mf.buffers, mf.textures, gb->Some_0, gt->Some_0),
                Err(_) => e == pre,
            }
        },
        ComputeCommand::DispatchIndirect { buffer_id, offset } => match out {
            Ok(_) => {
                let lb = extend_outcome(
                    m.local_buffers,
                    SubresourceKey { resource: buffer_id, mip_level: 0, array_layer: 0 },
                    USE_INDIRECT,
                )->Ok_0;
                let n = m.binder.expected.len() as int;
                let gb = gathered(lb, g, m.binder, n, false);
                let gt = gathered(m.local_textures, g, m.binder, n, true);
                &&& e.len() > 0
                &&& e.last() == (NativeCommand::DispatchIndirect { buffer: buffer_id, offset })
                &&& flush_commands(
                    Seq::empty(),
                    e.drop_last(),
                    m.buffers,
                    m.textures,
                    gb->Some_0,
                    gt->Some_0,
                )
            },
            Err(_) => e.len() == 0,
        },
        ComputeCommand::PushDebugGroup { .. } | ComputeCommand::PopDebugGroup
        | ComputeCommand::InsertDebugMarker { .. } => match out {
            Ok(_) => e.len() == 1 && debug_native(e[0], cmd, base.string_data@, sc),
            Err(_) => e.len() == 0,
        },
        ComputeCommand::WriteTimestamp { query_set_id, query_index } => match out {
            Ok(_) => e == seq![
                NativeCommand::WriteTimestamp { query_set: query_set_id, query_index },
            ],
            Err(_) => e.len() == 0,
        },
        ComputeCommand::BeginPipelineStatisticsQuery { query_set_id, query_index } => match out {
            Ok(_) => e == seq![
                NativeCommand::BeginPipelineStatisticsQuery { query_set: query_set_id, query_index },
            ],
            Err(_) => e.len() == 0,
        },
        ComputeCommand::EndPipelineStatisticsQuery => match out {
            Ok(_) => e == seq![
                NativeCommand::EndPipelineStatisticsQuery {
                    query_set: m.active->Some_0.0,
                    query_index: m.active->Some_0.1,
                },
            ],
            Err(_) => e.len() == 0,
        },
    }
}

/// `e` holds the native commands that replaying the first `k` commands of `cmds` emits,
/// command after command; the first `k - 1` of them succeed.
pub open spec fn replay_emits(
    g: &Global,
    base: &BasePass,
    limits: Limits,
    indirect_ok: bool,
    m0: ReplayModel,
    cmds: Seq<ComputeCommand>,
    k: int,
    e: Seq<NativeCommand>,
) -> bool
    decreases k,
{
    if k <= 0 {
        e.len() == 0
    } else {
        match replay(g, base, limits, indirect_ok, m0, cmds, k - 1) {
            Err(_) => false,
            Ok(m) => exists|s: int|
                0 <= s <= e.len() && replay_emits(
                    g,
                    base,
                    limits,
                    indirect_ok,
                    m0,
                    cmds,
                    k - 1,
                    #[trigger] e.subrange(0, s),
                ) && step_emits(
                    g,
                    base,
                    limits,
                    indirect_ok,
                    m,
                    cmds[k - 1],
                    dynamic_offsets_used(cmds.take(k - 1)) as int,
                    string_bytes_used(cmds.take(k - 1)) as int,
                    e.subrange(s, e.len() as int),
                ),
        }
    }
}

/// `r` and the model `m1` after a command are what `outcome` says.
pub open spec fn matches_outcome(
    g: &Global,
    outcome: Result<ReplayModel, StepError>,
    m1: ReplayModel,
    r: Result<(), ComputePassError>,
) -> bool {
    match outcome {
        Ok(m) => r is Ok && m1 == m,
        Err(StepError::Exact(scope, inner)) => r matches Err(e) && e.spec_scope() == scope
            && e.spec_inner() == inner,
        Err(StepError::Conflict(scope, mb, mt, b)) => r matches Err(e) && e.spec_scope() == scope
            && e.spec_inner() is ResourceUsageConflict && gather_conflict(
            mb,
            mt,
            g,
            b,
            e.spec_inner()->ResourceUsageConflict_0,
        ),
    }
}

/// `c` is the native command that debug command `cmd` emits, with its label taken from
/// `strings` at `sc`.
pub open spec fn debug_native(c: NativeCommand, cmd: ComputeCommand, strings: Seq<u8>, sc: int) -> bool {
    match cmd {
        ComputeCommand::PushDebugGroup { len, .. } => c matches NativeCommand::BeginDebugMarker(v)
            && v@ == strings.subrange(sc, sc + len),
        ComputeCommand::PopDebugGroup => c == NativeCommand::EndDebugMarker,
        ComputeCommand::InsertDebugMarker { len, .. } => c matches NativeCommand::InsertDebugMarker(v)
            && v@ == strings.subrange(sc, sc + len),
        _ => false,
    }
}

/// `scope` is the error scope of command `cmd`.
pub open spec fn scope_fits(cmd: ComputeCommand, scope: PassErrorScope) -> bool {
    match cmd {
        ComputeCommand::SetBindGroup { bind_group_id, .. } => scope == PassErrorScope::SetBindGroup(
            bind_group_id,
        ),
        ComputeCommand::SetPipeline(id) => scope == PassErrorScope::SetPipelineCompute(id),
        ComputeCommand::SetPushConstant { .. } => scope == PassErrorScope::SetPushConstant,
        ComputeCommand::Dispatch(..) => scope matches PassErrorScope::Dispatch { indirect, .. }
            && !indirect,
        ComputeCommand::DispatchIndirect { .. } => scope matches PassErrorScope::Dispatch {
            indirect,
            ..
        } && indirect,
        ComputeCommand::PushDebugGroup { .. } => false,
        ComputeCommand::PopDebugGroup => scope == PassErrorScope::PopDebugGroup,
        ComputeCommand::InsertDebugMarker { .. } => false,
        ComputeCommand::WriteTimestamp { .. } => scope == PassErrorScope::WriteTimestamp,
        ComputeCommand::BeginPipelineStatisticsQuery { .. } => scope
            == PassErrorScope::BeginPipelineStatisticsQuery,
        ComputeCommand::EndPipelineStatisticsQuery => scope
            == PassErrorScope::EndPipelineStatisticsQuery,
    }
}

/// What replaying `cmds` on `before` gives, as `after` and `r`: a buffer that is not
/// recording is refused and left alone; otherwise the result is that of replaying the
/// commands one after the other, stopping at the first that fails (`replay`), the
/// buffer is poisoned unless every command succeeded, the pass is opened after the commands emitted before, and on success closed;
/// a failure carries the scope of one of the commands.
/// On success every dispatch came after some pipeline was set; a pass of debug commands
/// only succeeds exactly when no pop finds every group closed, and otherwise fails on
/// that pop, having emitted one marker command for each debug command before it.
pub open spec fn run_outcome(
    g: &Global,
    base: &BasePass,
    before: &CommandBuffer,
    after: &CommandBuffer,
    cmds: Seq<ComputeCommand>,
    r: Result<(), ComputePassError>,
) -> bool {
    &&& after.wf()
    &&& after.id == before.id
    &&& after.limits == before.limits
    &&& after.support_clear_buffer_texture == before.support_clear_buffer_texture
    &&& after.supports_indirect_execution == before.supports_indirect_execution
    &&& after.buffer_copy_pitch == before.buffer_copy_pitch
    &&& before.status != CommandEncoderStatus::Recording ==> {
        &&& *after == *before
        &&& r matches Err(e) && e.spec_scope() == PassErrorScope::Pass(before.id)
            && e.spec_inner() == ComputePassErrorInner::Encoder(
            if before.status == CommandEncoderStatus::Error {
                CommandEncoderError::Invalid
            } else {
                CommandEncoderError::NotRecording
            },
        )
    }
    &&& before.status == CommandEncoderStatus::Recording ==> {
        &&& r is Ok <==> after.status == CommandEncoderStatus::Recording
        &&& r is Err <==> after.status == CommandEncoderStatus::Error
        &&& before.raw@.len() < after.raw@.len()
        &&& after.raw@.subrange(0, before.raw@.len() as int) == before.raw@
        &&& after.raw@[before.raw@.len() as int] == NativeCommand::BeginComputePass
        &&& match replay(
            g,
            base,
            before.limits,
            before.supports_indirect_execution,
            initial_model(before),
            cmds,
            cmds.len() as int,
        ) {
            Ok(m) => {
                let len = after.raw@.len() as int;
                let np = m.pending.len() as int;
                &&& r is Ok
                &&& after.buffer_trackers@ == m.buffers
                &&& after.texture_trackers@ == m.textures
                &&& after.buffer_memory_init_actions@ == m.actions
                &&& after.texture_memory_init_actions@ == m.texture_actions + fixup_actions(
                    m.pending,
                )
                &&& after.discarded_surfaces@ == m.discarded
                &&& len >= before.raw@.len() + np + 2
                &&& after.raw@.last() == NativeCommand::EndComputePass
                &&& after.raw@.subrange(len - np - 1, len - 1) == fixup_commands(m.pending)
                &&& replay_emits(
                    g,
                    base,
                    before.limits,
                    before.supports_indirect_execution,
                    initial_model(before),
                    cmds,
                    cmds.len() as int,
                    after.raw@.subrange(before.raw@.len() as int + 1, len - np - 1),
                )
            },
            Err(StepError::Exact(scope, inner)) => r matches Err(e) && e.spec_scope() == scope
                && e.spec_inner() == inner,
            Err(StepError::Conflict(scope, mb, mt, b)) => r matches Err(e) && e.spec_scope()
                == scope && e.spec_inner() is ResourceUsageConflict && gather_conflict(
                mb,
                mt,
                g,
                b,
                e.spec_inner()->ResourceUsageConflict_0,
            ),
        }
        &&& r is Err ==> exists|k: int|
            1 <= k <= cmds.len() && replay(
                g,
                base,
                before.limits,
                before.supports_indirect_execution,
                initial_model(before),
                cmds,
                k - 1,
            ) is Ok && replay(
                g,
                base,
                before.limits,
                before.supports_indirect_execution,
                initial_model(before),
                cmds,
                k,
            ) is Err && #[trigger] replay_emits(
                g,
                base,
                before.limits,
                before.supports_indirect_execution,
                initial_model(before),
                cmds,
                k,
                after.raw@.subrange(before.raw@.len() as int + 1, after.raw@.len() as int),
            )
        &&& r is Ok ==> dispatches_follow_pipeline(cmds)
        &&& r matches Err(e) ==> exists|k: int|
            0 <= k < cmds.len() && scope_fits(#[trigger] cmds[k], e.spec_scope())
        &&& debug_only(cmds) ==> (r is Ok <==> debug_depth(cmds) is Some)
        &&& (debug_only(cmds) && r is Ok) ==> after.raw@.last() == NativeCommand::EndComputePass
        &&& debug_only(cmds) ==> (r matches Err(e) ==> e.spec_inner()
            == ComputePassErrorInner::InvalidPopDebugGroup && e.spec_scope()
            == PassErrorScope::PopDebugGroup)
    }
}

/// `cmds` opens debug groups only.
pub open spec fn all_pushes(cmds: Seq<ComputeCommand>) -> bool {
    forall|i: int| 0 <= i < cmds.len() ==> #[trigger] cmds[i] is PushDebugGroup
}

/// `cmds` closes debug groups only.
pub open spec fn all_pops(cmds: Seq<ComputeCommand>) -> bool {
    forall|i: int| 0 <= i < cmds.len() ==> #[trigger] cmds[i] is PopDebugGroup
}

proof fn lemma_depth_after_pushes(pushes: Seq<ComputeCommand>, k: int)
    requires
        all_pushes(pushes),
        0 <= k <= pushes.len(),
    ensures
        debug_depth(pushes.take(k)) == Some(k as nat),
    decreases k,
{
    if k > 0 {
        lemma_depth_after_pushes(pushes, k - 1);
        lemma_prefix_step(pushes, k - 1);
    } else {
        assert(pushes.take(0) =~= Seq::<ComputeCommand>::empty());
    }
}

proof fn lemma_depth_after_pops(cmds: Seq<ComputeCommand>, n: int, k: int)
    requires
        0 <= n,
        n + k <= cmds.len(),
        0 <= k <= n,
        debug_depth(cmds.take(n)) == Some(n as nat),
        forall|i: int| n <= i < cmds.len() ==> #[trigger] cmds[i] is PopDebugGroup,
    ensures
        debug_depth(cmds.take(n + k)) == Some((n - k) as nat),
    decreases k,
{
    if k > 0 {
        lemma_depth_after_pops(cmds, n, k - 1);
        lemma_prefix_step(cmds, n + k - 1);
    }
}

/// Opening `n` debug groups and then closing `n` leaves none open and never fails; one
/// more close fails.
pub proof fn lemma_balanced_debug_scopes(pushes: Seq<ComputeCommand>, pops: Seq<ComputeCommand>)
    requires
        all_pushes(pushes),
        all_pops(pops),
        pushes.len() == pops.len(),
    ensures
        debug_only(pushes + pops),
        debug_depth(pushes + pops) == Some(0nat),
        debug_only(pushes + pops.push(ComputeCommand::PopDebugGroup)),
        debug_depth(pushes + pops.push(ComputeCommand::PopDebugGroup)) is None,
{
    let n = pushes.len() as int;
    let all = pushes + pops;
    let extra = pushes + pops.push(ComputeCommand::PopDebugGroup);
    assert forall|i: int| 0 <= i < all.len() implies #[trigger] all[i] is PushDebugGroup
        || all[i] is PopDebugGroup || all[i] is InsertDebugMarker by {
        if i < n {
            assert(all[i] == pushes[i]);
        } else {
            assert(all[i] == pops[i - n]);
        }
    }
    assert forall|i: int| 0 <= i < extra.len() implies #[trigger] extra[i] is PushDebugGroup
        || extra[i] is PopDebugGroup || extra[i] is InsertDebugMarker by {
        if i < n {
            assert(extra[i] == pushes[i]);
        } else if i < 2 * n {
            assert(extra[i] == pops[i - n]);
        }
    }
    lemma_depth_after_pushes(pushes, n);
    assert(all.take(n) =~= pushes.take(n));
    assert(extra.take(n) =~= pushes.take(n));
    assert forall|i: int| n <= i < all.len() implies #[trigger] all[i] is PopDebugGroup by {
        assert(all[i] == pops[i - n]);
    }
    assert forall|i: int| n <= i < extra.len() implies #[trigger] extra[i] is PopDebugGroup by {
        if i < 2 * n {
            assert(extra[i] == pops[i - n]);
        }
    }
    lemma_depth_after_pops(all, n, n);
    assert(all.take(2 * n) =~= all);
    lemma_depth_after_pops(extra, n, n);
    lemma_prefix_step(extra, 2 * n);
    assert(extra.take(2 * n + 1) =~= extra);
}

/// A pass with a dispatch before any pipeline is set does not replay successfully.
pub proof fn lemma_dispatch_before_pipeline_fails(cmds: Seq<ComputeCommand>, k: int)
    requires
        0 <= k < cmds.len(),
        cmds[k] is Dispatch || cmds[k] is DispatchIndirect,
        forall|j: int| 0 <= j < k ==> !(#[trigger] cmds[j] is SetPipeline),
    ensures
        !dispatches_follow_pipeline(cmds),
{
}

/// Before any pipeline is set, a dispatch finds no expected slot and fails for the
/// missing pipeline.
pub proof fn lemma_ready_without_pipeline(st: &State)
    requires
        st.pipeline is None,
        st.binder.expected@.len() == 0,
    ensures
        spec_ready(st) == Err::<(), DispatchError>(DispatchError::MissingPipeline),
{
}

/// A pass whose first command is a dispatch fails on it for the missing pipeline: before
/// any pipeline is set, the binder expects no slot.
pub proof fn lemma_first_dispatch_misses_pipeline(
    g: &Global,
    base: &BasePass,
    cb: &CommandBuffer,
    cmds: Seq<ComputeCommand>,
)
    requires
        cmds.len() >= 1,
        cmds[0] is Dispatch,
    ensures
        replay(
            g,
            base,
            cb.limits,
            cb.supports_indirect_execution,
            initial_model(cb),
            cmds,
            cmds.len() as int,
        ) == Err::<ReplayModel, StepError>(
            StepError::Exact(
                PassErrorScope::Dispatch { indirect: false, pipeline: None },
                ComputePassErrorInner::Dispatch(DispatchError::MissingPipeline),
            ),
        ),
{
    let m0 = initial_model(cb);
    assert(replay(g, base, cb.limits, cb.supports_indirect_execution, m0, cmds, 0) == Ok::<
        ReplayModel,
        StepError,
    >(m0));
    assert(m0.binder.all_valid());
    assert(ready_of(m0.binder, m0.pipeline) == Err::<(), DispatchError>(
        DispatchError::MissingPipeline,
    ));
    lemma_replay_sticks(g, base, cb.limits, cb.supports_indirect_execution, m0, cmds, 1, cmds.len() as int);
}

} // verus!
