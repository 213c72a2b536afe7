use wgpu_core::binding::{
    BindGroup, ComputePipeline, DynamicBindingKind, PipelineLayout, PushConstantRange, QuerySet,
    QueryType,
};
use wgpu_core::command::{CommandBuffer, CommandEncoderStatus, Limits, NativeCommand};
use wgpu_core::compute::{
    map_pass_err, wgpu_compute_pass_begin_pipeline_statistics_query, wgpu_compute_pass_dispatch,
    wgpu_compute_pass_dispatch_indirect, wgpu_compute_pass_end_pipeline_statistics_query,
    wgpu_compute_pass_insert_debug_marker, wgpu_compute_pass_pop_debug_group,
    wgpu_compute_pass_push_debug_group, wgpu_compute_pass_set_bind_group,
    wgpu_compute_pass_set_pipeline, wgpu_compute_pass_set_push_constant,
    wgpu_compute_pass_write_timestamp, BindError, CommandEncoderError, ComputeCommand,
    ComputePass, ComputePassDescriptor, ComputePassErrorInner, DispatchError, PassErrorScope,
    QueryUseError, State, TraceCommand, WorkgroupCounts,
};
use wgpu_core::hub::Global;
use wgpu_core::init_tracker::{
    InitTracker, MemoryInitAction, MemoryInitKind, TextureInitAction, TextureSurface,
};
use wgpu_core::resource::Buffer;
use wgpu_core::track::{SubresourceKey, UsageTracker, USE_STORAGE_WRITE};

fn limits() -> Limits {
    Limits {
        max_bind_groups: 4,
        max_compute_workgroups_per_dimension: 100,
        min_uniform_buffer_offset_alignment: 256,
        min_storage_buffer_offset_alignment: 256,
    }
}

fn encoder() -> CommandBuffer {
    CommandBuffer::new(7, true, true, limits(), 256)
}

/// Pipeline 0 with layout 0, which expects bind group layout 5 at slot 0 and has a
/// push-constant range 0..16; pipeline 1 with layout 1, which expects nothing.
fn world() -> Global {
    let mut g = Global::new();
    g.pipeline_layouts.items.push(Some(PipelineLayout {
        bind_group_layout_ids: vec![5],
        push_constant_ranges: vec![PushConstantRange { start: 0, end: 16 }],
    }));
    g.pipeline_layouts.items.push(Some(PipelineLayout {
        bind_group_layout_ids: vec![],
        push_constant_ranges: vec![],
    }));
    g.compute_pipelines.items.push(Some(ComputePipeline { layout_id: 0 }));
    g.compute_pipelines.items.push(Some(ComputePipeline { layout_id: 1 }));
    let mut used = UsageTracker::new();
    used.request(SubresourceKey { resource: 0, mip_level: 0, array_layer: 0 }, USE_STORAGE_WRITE);
    g.bind_groups.items.push(Some(BindGroup {
        layout_id: 5,
        dynamic_bindings: vec![DynamicBindingKind::Storage],
        used_buffers: used,
        used_textures: UsageTracker::new(),
        used_buffer_ranges: vec![],
        used_texture_ranges: vec![],
    }));
    g.buffers.items.push(Some(Buffer {
        size: 64,
        usage: 128,
        destroyed: false,
        initialization_status: InitTracker::new(64),
    }));
    g.query_sets.items.push(Some(QuerySet { ty: QueryType::Timestamp, count: 2 }));
    g
}

fn new_pass() -> ComputePass {
    ComputePass::new(7, &ComputePassDescriptor::default())
}

#[test]
fn dispatch_without_pipeline_fails() {
    let g = world();
    let mut pass = new_pass();
    wgpu_compute_pass_dispatch(&mut pass, 1, 1, 1);
    let mut cb = encoder();
    let e = g.command_encoder_run_compute_pass(&mut cb, &pass).unwrap_err();
    assert_eq!(e.inner(), ComputePassErrorInner::Dispatch(DispatchError::MissingPipeline));
    assert_eq!(e.scope, PassErrorScope::Dispatch { indirect: false, pipeline: None });
    assert_eq!(cb.status, CommandEncoderStatus::Error);
    // A poisoned encoder refuses further passes.
    let e2 = g.command_encoder_run_compute_pass(&mut cb, &new_pass()).unwrap_err();
    assert_eq!(e2.inner(), ComputePassErrorInner::Encoder(CommandEncoderError::Invalid));
}

#[test]
fn dispatch_after_pipeline_succeeds() {
    let g = world();
    let mut pass = new_pass();
    wgpu_compute_pass_set_pipeline(&mut pass, 1);
    wgpu_compute_pass_set_pipeline(&mut pass, 1);
    wgpu_compute_pass_dispatch(&mut pass, 2, 3, 4);
    let mut cb = encoder();
    assert!(g.command_encoder_run_compute_pass(&mut cb, &pass).is_ok());
    assert_eq!(cb.status, CommandEncoderStatus::Recording);
    assert_eq!(
        cb.raw,
        vec![
            NativeCommand::BeginComputePass,
            NativeCommand::SetComputePipeline(1),
            NativeCommand::Dispatch { x: 2, y: 3, z: 4 },
            NativeCommand::EndComputePass,
        ]
    );
}

#[test]
fn dispatch_with_bound_group_flushes_barriers() {
    let g = world();
    let mut pass = new_pass();
    wgpu_compute_pass_set_bind_group(&mut pass, 0, 0, &[512]);
    wgpu_compute_pass_set_pipeline(&mut pass, 0);
    wgpu_compute_pass_dispatch(&mut pass, 1, 1, 1);
    wgpu_compute_pass_dispatch(&mut pass, 1, 1, 1);
    let mut cb = encoder();
    let key = SubresourceKey { resource: 0, mip_level: 0, array_layer: 0 };
    cb.buffer_trackers.request(key, wgpu_core::track::USE_SAMPLED);
    assert!(g.command_encoder_run_compute_pass(&mut cb, &pass).is_ok());
    let barriers = cb.raw.iter().filter(|c| matches!(c, NativeCommand::TransitionBuffer(_))).count();
    assert_eq!(barriers, 1);
    let pos_barrier = cb.raw.iter().position(|c| matches!(c, NativeCommand::TransitionBuffer(_))).unwrap();
    let pos_dispatch = cb.raw.iter().position(|c| matches!(c, NativeCommand::Dispatch { .. })).unwrap();
    assert_eq!(pos_barrier + 1, pos_dispatch);
    assert!(cb.raw.contains(&NativeCommand::SetBindGroup { index: 0, bind_group: 0, dynamic_offsets: vec![512] }));
    assert_eq!(cb.raw.last(), Some(&NativeCommand::EndComputePass));
}

#[test]
fn missing_bind_group_is_reported_by_slot() {
    let g = world();
    let mut pass = new_pass();
    wgpu_compute_pass_set_pipeline(&mut pass, 0);
    wgpu_compute_pass_dispatch(&mut pass, 1, 1, 1);
    let mut cb = encoder();
    let e = g.command_encoder_run_compute_pass(&mut cb, &pass).unwrap_err();
    assert_eq!(
        e.inner(),
        ComputePassErrorInner::Dispatch(DispatchError::IncompatibleBindGroup { index: 0 })
    );
}

#[test]
fn bind_group_errors() {
    let g = world();
    let mut pass = new_pass();
    wgpu_compute_pass_set_bind_group(&mut pass, 6, 0, &[]);
    let mut cb = encoder();
    let e = g.command_encoder_run_compute_pass(&mut cb, &pass).unwrap_err();
    assert_eq!(e.inner(), ComputePassErrorInner::BindGroupIndexOutOfRange { index: 6, max: 4 });
    assert_eq!(e.scope, PassErrorScope::SetBindGroup(0));

    let mut pass = new_pass();
    wgpu_compute_pass_set_bind_group(&mut pass, 0, 0, &[]);
    let mut cb = encoder();
    let e = g.command_encoder_run_compute_pass(&mut cb, &pass).unwrap_err();
    assert_eq!(
        e.inner(),
        ComputePassErrorInner::Bind(BindError::MismatchedDynamicOffsetCount { actual: 0, expected: 1 })
    );

    let mut pass = new_pass();
    wgpu_compute_pass_set_bind_group(&mut pass, 0, 0, &[100]);
    let mut cb = encoder();
    let e = g.command_encoder_run_compute_pass(&mut cb, &pass).unwrap_err();
    assert_eq!(
        e.inner(),
        ComputePassErrorInner::Bind(BindError::UnalignedDynamicBinding { idx: 0, offset: 100, alignment: 256 })
    );

    let mut pass = new_pass();
    wgpu_compute_pass_set_bind_group(&mut pass, 0, 9, &[]);
    let mut cb = encoder();
    let e = g.command_encoder_run_compute_pass(&mut cb, &pass).unwrap_err();
    assert_eq!(e.inner(), ComputePassErrorInner::InvalidBindGroup(9));
}

#[test]
fn dispatch_over_limit_fails() {
    let g = world();
    let mut pass = new_pass();
    wgpu_compute_pass_set_pipeline(&mut pass, 1);
    wgpu_compute_pass_dispatch(&mut pass, 1, 101, 1);
    let mut cb = encoder();
    let e = g.command_encoder_run_compute_pass(&mut cb, &pass).unwrap_err();
    assert_eq!(
        e.inner(),
        ComputePassErrorInner::Dispatch(DispatchError::InvalidGroupSize {
            current: WorkgroupCounts { x: 1, y: 101, z: 1 },
            limit: 100
        })
    );
}

#[test]
fn balanced_debug_groups_succeed() {
    let g = world();
    let mut pass = new_pass();
    for _ in 0..3 {
        wgpu_compute_pass_push_debug_group(&mut pass, "scope", 0);
    }
    wgpu_compute_pass_insert_debug_marker(&mut pass, "mark", 0);
    for _ in 0..3 {
        wgpu_compute_pass_pop_debug_group(&mut pass);
    }
    let mut cb = encoder();
    assert!(g.command_encoder_run_compute_pass(&mut cb, &pass).is_ok());
    assert_eq!(cb.raw[1], NativeCommand::BeginDebugMarker(b"scope".to_vec()));
    assert_eq!(cb.raw[4], NativeCommand::InsertDebugMarker(b"mark".to_vec()));
    assert_eq!(cb.raw[5], NativeCommand::EndDebugMarker);
    assert_eq!(cb.status, CommandEncoderStatus::Recording);
}

#[test]
fn extra_pop_fails() {
    let g = world();
    let mut pass = new_pass();
    wgpu_compute_pass_push_debug_group(&mut pass, "a", 0);
    wgpu_compute_pass_pop_debug_group(&mut pass);
    wgpu_compute_pass_pop_debug_group(&mut pass);
    let mut cb = encoder();
    let e = g.command_encoder_run_compute_pass(&mut cb, &pass).unwrap_err();
    assert_eq!(e.inner(), ComputePassErrorInner::InvalidPopDebugGroup);
    assert_eq!(e.scope, PassErrorScope::PopDebugGroup);
    assert_eq!(cb.status, CommandEncoderStatus::Error);
}

#[test]
fn push_constants_are_recorded_as_words() {
    let mut pass = new_pass();
    wgpu_compute_pass_set_push_constant(&mut pass, 4, &[1, 0, 0, 0, 0, 1, 0, 0]);
    assert_eq!(pass.base().push_constant_data, vec![1, 256]);
    assert_eq!(
        pass.base().commands,
        vec![ComputeCommand::SetPushConstant { offset: 4, size_bytes: 8, values_offset: 0 }]
    );
    let g = world();
    let mut cb = encoder();
    let e = g.command_encoder_run_compute_pass(&mut cb, &pass).unwrap_err();
    assert_eq!(e.inner(), ComputePassErrorInner::Dispatch(DispatchError::MissingPipeline));

    let mut pass = new_pass();
    wgpu_compute_pass_set_pipeline(&mut pass, 0);
    wgpu_compute_pass_set_push_constant(&mut pass, 4, &[1, 0, 0, 0, 0, 1, 0, 0]);
    let mut cb = encoder();
    assert!(g.command_encoder_run_compute_pass(&mut cb, &pass).is_ok());
    assert!(cb.raw.contains(&NativeCommand::SetPushConstants { offset: 0, data: vec![0, 0, 0, 0] }));
    assert!(cb.raw.contains(&NativeCommand::SetPushConstants { offset: 4, data: vec![1, 256] }));

    let mut pass = new_pass();
    wgpu_compute_pass_set_pipeline(&mut pass, 0);
    wgpu_compute_pass_set_push_constant(&mut pass, 12, &[0; 8]);
    let mut cb = encoder();
    assert!(g.command_encoder_run_compute_pass(&mut cb, &pass).is_err());
}

#[test]
fn recorder_keeps_side_buffers() {
    let mut pass = new_pass();
    wgpu_compute_pass_set_bind_group(&mut pass, 1, 3, &[256, 512]);
    wgpu_compute_pass_push_debug_group(&mut pass, "ab", 9);
    wgpu_compute_pass_dispatch_indirect(&mut pass, 0, 16);
    wgpu_compute_pass_write_timestamp(&mut pass, 0, 1);
    wgpu_compute_pass_begin_pipeline_statistics_query(&mut pass, 0, 0);
    wgpu_compute_pass_end_pipeline_statistics_query(&mut pass);
    assert_eq!(pass.parent_id(), 7);
    assert_eq!(pass.base().dynamic_offsets, vec![256, 512]);
    assert_eq!(pass.base().string_data, b"ab".to_vec());
    assert_eq!(pass.base().commands.len(), 6);
    assert_eq!(
        pass.base().commands[0],
        ComputeCommand::SetBindGroup { index: 1, num_dynamic_offsets: 2, bind_group_id: 3 }
    );
    assert_eq!(pass.base().commands[1], ComputeCommand::PushDebugGroup { color: 9, len: 2 });
    match pass.into_command() {
        TraceCommand::RunComputePass { base } => assert_eq!(base.commands.len(), 6),
    }
}

#[test]
fn indirect_dispatch_checks() {
    let g = world();
    let mut pass = new_pass();
    wgpu_compute_pass_set_pipeline(&mut pass, 1);
    wgpu_compute_pass_dispatch_indirect(&mut pass, 0, 0);
    let mut cb = encoder();
    let e = g.command_encoder_run_compute_pass(&mut cb, &pass).unwrap_err();
    assert!(matches!(e.inner(), ComputePassErrorInner::MissingBufferUsage(_)));

    let mut no_indirect = CommandBuffer::new(8, true, false, limits(), 256);
    let e = g.command_encoder_run_compute_pass(&mut no_indirect, &pass).unwrap_err();
    assert!(matches!(e.inner(), ComputePassErrorInner::MissingDownlevelFlags(_)));

    let mut g2 = world();
    g2.buffers.items[0] = Some(Buffer {
        size: 16,
        usage: 256,
        destroyed: false,
        initialization_status: InitTracker::new(16),
    });
    let mut pass = new_pass();
    wgpu_compute_pass_set_pipeline(&mut pass, 1);
    wgpu_compute_pass_dispatch_indirect(&mut pass, 0, 8);
    let mut cb = encoder();
    let e = g2.command_encoder_run_compute_pass(&mut cb, &pass).unwrap_err();
    assert_eq!(
        e.inner(),
        ComputePassErrorInner::IndirectBufferOverrun { offset: 8, end_offset: 20, buffer_size: 16 }
    );

    let mut pass = new_pass();
    wgpu_compute_pass_set_pipeline(&mut pass, 1);
    wgpu_compute_pass_dispatch_indirect(&mut pass, 0, 4);
    let mut cb = encoder();
    assert!(g2.command_encoder_run_compute_pass(&mut cb, &pass).is_ok());
    assert_eq!(cb.buffer_memory_init_actions.len(), 1);
    assert!(cb.raw.contains(&NativeCommand::DispatchIndirect { buffer: 0, offset: 4 }));
}

#[test]
fn query_commands() {
    let g = world();
    let mut pass = new_pass();
    wgpu_compute_pass_write_timestamp(&mut pass, 0, 1);
    let mut cb = encoder();
    assert!(g.command_encoder_run_compute_pass(&mut cb, &pass).is_ok());
    assert!(cb.raw.contains(&NativeCommand::WriteTimestamp { query_set: 0, query_index: 1 }));
    assert_eq!(cb.used_query_sets, vec![0]);

    let mut pass = new_pass();
    wgpu_compute_pass_write_timestamp(&mut pass, 0, 2);
    let mut cb = encoder();
    let e = g.command_encoder_run_compute_pass(&mut cb, &pass).unwrap_err();
    assert_eq!(
        e.inner(),
        ComputePassErrorInner::QueryUse(QueryUseError::OutOfBounds { query_index: 2, query_set_size: 2 })
    );

    let mut pass = new_pass();
    wgpu_compute_pass_begin_pipeline_statistics_query(&mut pass, 0, 0);
    let mut cb = encoder();
    let e = g.command_encoder_run_compute_pass(&mut cb, &pass).unwrap_err();
    assert_eq!(
        e.inner(),
        ComputePassErrorInner::QueryUse(QueryUseError::IncompatibleType {
            set_type: QueryType::Timestamp,
            query_type: QueryType::PipelineStatistics
        })
    );

    let mut pass = new_pass();
    wgpu_compute_pass_end_pipeline_statistics_query(&mut pass);
    let mut cb = encoder();
    let e = g.command_encoder_run_compute_pass(&mut cb, &pass).unwrap_err();
    assert_eq!(e.inner(), ComputePassErrorInner::QueryUse(QueryUseError::AlreadyStopped));

    let mut pass = new_pass();
    wgpu_compute_pass_write_timestamp(&mut pass, 4, 0);
    let mut cb = encoder();
    let e = g.command_encoder_run_compute_pass(&mut cb, &pass).unwrap_err();
    assert_eq!(e.inner(), ComputePassErrorInner::InvalidQuerySet(4));
}

#[test]
fn state_readiness() {
    let st = State::new();
    assert_eq!(st.is_ready(), Err(DispatchError::MissingPipeline));
    let mapped = map_pass_err::<()>(Err(ComputePassErrorInner::InvalidPopDebugGroup), PassErrorScope::PopDebugGroup);
    let e = mapped.unwrap_err();
    assert_eq!(e.scope, PassErrorScope::PopDebugGroup);
    assert_eq!(e.inner(), ComputePassErrorInner::InvalidPopDebugGroup);
}

#[test]
fn encoder_not_recording_is_refused() {
    let g = world();
    let mut cb = encoder();
    cb.status = CommandEncoderStatus::Finished;
    let e = g.command_encoder_run_compute_pass(&mut cb, &new_pass()).unwrap_err();
    assert_eq!(e.inner(), ComputePassErrorInner::Encoder(CommandEncoderError::NotRecording));
    assert_eq!(e.scope, PassErrorScope::Pass(7));
    assert_eq!(cb.status, CommandEncoderStatus::Finished);
    assert!(cb.raw.is_empty());
}

#[test]
fn bound_ranges_queue_initialisation() {
    let mut g = world();
    let action = MemoryInitAction { id: 0, start: 0, end: 16, kind: MemoryInitKind::NeedsInitializedMemory };
    if let Some(bg) = g.bind_groups.items[0].as_mut() {
        bg.used_buffer_ranges = vec![action, MemoryInitAction { id: 3, ..action }];
    }
    let mut pass = new_pass();
    wgpu_compute_pass_set_bind_group(&mut pass, 0, 0, &[0]);
    let mut cb = encoder();
    assert!(g.command_encoder_run_compute_pass(&mut cb, &pass).is_ok());
    // The range of the missing buffer 3 is dropped.
    assert_eq!(cb.buffer_memory_init_actions, vec![action]);
}

#[test]
fn flush_merges_bound_usages() {
    let g = world();
    let mut state = State::new();
    let mut cb = encoder();
    assert!(g.run_set_pipeline(&mut state, &mut cb, 0).is_ok());
    let mut pass = new_pass();
    wgpu_compute_pass_set_bind_group(&mut pass, 0, 0, &[256]);
    assert!(g.run_set_bind_group(&mut state, &mut cb, pass.base(), 0, 1, 0, 1, 0).is_ok());
    assert_eq!(state.is_ready(), Ok(()));
    assert!(state.flush_states(&g, &mut cb).is_ok());
    let key = SubresourceKey { resource: 0, mip_level: 0, array_layer: 0 };
    assert_eq!(cb.buffer_trackers.get(key), Some(USE_STORAGE_WRITE));
    assert_eq!(state.buffers.len(), 0);
}

#[test]
fn discarded_surfaces_are_fixed_up() {
    let mut g = world();
    let read = TextureInitAction {
        texture: 4,
        mip_level: 0,
        array_layer: 1,
        kind: MemoryInitKind::NeedsInitializedMemory,
    };
    if let Some(bg) = g.bind_groups.items[0].as_mut() {
        bg.used_texture_ranges = vec![read];
    }
    let surface = TextureSurface { texture: 4, mip_level: 0, array_layer: 1 };
    let other = TextureSurface { texture: 4, mip_level: 1, array_layer: 0 };
    // Read by a dispatch: zeroed before it.
    let mut pass = new_pass();
    wgpu_compute_pass_set_pipeline(&mut pass, 0);
    wgpu_compute_pass_set_bind_group(&mut pass, 0, 0, &[0]);
    wgpu_compute_pass_dispatch(&mut pass, 1, 1, 1);
    let mut cb = encoder();
    cb.discarded_surfaces = vec![surface, other];
    assert!(g.command_encoder_run_compute_pass(&mut cb, &pass).is_ok());
    let zero = cb.raw.iter().position(|c| *c == NativeCommand::ZeroSurface(surface)).unwrap();
    let dispatch = cb.raw.iter().position(|c| matches!(c, NativeCommand::Dispatch { .. })).unwrap();
    assert!(zero < dispatch);
    assert_eq!(cb.discarded_surfaces, vec![other]);
    assert!(cb.texture_memory_init_actions.contains(&TextureInitAction {
        kind: MemoryInitKind::ImplicitlyInitialized,
        ..read
    }));
    // Bound but never dispatched: zeroed after the pass ends anyway.
    let mut pass = new_pass();
    wgpu_compute_pass_set_bind_group(&mut pass, 0, 0, &[0]);
    let mut cb = encoder();
    cb.discarded_surfaces = vec![surface];
    assert!(g.command_encoder_run_compute_pass(&mut cb, &pass).is_ok());
    let n = cb.raw.len();
    assert_eq!(cb.raw[n - 2], NativeCommand::ZeroSurface(surface));
    assert_eq!(cb.raw[n - 1], NativeCommand::EndComputePass);
    assert!(cb.discarded_surfaces.is_empty());
}

#[test]
fn binding_a_slot_rebinds_trailing_compatible_slots() {
    let mut g = world();
    g.pipeline_layouts.items.push(Some(PipelineLayout {
        bind_group_layout_ids: vec![5, 6],
        push_constant_ranges: vec![],
    }));
    g.compute_pipelines.items.push(Some(ComputePipeline { layout_id: 2 }));
    g.bind_groups.items.push(Some(BindGroup {
        layout_id: 6,
        dynamic_bindings: vec![],
        used_buffers: UsageTracker::new(),
        used_textures: UsageTracker::new(),
        used_buffer_ranges: vec![],
        used_texture_ranges: vec![],
    }));
    let mut pass = new_pass();
    wgpu_compute_pass_set_pipeline(&mut pass, 2);
    wgpu_compute_pass_set_bind_group(&mut pass, 1, 1, &[]);
    wgpu_compute_pass_set_bind_group(&mut pass, 0, 0, &[256]);
    wgpu_compute_pass_dispatch(&mut pass, 1, 1, 1);
    let mut cb = encoder();
    assert!(g.command_encoder_run_compute_pass(&mut cb, &pass).is_ok());
    let binds: Vec<(u32, u64)> = cb
        .raw
        .iter()
        .filter_map(|c| match c {
            NativeCommand::SetBindGroup { index, bind_group, .. } => Some((*index, *bind_group)),
            _ => None,
        })
        .collect();
    // Slot 1 waits for slot 0; binding slot 0 binds both.
    assert_eq!(binds, vec![(0, 0), (1, 1)]);
}

#[test]
fn failed_command_emits_nothing_after_it() {
    let g = world();
    let mut pass = new_pass();
    wgpu_compute_pass_set_pipeline(&mut pass, 1);
    wgpu_compute_pass_dispatch(&mut pass, 1, 101, 1);
    wgpu_compute_pass_dispatch(&mut pass, 1, 1, 1);
    let mut cb = encoder();
    assert!(g.command_encoder_run_compute_pass(&mut cb, &pass).is_err());
    assert_eq!(cb.raw, vec![NativeCommand::BeginComputePass, NativeCommand::SetComputePipeline(1)]);
    assert_eq!(cb.status, CommandEncoderStatus::Error);
}
