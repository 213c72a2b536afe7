use wgpu_core::clear::{
    align_to, collect_zero_buffer_copies_for_clear_texture, lowest_common_multiple, mip_copy_plan,
    ClearError, ImageSubresourceRange,
};
use wgpu_core::command::{
    BufferTextureCopy, CommandBuffer, CommandEncoderStatus, CopyExtent, Limits, NativeCommand,
    Origin3d,
};
use wgpu_core::hub::Global;
use wgpu_core::init_tracker::{InitTracker, MemoryInitAction, MemoryInitKind, TextureInitAction};
use wgpu_core::resource::{
    Buffer, Extent3d, SubRange, Texture, TextureAspect, TextureDescriptor, TextureDimension,
    TextureFormat, TextureSampleType, TextureSelector, ASPECT_COLOR, ASPECT_DEPTH,
    BUFFER_USAGE_COPY_DST, TEXTURE_USAGE_COPY_DST,
};
use wgpu_core::track::{SubresourceKey, USE_COPY_DST};

fn limits() -> Limits {
    Limits {
        max_bind_groups: 4,
        max_compute_workgroups_per_dimension: 65535,
        min_uniform_buffer_offset_alignment: 256,
        min_storage_buffer_offset_alignment: 256,
    }
}

fn encoder() -> CommandBuffer {
    CommandBuffer::new(1, true, true, limits(), 256)
}

fn buffer(size: u64, usage: u32) -> Buffer {
    Buffer { size, usage, destroyed: false, initialization_status: InitTracker::new(size) }
}

fn rgba8() -> TextureFormat {
    TextureFormat {
        block_width: 1,
        block_height: 1,
        block_size: 4,
        sample_type: TextureSampleType::Float,
        aspects: ASPECT_COLOR,
    }
}

fn texture(format: TextureFormat, size: Extent3d, mips: u32, samples: u32, dim: TextureDimension) -> Texture {
    let desc = TextureDescriptor {
        size,
        mip_level_count: mips,
        sample_count: samples,
        dimension: dim,
        format,
        usage: TEXTURE_USAGE_COPY_DST,
    };
    let layers = if dim == TextureDimension::D3 { 1 } else { size.depth_or_array_layers };
    Texture {
        desc,
        full_range: TextureSelector {
            levels: SubRange { start: 0, end: mips },
            layers: SubRange { start: 0, end: layers },
        },
        destroyed: false,
    }
}

fn global_with_buffer(b: Buffer) -> Global {
    let mut g = Global::new();
    g.buffers.items.push(Some(b));
    g
}

fn global_with_texture(t: Texture) -> Global {
    let mut g = Global::new();
    g.textures.items.push(Some(t));
    g
}

fn full_range() -> ImageSubresourceRange {
    ImageSubresourceRange {
        aspect: TextureAspect::All,
        base_mip_level: 0,
        mip_level_count: None,
        base_array_layer: 0,
        array_layer_count: None,
    }
}

#[test]
fn clear_buffer_in_bounds_fills_once() {
    let g = global_with_buffer(buffer(64, BUFFER_USAGE_COPY_DST));
    let mut cb = encoder();
    assert_eq!(g.command_encoder_clear_buffer(&mut cb, 0, 8, Some(16)), Ok(()));
    assert_eq!(cb.raw, vec![NativeCommand::ClearBuffer { buffer: 0, start: 8, end: 24 }]);
    assert_eq!(
        cb.buffer_memory_init_actions,
        vec![MemoryInitAction { id: 0, start: 8, end: 24, kind: MemoryInitKind::ImplicitlyInitialized }]
    );
    let key = SubresourceKey { resource: 0, mip_level: 0, array_layer: 0 };
    assert_eq!(cb.buffer_trackers.get(key), Some(USE_COPY_DST));
}

#[test]
fn clear_buffer_to_end() {
    let g = global_with_buffer(buffer(64, BUFFER_USAGE_COPY_DST));
    let mut cb = encoder();
    assert_eq!(g.command_encoder_clear_buffer(&mut cb, 0, 48, None), Ok(()));
    assert_eq!(cb.raw, vec![NativeCommand::ClearBuffer { buffer: 0, start: 48, end: 64 }]);
}

#[test]
fn clear_buffer_of_nothing_does_nothing() {
    let g = global_with_buffer(buffer(64, BUFFER_USAGE_COPY_DST));
    let mut cb = encoder();
    assert_eq!(g.command_encoder_clear_buffer(&mut cb, 0, 16, Some(0)), Ok(()));
    assert_eq!(g.command_encoder_clear_buffer(&mut cb, 0, 64, None), Ok(()));
    assert!(cb.raw.is_empty());
    assert!(cb.buffer_memory_init_actions.is_empty());
    assert_eq!(cb.buffer_trackers.len(), 0);
}

#[test]
fn clear_buffer_misaligned_is_refused() {
    let g = global_with_buffer(buffer(64, BUFFER_USAGE_COPY_DST));
    let mut cb = encoder();
    assert_eq!(
        g.command_encoder_clear_buffer(&mut cb, 0, 2, Some(8)),
        Err(ClearError::UnalignedBufferOffset(2))
    );
    assert_eq!(
        g.command_encoder_clear_buffer(&mut cb, 0, 4, Some(6)),
        Err(ClearError::UnalignedFillSize(6))
    );
    assert!(cb.raw.is_empty());
    assert_eq!(cb.buffer_trackers.len(), 0);
}

#[test]
fn clear_buffer_errors() {
    let g = global_with_buffer(buffer(64, BUFFER_USAGE_COPY_DST));
    let mut cb = encoder();
    assert_eq!(
        g.command_encoder_clear_buffer(&mut cb, 0, 32, Some(64)),
        Err(ClearError::BufferOverrun { start_offset: 32, end_offset: 96, buffer_size: 64 })
    );
    assert_eq!(
        g.command_encoder_clear_buffer(&mut cb, 0, 68, None),
        Err(ClearError::BufferOverrun { start_offset: 68, end_offset: 64, buffer_size: 64 })
    );
    assert_eq!(g.command_encoder_clear_buffer(&mut cb, 5, 0, None), Err(ClearError::InvalidBuffer(5)));
    let g2 = global_with_buffer(buffer(64, 0));
    assert_eq!(
        g2.command_encoder_clear_buffer(&mut cb, 0, 0, None),
        Err(ClearError::MissingCopyDstUsageFlag(Some(0), None))
    );
    let mut no_feature = CommandBuffer::new(2, false, true, limits(), 256);
    assert_eq!(
        g.command_encoder_clear_buffer(&mut no_feature, 0, 0, None),
        Err(ClearError::MissingClearCommandsFeature)
    );
    let mut finished = encoder();
    finished.status = CommandEncoderStatus::Finished;
    assert_eq!(
        g.command_encoder_clear_buffer(&mut finished, 0, 0, None),
        Err(ClearError::InvalidCommandEncoder(1))
    );
    assert!(cb.raw.is_empty());
}

#[test]
fn clear_buffer_after_read_emits_barrier() {
    let g = global_with_buffer(buffer(64, BUFFER_USAGE_COPY_DST));
    let mut cb = encoder();
    let key = SubresourceKey { resource: 0, mip_level: 0, array_layer: 0 };
    cb.buffer_trackers.request(key, wgpu_core::track::USE_SAMPLED);
    assert_eq!(g.command_encoder_clear_buffer(&mut cb, 0, 0, Some(4)), Ok(()));
    assert_eq!(cb.raw.len(), 2);
    assert!(matches!(cb.raw[0], NativeCommand::TransitionBuffer(_)));
    assert_eq!(cb.raw[1], NativeCommand::ClearBuffer { buffer: 0, start: 0, end: 4 });
}

#[test]
fn init_tracker_marks_and_checks() {
    let mut t = InitTracker::new(64);
    assert!(t.check(0, 64));
    t.mark_initialized(8, 24);
    assert!(!t.check(8, 24));
    assert!(t.check(0, 9));
    assert!(t.check(20, 30));
    assert_eq!(t.create_action(3, 10, 20, MemoryInitKind::NeedsInitializedMemory), None);
    assert_eq!(
        t.create_action(3, 30, 40, MemoryInitKind::NeedsInitializedMemory),
        Some(MemoryInitAction { id: 3, start: 30, end: 40, kind: MemoryInitKind::NeedsInitializedMemory })
    );
}

#[test]
fn alignment_helpers() {
    assert_eq!(align_to(5, 4), 8);
    assert_eq!(align_to(8, 4), 8);
    assert_eq!(lowest_common_multiple(256, 12), 768);
    assert_eq!(lowest_common_multiple(256, 4), 256);
    assert_eq!(lowest_common_multiple(6, 4), 12);
}

#[test]
fn clear_texture_single_region() {
    let g = global_with_texture(texture(
        rgba8(),
        Extent3d { width: 4, height: 4, depth_or_array_layers: 1 },
        1,
        1,
        TextureDimension::D2,
    ));
    let mut cb = encoder();
    assert_eq!(g.command_encoder_clear_texture(&mut cb, 0, &full_range()), Ok(()));
    let region = BufferTextureCopy {
        bytes_per_row: 256,
        mip_level: 0,
        array_layer: 0,
        origin: Origin3d { x: 0, y: 0, z: 0 },
        size: CopyExtent { width: 4, height: 4, depth: 1 },
    };
    assert_eq!(cb.raw, vec![NativeCommand::CopyZeroBufferToTexture { texture: 0, regions: vec![region] }]);
    let key = SubresourceKey { resource: 0, mip_level: 0, array_layer: 0 };
    assert_eq!(cb.texture_trackers.get(key), Some(USE_COPY_DST));
}

#[test]
fn clear_texture_rejects_depth_and_multisampled() {
    let depth = TextureFormat {
        block_width: 1,
        block_height: 1,
        block_size: 4,
        sample_type: TextureSampleType::Depth,
        aspects: ASPECT_DEPTH,
    };
    let size = Extent3d { width: 4, height: 4, depth_or_array_layers: 1 };
    let g = global_with_texture(texture(depth, size, 1, 1, TextureDimension::D2));
    let mut cb = encoder();
    assert_eq!(
        g.command_encoder_clear_texture(&mut cb, 0, &full_range()),
        Err(ClearError::DepthStencilFormatNotSupported)
    );
    let g2 = global_with_texture(texture(rgba8(), size, 1, 4, TextureDimension::D2));
    assert_eq!(
        g2.command_encoder_clear_texture(&mut cb, 0, &full_range()),
        Err(ClearError::MultisampledTextureUnsupported)
    );
    let mut stencil_only = full_range();
    stencil_only.aspect = TextureAspect::StencilOnly;
    assert_eq!(
        g2.command_encoder_clear_texture(&mut cb, 0, &stencil_only),
        Err(ClearError::MissingTextureAspect {
            texture_format: rgba8(),
            subresource_range_aspects: TextureAspect::StencilOnly
        })
    );
    assert!(cb.raw.is_empty());
}

#[test]
fn clear_texture_out_of_range_reports_both_ranges() {
    let size = Extent3d { width: 16, height: 16, depth_or_array_layers: 2 };
    let g = global_with_texture(texture(rgba8(), size, 3, 1, TextureDimension::D2));
    let mut cb = encoder();
    let mut r = full_range();
    r.mip_level_count = Some(5);
    assert_eq!(
        g.command_encoder_clear_texture(&mut cb, 0, &r),
        Err(ClearError::InvalidTextureLevelRange {
            texture_level_range: SubRange { start: 0, end: 3 },
            subresource_base_mip_level: 0,
            subresource_mip_level_count: Some(5),
        })
    );
    let mut r = full_range();
    r.base_array_layer = 1;
    r.array_layer_count = Some(2);
    assert_eq!(
        g.command_encoder_clear_texture(&mut cb, 0, &r),
        Err(ClearError::InvalidTextureLayerRange {
            texture_layer_range: SubRange { start: 0, end: 2 },
            subresource_base_array_layer: 1,
            subresource_array_layer_count: Some(2),
        })
    );
    assert_eq!(g.command_encoder_clear_texture(&mut cb, 9, &full_range()), Err(ClearError::InvalidTexture(9)));
    assert!(cb.raw.is_empty());
}

#[test]
fn regions_split_rows_and_slices() {
    // 2048 texels of 16 bytes: 32768 bytes per row, 16 rows per copy.
    let wide = TextureFormat {
        block_width: 1,
        block_height: 1,
        block_size: 16,
        sample_type: TextureSampleType::Float,
        aspects: ASPECT_COLOR,
    };
    let desc = TextureDescriptor {
        size: Extent3d { width: 2048, height: 40, depth_or_array_layers: 2 },
        mip_level_count: 1,
        sample_count: 1,
        dimension: TextureDimension::D3,
        format: wide,
        usage: TEXTURE_USAGE_COPY_DST,
    };
    let plan = mip_copy_plan(&desc, 256, 0);
    assert_eq!(plan.bytes_per_row, 32768);
    assert_eq!(plan.max_rows_per_copy, 16);
    let mut out = Vec::new();
    let r = collect_zero_buffer_copies_for_clear_texture(
        &desc,
        256,
        SubRange { start: 0, end: 1 },
        SubRange { start: 0, end: 1 },
        &mut out,
    );
    assert_eq!(r, Ok(()));
    let ys: Vec<(u32, u32, u32)> = out.iter().map(|c| (c.origin.z, c.origin.y, c.size.height)).collect();
    assert_eq!(ys, vec![(0, 0, 16), (0, 16, 16), (0, 32, 8), (1, 0, 16), (1, 16, 16), (1, 32, 8)]);
    assert!(out.iter().all(|c| c.size.width == 2048 && c.size.depth == 1 && c.origin.x == 0));
}

#[test]
fn regions_round_to_blocks() {
    // 4x4 blocks of 16 bytes, 10x6 texels at mip 0: 3 blocks per row, 8 texel rows.
    let bc = TextureFormat {
        block_width: 4,
        block_height: 4,
        block_size: 16,
        sample_type: TextureSampleType::Float,
        aspects: ASPECT_COLOR,
    };
    let desc = TextureDescriptor {
        size: Extent3d { width: 10, height: 6, depth_or_array_layers: 1 },
        mip_level_count: 2,
        sample_count: 1,
        dimension: TextureDimension::D2,
        format: bc,
        usage: TEXTURE_USAGE_COPY_DST,
    };
    let plan = mip_copy_plan(&desc, 256, 0);
    assert_eq!((plan.width, plan.height, plan.bytes_per_row), (12, 8, 256));
    assert_eq!(plan.max_rows_per_copy, 2048);
    let plan1 = mip_copy_plan(&desc, 256, 1);
    assert_eq!((plan1.width, plan1.height), (8, 4));
}

#[test]
fn row_larger_than_scratch_buffer_fails() {
    let wide = TextureFormat {
        block_width: 1,
        block_height: 1,
        block_size: 16,
        sample_type: TextureSampleType::Float,
        aspects: ASPECT_COLOR,
    };
    let size = Extent3d { width: 65536, height: 2, depth_or_array_layers: 1 };
    let t = texture(wide, size, 1, 1, TextureDimension::D2);
    let mut out = Vec::new();
    let r = collect_zero_buffer_copies_for_clear_texture(
        &t.desc,
        256,
        SubRange { start: 0, end: 1 },
        SubRange { start: 0, end: 1 },
        &mut out,
    );
    assert_eq!(r, Err(ClearError::ZeroBufferTooSmall { mip_level: 0, bytes_per_row: 1048576 }));
    assert!(out.is_empty());
    let g = global_with_texture(t);
    let mut cb = encoder();
    assert_eq!(
        g.command_encoder_clear_texture(&mut cb, 0, &full_range()),
        Err(ClearError::ZeroBufferTooSmall { mip_level: 0, bytes_per_row: 1048576 })
    );
    assert!(cb.raw.is_empty());
    assert_eq!(cb.texture_trackers.len(), 0);
}

#[test]
fn clear_texture_records_initialisation() {
    let size = Extent3d { width: 4, height: 4, depth_or_array_layers: 2 };
    let g = global_with_texture(texture(rgba8(), size, 2, 1, TextureDimension::D2));
    let mut cb = encoder();
    let mut r = full_range();
    r.base_mip_level = 1;
    assert_eq!(g.command_encoder_clear_texture(&mut cb, 0, &r), Ok(()));
    let kind = MemoryInitKind::ImplicitlyInitialized;
    assert_eq!(
        cb.texture_memory_init_actions,
        vec![
            TextureInitAction { texture: 0, mip_level: 1, array_layer: 0, kind },
            TextureInitAction { texture: 0, mip_level: 1, array_layer: 1, kind },
        ]
    );
}

#[test]
fn clear_texture_base_past_end_is_refused() {
    let size = Extent3d { width: 4, height: 4, depth_or_array_layers: 2 };
    let g = global_with_texture(texture(rgba8(), size, 2, 1, TextureDimension::D2));
    let mut cb = encoder();
    let mut r = full_range();
    r.base_mip_level = 3;
    assert_eq!(
        g.command_encoder_clear_texture(&mut cb, 0, &r),
        Err(ClearError::InvalidTextureLevelRange {
            texture_level_range: SubRange { start: 0, end: 2 },
            subresource_base_mip_level: 3,
            subresource_mip_level_count: None,
        })
    );
    let mut r = full_range();
    r.base_array_layer = 5;
    assert_eq!(
        g.command_encoder_clear_texture(&mut cb, 0, &r),
        Err(ClearError::InvalidTextureLayerRange {
            texture_layer_range: SubRange { start: 0, end: 2 },
            subresource_base_array_layer: 5,
            subresource_array_layer_count: None,
        })
    );
    assert!(cb.raw.is_empty());
}

#[test]
fn clear_buffer_size_overflow_is_overrun() {
    let g = global_with_buffer(buffer(64, BUFFER_USAGE_COPY_DST));
    let mut cb = encoder();
    assert_eq!(
        g.command_encoder_clear_buffer(&mut cb, 0, 8, Some(u64::MAX - 3)),
        Err(ClearError::BufferOverrun { start_offset: 8, end_offset: u64::MAX, buffer_size: 64 })
    );
}
