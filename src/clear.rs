//! The clear engine: zero-filling buffer ranges, and texture subresources by copies
//! from the device's zero-filled scratch buffer.
use vstd::prelude::*;
use crate::command::{
    barrier_commands, push_barriers, BufferTextureCopy, CommandBuffer, CommandEncoderStatus,
    CopyExtent, NativeCommand, Origin3d,
};
use crate::hub::Global;
use crate::init_tracker::{MemoryInitAction, MemoryInitKind, TextureInitAction};
use crate::resource::{
    aspect_bits, spec_aspect_bits, SubRange, TextureAspect, TextureDescriptor, TextureDimension,
    TextureFormat, TextureSampleType, TextureSelector, BUFFER_USAGE_COPY_DST,
    TEXTURE_USAGE_COPY_DST,
};
use crate::track::{
    PendingTransition, request_outcome, requested_selector, selector_transitions, SubresourceKey, USE_COPY_DST,
};
use crate::{COPY_BUFFER_ALIGNMENT, ZERO_BUFFER_SIZE};

verus! {

/// Error encountered while attempting a clear.
#[derive(Clone, Copy, Debug, PartialEq, Eq, Structural)]
pub enum ClearError {
    MissingClearCommandsFeature,
    InvalidCommandEncoder(u64),
    InvalidDevice(u64),
    InvalidBuffer(u64),
    InvalidTexture(u64),
    UnalignedFillSize(u64),
    UnalignedBufferOffset(u64),
    BufferOverrun { start_offset: u64, end_offset: u64, buffer_size: u64 },
    MissingCopyDstUsageFlag(Option<u64>, Option<u64>),
    MissingTextureAspect { texture_format: TextureFormat, subresource_range_aspects: TextureAspect },
    DepthStencilFormatNotSupported,
    MultisampledTextureUnsupported,
    InvalidTextureLevelRange {
        texture_level_range: SubRange,
        subresource_base_mip_level: u32,
        subresource_mip_level_count: Option<u32>,
    },
    InvalidTextureLayerRange {
        texture_layer_range: SubRange,
        subresource_base_array_layer: u32,
        subresource_array_layer_count: Option<u32>,
    },
    /// The scratch buffer cannot hold one block row of mip `mip_level`, whose rows take
    /// `bytes_per_row` bytes.
    ZeroBufferTooSmall { mip_level: u32, bytes_per_row: u64 },
}

/// The subresources of a texture that a clear addresses. A missing count means "up to the
/// end of the texture".
#[derive(Clone, Copy, Debug, PartialEq, Eq, Structural)]
pub struct ImageSubresourceRange {
    pub aspect: TextureAspect,
    pub base_mip_level: u32,
    pub mip_level_count: Option<u32>,
    pub base_array_layer: u32,
    pub array_layer_count: Option<u32>,
}

/// The tracker key of a whole buffer.
pub open spec fn buffer_key(id: u64) -> SubresourceKey {
    SubresourceKey { resource: id, mip_level: 0, array_layer: 0 }
}

/// Where a buffer clear ends: `offset + size`, or the end of the buffer.
pub open spec fn spec_clear_end(offset: u64, size: Option<u64>, buffer_size: u64) -> int {
    match size {
        Some(s) => offset + s,
        None => buffer_size as int,
    }
}

/// The error of a buffer clear, if it has one, in the order the checks are made.
pub open spec fn clear_buffer_error(
    cb: &CommandBuffer,
    g: &Global,
    dst: u64,
    offset: u64,
    size: Option<u64>,
) -> Option<ClearError> {
    if cb.status != CommandEncoderStatus::Recording {
        Some(ClearError::InvalidCommandEncoder(cb.id))
    } else if !cb.support_clear_buffer_texture {
        Some(ClearError::MissingClearCommandsFeature)
    } else {
        match g.buffers.spec_get(dst) {
            None => Some(ClearError::InvalidBuffer(dst)),
            Some(b) => if b.destroyed {
                Some(ClearError::InvalidBuffer(dst))
            } else if b.usage & BUFFER_USAGE_COPY_DST == 0 {
                Some(ClearError::MissingCopyDstUsageFlag(Some(dst), None))
            } else if offset % COPY_BUFFER_ALIGNMENT != 0 {
                Some(ClearError::UnalignedBufferOffset(offset))
            } else {
                match size {
                    Some(s) => if s % COPY_BUFFER_ALIGNMENT != 0 {
                        Some(ClearError::UnalignedFillSize(s))
                    } else if offset + s > b.size {
                        Some(
                            ClearError::BufferOverrun {
                                start_offset: offset,
                                end_offset: if offset + s <= u64::MAX {
                                    (offset + s) as u64
                                } else {
                                    u64::MAX
                                },
                                buffer_size: b.size,
                            },
                        )
                    } else {
                        None
                    },
                    None => if offset > b.size {
                        Some(
                            ClearError::BufferOverrun {
                                start_offset: offset,
                                end_offset: b.size,
                                buffer_size: b.size,
                            },
                        )
                    } else {
                        None
                    },
                }
            },
        }
    }
}

/// Where a texture clear's mip levels end: base plus count, or the texture's last level.
pub open spec fn spec_level_end(r: ImageSubresourceRange, full: TextureSelector) -> int {
    match r.mip_level_count {
        Some(c) => r.base_mip_level + c,
        None => full.levels.end as int,
    }
}

/// Where a texture clear's array layers end: base plus count, or the texture's last layer.
pub open spec fn spec_layer_end(r: ImageSubresourceRange, full: TextureSelector) -> int {
    match r.array_layer_count {
        Some(c) => r.base_array_layer + c,
        None => full.layers.end as int,
    }
}

/// The subresources that a valid texture clear addresses.
pub open spec fn spec_clear_selector(r: ImageSubresourceRange, full: TextureSelector) -> TextureSelector {
    TextureSelector {
        levels: SubRange { start: r.base_mip_level, end: spec_level_end(r, full) as u32 },
        layers: SubRange { start: r.base_array_layer, end: spec_layer_end(r, full) as u32 },
    }
}

/// The error of a texture clear, if it has one, in the order the checks are made.
pub open spec fn clear_texture_error(
    cb: &CommandBuffer,
    g: &Global,
    dst: u64,
    r: ImageSubresourceRange,
) -> Option<ClearError> {
    if cb.status != CommandEncoderStatus::Recording {
        Some(ClearError::InvalidCommandEncoder(cb.id))
    } else if !cb.support_clear_buffer_texture {
        Some(ClearError::MissingClearCommandsFeature)
    } else {
        match g.textures.spec_get(dst) {
            None => Some(ClearError::InvalidTexture(dst)),
            Some(t) => if t.desc.format.aspects & spec_aspect_bits(r.aspect) == 0 {
                Some(
                    ClearError::MissingTextureAspect {
                        texture_format: t.desc.format,
                        subresource_range_aspects: r.aspect,
                    },
                )
            } else if t.desc.format.sample_type == TextureSampleType::Depth {
                Some(ClearError::DepthStencilFormatNotSupported)
            } else if t.desc.sample_count > 1 {
                Some(ClearError::MultisampledTextureUnsupported)
            } else if t.full_range.levels.start > r.base_mip_level || r.base_mip_level
                > t.full_range.levels.end || t.full_range.levels.end < spec_level_end(r, t.full_range) {
                Some(
                    ClearError::InvalidTextureLevelRange {
                        texture_level_range: t.full_range.levels,
                        subresource_base_mip_level: r.base_mip_level,
                        subresource_mip_level_count: r.mip_level_count,
                    },
                )
            } else if t.full_range.layers.start > r.base_array_layer || r.base_array_layer
                > t.full_range.layers.end || t.full_range.layers.end
                < spec_layer_end(r, t.full_range) {
                Some(
                    ClearError::InvalidTextureLayerRange {
                        texture_layer_range: t.full_range.layers,
                        subresource_base_array_layer: r.base_array_layer,
                        subresource_array_layer_count: r.array_layer_count,
                    },
                )
            } else if t.destroyed {
                Some(ClearError::InvalidTexture(dst))
            } else if t.desc.usage & TEXTURE_USAGE_COPY_DST == 0 {
                Some(ClearError::MissingCopyDstUsageFlag(None, Some(dst)))
            } else {
                let sel = spec_clear_selector(r, t.full_range);
                match spec_first_unfit(t.desc, cb.buffer_copy_pitch, sel.levels.start as int, sel.levels) {
                    Some(m) => Some(
                        ClearError::ZeroBufferTooSmall {
                            mip_level: m,
                            bytes_per_row: spec_mip_copy_plan(
                                t.desc,
                                cb.buffer_copy_pitch,
                                m,
                            ).bytes_per_row,
                        },
                    ),
                    None => None,
                }
            },
        }
    }
}

/// `c` copies `regions` from the scratch buffer into texture `texture`.
pub open spec fn is_zero_copy(c: NativeCommand, texture: u64, regions: Seq<BufferTextureCopy>) -> bool {
    match c {
        NativeCommand::CopyZeroBufferToTexture { texture: t, regions: rs } => t == texture && rs@
            == regions,
        _ => false,
    }
}

/// The native commands of a texture clear after `before`: the barriers `ts`, then one
/// copy of `regions`, or none where there is no region.
pub open spec fn texture_clear_commands(
    before: Seq<NativeCommand>,
    after: Seq<NativeCommand>,
    ts: Seq<PendingTransition>,
    texture: u64,
    regions: Seq<BufferTextureCopy>,
) -> bool {
    if regions.len() == 0 {
        after == before + barrier_commands(ts, true)
    } else {
        &&& after.len() == before.len() + ts.len() + 1
        &&& after.drop_last() == before + barrier_commands(ts, true)
        &&& is_zero_copy(after.last(), texture, regions)
    }
}

/// The records that subresources `layer..end` of mip `mip` of texture `texture` are
/// initialised by a clear.
pub open spec fn layer_init_actions(texture: u64, mip: u32, layer: int, end: int) -> Seq<
    TextureInitAction,
>
    decreases end - layer,
{
    if layer >= end || layer < 0 {
        Seq::empty()
    } else {
        seq![
            TextureInitAction {
                texture,
                mip_level: mip,
                array_layer: layer as u32,
                kind: MemoryInitKind::ImplicitlyInitialized,
            },
        ] + layer_init_actions(texture, mip, layer + 1, end)
    }
}

/// The records that every subresource of `sel` from mip `mip` on, of texture `texture`,
/// is initialised by a clear, mip by mip.
pub open spec fn clear_init_actions(texture: u64, sel: TextureSelector, mip: int) -> Seq<
    TextureInitAction,
>
    decreases sel.levels.end - mip,
{
    if mip >= sel.levels.end || mip < 0 {
        Seq::empty()
    } else {
        layer_init_actions(texture, mip as u32, sel.layers.start as int, sel.layers.end as int)
            + clear_init_actions(texture, sel, mip + 1)
    }
}

fn push_init_actions(texture: u64, sel: TextureSelector, out: &mut Vec<TextureInitAction>)
    ensures
        final(out)@ == old(out)@ + clear_init_actions(texture, sel, sel.levels.start as int),
{
    let ghost base = out@;
    let mut mip = sel.levels.start;
    while mip < sel.levels.end
        invariant
            mip >= sel.levels.start,
            out@ + clear_init_actions(texture, sel, mip as int) == base + clear_init_actions(
                texture,
                sel,
                sel.levels.start as int,
            ),
        decreases sel.levels.end - mip,
    {
        let ghost before = out@;
        let mut layer = sel.layers.start;
        while layer < sel.layers.end
            invariant
                layer >= sel.layers.start,
                out@ + layer_init_actions(texture, mip, layer as int, sel.layers.end as int)
                    == before + layer_init_actions(
                    texture,
                    mip,
                    sel.layers.start as int,
                    sel.layers.end as int,
                ),
            decreases sel.layers.end - layer,
        {
            let a = TextureInitAction {
                texture,
                mip_level: mip,
                array_layer: layer,
                kind: MemoryInitKind::ImplicitlyInitialized,
            };
            let ghost b2 = out@;
            out.push(a);
            proof {
                let rest = layer_init_actions(texture, mip, layer + 1, sel.layers.end as int);
                assert(layer_init_actions(texture, mip, layer as int, sel.layers.end as int)
                    == seq![a] + rest);
                assert(b2 + (seq![a] + rest) =~= out@ + rest);
            }
            layer = layer + 1;
        }
        proof {
            let c = layer_init_actions(
                texture,
                mip,
                sel.layers.start as int,
                sel.layers.end as int,
            );
            let rest = clear_init_actions(texture, sel, mip + 1);
            assert(out@ + Seq::<TextureInitAction>::empty() =~= out@);
            assert(before + (c + rest) =~= (before + c) + rest);
        }
        mip = mip + 1;
    }
    proof {
        assert(out@ + Seq::<TextureInitAction>::empty() =~= out@);
    }
}

/// `x` rounded up to a multiple of `a`.
pub open spec fn spec_align_to(x: int, a: int) -> int {
    if a <= 0 || x % a == 0 {
        x
    } else {
        x - x % a + a
    }
}

/// `a * k` for the least `k` from `k` on such that `b` divides it (`b` always divides
/// `a * b`).
pub open spec fn spec_lcm_from(a: nat, b: nat, k: nat) -> nat
    decreases b - k,
{
    if k >= b || (a * k) % b == 0 {
        a * k
    } else {
        spec_lcm_from(a, b, k + 1)
    }
}

/// The least common multiple of two positive numbers: the least positive multiple of
/// `a` that `b` divides.
pub open spec fn spec_lcm(a: nat, b: nat) -> nat {
    spec_lcm_from(a, b, 1)
}

/// `x` rounded up to a multiple of `a`.
pub fn align_to(x: u64, a: u64) -> (r: u64)
    requires
        a >= 1,
        x + a <= u64::MAX,
    ensures
        r == spec_align_to(x as int, a as int),
        x <= r < x + a,
        r % a == 0,
{
    let rem = x % a;
    if rem == 0 {
        x
    } else {
        assert((x + (a - rem)) as int % a as int == 0) by (nonlinear_arith)
            requires
                rem == x % a,
                a >= 1,
        ;
        x + (a - rem)
    }
}

proof fn lemma_lcm_bounds(a: nat, b: nat, k: nat)
    requires
        a >= 1,
        b >= 1,
        1 <= k <= b,
    ensures
        a <= spec_lcm_from(a, b, k) <= a * b,
    decreases b - k,
{
    assert(a <= a * k <= a * b) by (nonlinear_arith)
        requires
            a >= 1,
            1 <= k <= b,
    ;
    if k < b && (a * k) % b != 0 {
        lemma_lcm_bounds(a, b, k + 1);
    }
}

/// The least common multiple of `a` and `b`.
pub fn lowest_common_multiple(a: u32, b: u32) -> (r: u64)
    requires
        a >= 1,
        b >= 1,
    ensures
        r == spec_lcm(a as nat, b as nat),
        a <= r <= a * b,
{
    proof {
        lemma_lcm_bounds(a as nat, b as nat, 1);
        assert(a as int * b as int <= 0xFFFF_FFFF * 0xFFFF_FFFF) by (nonlinear_arith)
            requires
                a <= 0xFFFF_FFFF,
                b <= 0xFFFF_FFFF,
        ;
    }
    let mut k: u64 = 1;
    assert(a as int * k as int <= a as int * b as int) by (nonlinear_arith)
        requires
            k <= b,
    ;
    while k < b as u64 && (a as u64 * k) % (b as u64) != 0
        invariant
            1 <= k <= b,
            a as int * b as int <= 0xFFFF_FFFF * 0xFFFF_FFFF,
            a as int * k as int <= a as int * b as int,
            spec_lcm_from(a as nat, b as nat, k as nat) == spec_lcm(a as nat, b as nat),
        decreases b - k,
    {
        k = k + 1;
        assert(a as int * k as int <= a as int * b as int) by (nonlinear_arith)
            requires
                k <= b,
        ;
    }
    a as u64 * k
}

/// How mip `mip` of a texture is cleared: its size rounded up to whole blocks, the
/// number of depth slices copied one at a time, the padded row pitch, and how many
/// texel rows fit in the scratch buffer (a multiple of the block height).
#[derive(Clone, Copy, Debug, PartialEq, Eq, Structural)]
pub struct MipCopyPlan {
    pub width: u32,
    pub height: u32,
    pub depth: u32,
    pub bytes_per_row: u64,
    pub max_rows_per_copy: u32,
}

pub open spec fn spec_mip_copy_plan(desc: TextureDescriptor, pitch: u32, mip: u32) -> MipCopyPlan {
    let f = desc.format;
    let size = desc.spec_mip_level_size(mip);
    let width = spec_align_to(size.width as int, f.block_width as int);
    let height = spec_align_to(size.height as int, f.block_height as int);
    let row_alignment = spec_lcm(pitch as nat, f.block_size as nat);
    let bytes_per_row = spec_align_to(
        width / (f.block_width as int) * (f.block_size as int),
        row_alignment as int,
    );
    let rows = ZERO_BUFFER_SIZE as int / bytes_per_row;
    MipCopyPlan {
        width: width as u32,
        height: height as u32,
        depth: if desc.dimension == TextureDimension::D3 {
            size.depth_or_array_layers
        } else {
            1
        },
        bytes_per_row: bytes_per_row as u64,
        max_rows_per_copy: (rows / (f.block_height as int) * (f.block_height as int)) as u32,
    }
}

/// The plan for clearing mip `mip`.
pub fn mip_copy_plan(desc: &TextureDescriptor, pitch: u32, mip: u32) -> (r: MipCopyPlan)
    requires
        desc.wf(),
        1 <= pitch,
        mip < desc.mip_level_count,
    ensures
        r == spec_mip_copy_plan(*desc, pitch, mip),
        r.height >= 1,
        r.bytes_per_row >= 1,
{
    let f = desc.format;
    let size = desc.mip_level_size(mip);
    let bw = f.block_width as u64;
    let bh = f.block_height as u64;
    let bs = f.block_size as u64;
    let width = align_to(size.width as u64, bw);
    let height = align_to(size.height as u64, bh);
    let row_alignment = lowest_common_multiple(pitch, f.block_size as u32);
    let blocks = width / bw;
    assert(blocks <= width);
    assert(blocks * bs <= 65552 * 16) by (nonlinear_arith)
        requires
            blocks <= width,
            width < 65536 + 16,
            bs <= 16,
    ;
    assert(row_alignment <= 0xFFFF_FFFF * 16) by (nonlinear_arith)
        requires
            row_alignment <= pitch * bs,
            pitch <= 0xFFFF_FFFF,
            bs <= 16,
    ;
    let unpadded = blocks * bs;
    let bytes_per_row = align_to(unpadded, row_alignment);
    assert(blocks >= 1) by (nonlinear_arith)
        requires
            width % bw == 0,
            width >= 1,
            bw >= 1,
            blocks == width / bw,
    ;
    assert(unpadded >= 1) by (nonlinear_arith)
        requires
            unpadded == blocks * bs,
            blocks >= 1,
            bs >= 1,
    ;
    let rows = ZERO_BUFFER_SIZE / bytes_per_row;
    assert(rows / bh * bh <= rows) by (nonlinear_arith)
        requires
            bh >= 1,
    ;
    let max_rows = rows / bh * bh;
    MipCopyPlan {
        width: width as u32,
        height: height as u32,
        depth: if desc.dimension == TextureDimension::D3 {
            size.depth_or_array_layers
        } else {
            1
        },
        bytes_per_row,
        max_rows_per_copy: max_rows as u32,
    }
}

/// The copy region of `rows` texel rows from row `y` of one slice.
pub open spec fn spec_region(plan: MipCopyPlan, mip: u32, layer: u32, z: u32, y: int, rows: int) -> BufferTextureCopy {
    BufferTextureCopy {
        bytes_per_row: plan.bytes_per_row as u32,
        mip_level: mip,
        array_layer: layer,
        origin: Origin3d { x: 0, y: y as u32, z },
        size: CopyExtent { width: plan.width, height: rows as u32, depth: 1 },
    }
}

/// The regions for the last `left` rows of one slice: consecutive chunks of at most
/// `max_rows_per_copy` rows each.
pub open spec fn spec_chunk_regions(plan: MipCopyPlan, mip: u32, layer: u32, z: u32, left: nat) -> Seq<
    BufferTextureCopy,
>
    decreases left,
{
    if left == 0 || plan.max_rows_per_copy == 0 {
        Seq::empty()
    } else {
        let n: nat = if left < plan.max_rows_per_copy {
            left
        } else {
            plan.max_rows_per_copy as nat
        };
        seq![spec_region(plan, mip, layer, z, plan.height - left, n as int)] + spec_chunk_regions(
            plan,
            mip,
            layer,
            z,
            (left - n) as nat,
        )
    }
}

/// The regions for slices `z..depth` of one array layer.
pub open spec fn spec_slice_regions(plan: MipCopyPlan, mip: u32, layer: u32, z: int) -> Seq<
    BufferTextureCopy,
>
    decreases plan.depth - z,
{
    if z >= plan.depth || z < 0 {
        Seq::empty()
    } else {
        spec_chunk_regions(plan, mip, layer, z as u32, plan.height as nat) + spec_slice_regions(
            plan,
            mip,
            layer,
            z + 1,
        )
    }
}

/// The regions for array layers `layer..end` of one mip.
pub open spec fn spec_layer_regions(plan: MipCopyPlan, mip: u32, layer: int, end: int) -> Seq<
    BufferTextureCopy,
>
    decreases end - layer,
{
    if layer >= end || layer < 0 {
        Seq::empty()
    } else {
        spec_slice_regions(plan, mip, layer as u32, 0) + spec_layer_regions(plan, mip, layer + 1, end)
    }
}

/// The regions for mips `mip..mips.end` and layers `layers` of a texture.
pub open spec fn spec_clear_regions(
    desc: TextureDescriptor,
    pitch: u32,
    mip: int,
    mips: SubRange,
    layers: SubRange,
) -> Seq<BufferTextureCopy>
    decreases mips.end - mip,
{
    if mip >= mips.end || mip < 0 {
        Seq::empty()
    } else {
        spec_layer_regions(
            spec_mip_copy_plan(desc, pitch, mip as u32),
            mip as u32,
            layers.start as int,
            layers.end as int,
        ) + spec_clear_regions(desc, pitch, mip + 1, mips, layers)
    }
}

/// The first mip of `mips` from `mip` on whose block row does not fit the scratch buffer.
pub open spec fn spec_first_unfit(desc: TextureDescriptor, pitch: u32, mip: int, mips: SubRange) -> Option<
    u32,
>
    decreases mips.end - mip,
{
    if mip >= mips.end || mip < 0 {
        None
    } else if spec_mip_copy_plan(desc, pitch, mip as u32).max_rows_per_copy == 0 {
        Some(mip as u32)
    } else {
        spec_first_unfit(desc, pitch, mip + 1, mips)
    }
}

fn push_chunk_regions(
    plan: MipCopyPlan,
    mip: u32,
    layer: u32,
    z: u32,
    out: &mut Vec<BufferTextureCopy>,
)
    requires
        plan.max_rows_per_copy >= 1,
    ensures
        final(out)@ == old(out)@ + spec_chunk_regions(plan, mip, layer, z, plan.height as nat),
{
    let ghost base = out@;
    let mut left = plan.height;
    while left > 0
        invariant
            plan.max_rows_per_copy >= 1,
            left <= plan.height,
            out@ + spec_chunk_regions(plan, mip, layer, z, left as nat) == base
                + spec_chunk_regions(plan, mip, layer, z, plan.height as nat),
        decreases left,
    {
        let n = if left < plan.max_rows_per_copy {
            left
        } else {
            plan.max_rows_per_copy
        };
        let region = BufferTextureCopy {
            bytes_per_row: plan.bytes_per_row as u32,
            mip_level: mip,
            array_layer: layer,
            origin: Origin3d { x: 0, y: plan.height - left, z },
            size: CopyExtent { width: plan.width, height: n, depth: 1 },
        };
        let ghost before = out@;
        out.push(region);
        proof {
            let rest = spec_chunk_regions(plan, mip, layer, z, (left - n) as nat);
            assert(region == spec_region(plan, mip, layer, z, plan.height - left, n as int));
            assert(spec_chunk_regions(plan, mip, layer, z, left as nat) == seq![region] + rest);
            assert(before + (seq![region] + rest) =~= out@ + rest);
        }
        left = left - n;
    }
    proof {
        assert(out@ + Seq::<BufferTextureCopy>::empty() =~= out@);
    }
}

fn push_layer_regions(
    plan: MipCopyPlan,
    mip: u32,
    layer: u32,
    out: &mut Vec<BufferTextureCopy>,
)
    requires
        plan.max_rows_per_copy >= 1,
    ensures
        final(out)@ == old(out)@ + spec_slice_regions(plan, mip, layer, 0),
{
    let ghost base = out@;
    let mut z: u32 = 0;
    while z < plan.depth
        invariant
            plan.max_rows_per_copy >= 1,
            z <= plan.depth,
            out@ + spec_slice_regions(plan, mip, layer, z as int) == base + spec_slice_regions(
                plan,
                mip,
                layer,
                0,
            ),
        decreases plan.depth - z,
    {
        let ghost before = out@;
        push_chunk_regions(plan, mip, layer, z, out);
        proof {
            let c = spec_chunk_regions(plan, mip, layer, z, plan.height as nat);
            let rest = spec_slice_regions(plan, mip, layer, z + 1);
            assert(spec_slice_regions(plan, mip, layer, z as int) == c + rest);
            assert(before + (c + rest) =~= (before + c) + rest);
        }
        z = z + 1;
    }
    proof {
        assert(out@ + Seq::<BufferTextureCopy>::empty() =~= out@);
    }
}

/// Appends to `out_copy_regions` the copy regions that zero mips `mip_range` and layers
/// `layer_range` of a texture from the scratch buffer. Where some mip of the range cannot
/// fit one block row in the scratch buffer, nothing is appended and the first such mip
/// is reported.
pub fn collect_zero_buffer_copies_for_clear_texture(
    texture_desc: &TextureDescriptor,
    buffer_copy_pitch: u32,
    mip_range: SubRange,
    layer_range: SubRange,
    out_copy_regions: &mut Vec<BufferTextureCopy>,
) -> (r: Result<(), ClearError>)
    requires
        texture_desc.wf(),
        1 <= buffer_copy_pitch,
        mip_range.end <= texture_desc.mip_level_count,
    ensures
        match spec_first_unfit(*texture_desc, buffer_copy_pitch, mip_range.start as int, mip_range) {
            None => r is Ok && final(out_copy_regions)@ == old(out_copy_regions)@
                + spec_clear_regions(
                *texture_desc,
                buffer_copy_pitch,
                mip_range.start as int,
                mip_range,
                layer_range,
            ),
            Some(m) => r == Err::<(), ClearError>(
                ClearError::ZeroBufferTooSmall {
                    mip_level: m,
                    bytes_per_row: spec_mip_copy_plan(
                        *texture_desc,
                        buffer_copy_pitch,
                        m,
                    ).bytes_per_row,
                },
            ) && final(out_copy_regions)@ == old(out_copy_regions)@,
        },
{
    let mut mip = mip_range.start;
    while mip < mip_range.end
        invariant
            texture_desc.wf(),
            1 <= buffer_copy_pitch,
            mip_range.end <= texture_desc.mip_level_count,
            mip >= mip_range.start,
            spec_first_unfit(*texture_desc, buffer_copy_pitch, mip_range.start as int, mip_range)
                == spec_first_unfit(*texture_desc, buffer_copy_pitch, mip as int, mip_range),
        decreases mip_range.end - mip,
    {
        let plan = mip_copy_plan(texture_desc, buffer_copy_pitch, mip);
        if plan.max_rows_per_copy == 0 {
            return Err(
                ClearError::ZeroBufferTooSmall { mip_level: mip, bytes_per_row: plan.bytes_per_row },
            );
        }
        mip = mip + 1;
    }
    let ghost base = out_copy_regions@;
    let mut mip = mip_range.start;
    while mip < mip_range.end
        invariant
            texture_desc.wf(),
            1 <= buffer_copy_pitch,
            mip_range.end <= texture_desc.mip_level_count,
            mip >= mip_range.start,
            spec_first_unfit(*texture_desc, buffer_copy_pitch, mip as int, mip_range) is None,
            out_copy_regions@ + spec_clear_regions(
                *texture_desc,
                buffer_copy_pitch,
                mip as int,
                mip_range,
                layer_range,
            ) == base + spec_clear_regions(
                *texture_desc,
                buffer_copy_pitch,
                mip_range.start as int,
                mip_range,
                layer_range,
            ),
        decreases mip_range.end - mip,
    {
        let plan = mip_copy_plan(texture_desc, buffer_copy_pitch, mip);
        let ghost before = out_copy_regions@;
        let mut layer = layer_range.start;
        while layer < layer_range.end
            invariant
                plan.max_rows_per_copy >= 1,
                layer >= layer_range.start,
                out_copy_regions@ + spec_layer_regions(
                    plan,
                    mip,
                    layer as int,
                    layer_range.end as int,
                ) == before + spec_layer_regions(
                    plan,
                    mip,
                    layer_range.start as int,
                    layer_range.end as int,
                ),
            decreases layer_range.end - layer,
        {
            let ghost b2 = out_copy_regions@;
            push_layer_regions(plan, mip, layer, out_copy_regions);
            proof {
                let c = spec_slice_regions(plan, mip, layer, 0);
                let rest = spec_layer_regions(plan, mip, layer + 1, layer_range.end as int);
                assert(spec_layer_regions(plan, mip, layer as int, layer_range.end as int) == c
                    + rest);
                assert(b2 + (c + rest) =~= (b2 + c) + rest);
            }
            layer = layer + 1;
        }
        proof {
            let c = spec_layer_regions(
                plan,
                mip,
                layer_range.start as int,
                layer_range.end as int,
            );
            let rest = spec_clear_regions(
                *texture_desc,
                buffer_copy_pitch,
                mip + 1,
                mip_range,
                layer_range,
            );
            assert(out_copy_regions@ + Seq::<BufferTextureCopy>::empty() =~= out_copy_regions@);
            assert(before + (c + rest) =~= (before + c) + rest);
        }
        mip = mip + 1;
    }
    proof {
        assert(out_copy_regions@ + Seq::<BufferTextureCopy>::empty() =~= out_copy_regions@);
    }
    Ok(())
}

impl Global {
    /// Zero-fills bytes `offset..offset + size` of buffer `dst` (to the end of the buffer
    /// where `size` is missing). A clear of no bytes changes nothing; otherwise the buffer
    /// is tracked as a copy destination, the range is recorded as initialised, and the
    /// barrier, if one is needed, then one fill command are emitted.
    pub fn command_encoder_clear_buffer(
        &self,
        cmd_buf: &mut CommandBuffer,
        dst: u64,
        offset: u64,
        size: Option<u64>,
    ) -> (r: Result<(), ClearError>)
        requires
            old(cmd_buf).wf(),
        ensures
            final(cmd_buf).wf(),
            final(cmd_buf).same_setup(old(cmd_buf)),
            match clear_buffer_error(old(cmd_buf), self, dst, offset, size) {
                Some(e) => r == Err::<(), ClearError>(e) && *final(cmd_buf) == *old(cmd_buf),
                None => {
                    let b = self.buffers.spec_get(dst)->Some_0;
                    let end = spec_clear_end(offset, size, b.size);
                    let (tracked_after, t) = request_outcome(
                        old(cmd_buf).buffer_trackers@,
                        buffer_key(dst),
                        USE_COPY_DST,
                    );
                    &&& r is Ok
                    &&& end == offset ==> *final(cmd_buf) == *old(cmd_buf)
                    &&& end != offset ==> {
                        &&& final(cmd_buf).buffer_trackers@ == tracked_after
                        &&& final(cmd_buf).texture_trackers == old(cmd_buf).texture_trackers
                        &&& final(cmd_buf).texture_memory_init_actions == old(
                            cmd_buf,
                        ).texture_memory_init_actions
                        &&& final(cmd_buf).buffer_memory_init_actions@ == old(
                            cmd_buf,
                        ).buffer_memory_init_actions@ + if b.initialization_status.needs_init(
                            offset as int,
                            end,
                        ) {
                            seq![
                                MemoryInitAction {
                                    id: dst,
                                    start: offset,
                                    end: end as u64,
                                    kind: MemoryInitKind::ImplicitlyInitialized,
                                },
                            ]
                        } else {
                            Seq::empty()
                        }
                        &&& final(cmd_buf).raw@ == old(cmd_buf).raw@ + match t {
                            Some(t) => seq![NativeCommand::TransitionBuffer(t)],
                            None => Seq::empty(),
                        } + seq![
                            NativeCommand::ClearBuffer {
                                buffer: dst,
                                start: offset,
                                end: end as u64,
                            },
                        ]
                    }
                },
            },
    {
        if cmd_buf.status != CommandEncoderStatus::Recording {
            return Err(ClearError::InvalidCommandEncoder(cmd_buf.id));
        }
        if !cmd_buf.support_clear_buffer_texture {
            return Err(ClearError::MissingClearCommandsFeature);
        }
        let dst_buffer = match self.buffers.get(dst) {
            Some(b) => b,
            None => {
                return Err(ClearError::InvalidBuffer(dst));
            },
        };
        if dst_buffer.destroyed {
            return Err(ClearError::InvalidBuffer(dst));
        }
        if dst_buffer.usage & BUFFER_USAGE_COPY_DST == 0 {
            return Err(ClearError::MissingCopyDstUsageFlag(Some(dst), None));
        }
        if offset % COPY_BUFFER_ALIGNMENT != 0 {
            return Err(ClearError::UnalignedBufferOffset(offset));
        }
        let end = match size {
            Some(s) => {
                if s % COPY_BUFFER_ALIGNMENT != 0 {
                    return Err(ClearError::UnalignedFillSize(s));
                }
                if s > u64::MAX - offset {
                    return Err(
                        ClearError::BufferOverrun {
                            start_offset: offset,
                            end_offset: u64::MAX,
                            buffer_size: dst_buffer.size,
                        },
                    );
                }
                let destination_end_offset = offset + s;
                if destination_end_offset > dst_buffer.size {
                    return Err(
                        ClearError::BufferOverrun {
                            start_offset: offset,
                            end_offset: destination_end_offset,
                            buffer_size: dst_buffer.size,
                        },
                    );
                }
                destination_end_offset
            },
            None => {
                if offset > dst_buffer.size {
                    return Err(
                        ClearError::BufferOverrun {
                            start_offset: offset,
                            end_offset: dst_buffer.size,
                            buffer_size: dst_buffer.size,
                        },
                    );
                }
                dst_buffer.size
            },
        };
        if offset == end {
            return Ok(());
        }
        let key = SubresourceKey { resource: dst, mip_level: 0, array_layer: 0 };
        let pending = cmd_buf.buffer_trackers.request(key, USE_COPY_DST);
        match dst_buffer.initialization_status.create_action(
            dst,
            offset,
            end,
            MemoryInitKind::ImplicitlyInitialized,
        ) {
            Some(action) => {
                cmd_buf.buffer_memory_init_actions.push(action);
            },
            None => {},
        }
        match pending {
            Some(t) => {
                cmd_buf.raw.push(NativeCommand::TransitionBuffer(t));
            },
            None => {},
        }
        cmd_buf.raw.push(NativeCommand::ClearBuffer { buffer: dst, start: offset, end });
        Ok(())
    }

    /// Zeroes the subresources `subresource_range` of texture `dst` with copies from the
    /// scratch buffer. On success the subresources are tracked as copy destinations, and
    /// the barriers they need, then one copy of the synthesised regions (none where there
    /// is no region) are emitted.
    pub fn command_encoder_clear_texture(
        &self,
        cmd_buf: &mut CommandBuffer,
        dst: u64,
        subresource_range: &ImageSubresourceRange,
    ) -> (r: Result<(), ClearError>)
        requires
            old(cmd_buf).wf(),
            self.wf(),
        ensures
            final(cmd_buf).wf(),
            final(cmd_buf).same_setup(old(cmd_buf)),
            match clear_texture_error(old(cmd_buf), self, dst, *subresource_range) {
                Some(e) => r == Err::<(), ClearError>(e) && *final(cmd_buf) == *old(cmd_buf),
                None => {
                    let t = self.textures.spec_get(dst)->Some_0;
                    let sel = spec_clear_selector(*subresource_range, t.full_range);
                    &&& r is Ok
                    &&& final(cmd_buf).texture_trackers@ == requested_selector(
                        old(cmd_buf).texture_trackers@,
                        dst,
                        sel,
                        USE_COPY_DST,
                    )
                    &&& final(cmd_buf).buffer_trackers == old(cmd_buf).buffer_trackers
                    &&& final(cmd_buf).buffer_memory_init_actions == old(
                        cmd_buf,
                    ).buffer_memory_init_actions
                    &&& final(cmd_buf).texture_memory_init_actions@ == old(
                        cmd_buf,
                    ).texture_memory_init_actions@ + clear_init_actions(
                        dst,
                        sel,
                        sel.levels.start as int,
                    )
                    &&& exists|ts: Seq<PendingTransition>|
                        selector_transitions(
                            old(cmd_buf).texture_trackers@,
                            dst,
                            sel,
                            USE_COPY_DST,
                            ts,
                        ) && texture_clear_commands(
                            old(cmd_buf).raw@,
                            final(cmd_buf).raw@,
                            ts,
                            dst,
                            spec_clear_regions(
                                t.desc,
                                old(cmd_buf).buffer_copy_pitch,
                                sel.levels.start as int,
                                sel.levels,
                                sel.layers,
                            ),
                        )
                },
            },
    {
        if cmd_buf.status != CommandEncoderStatus::Recording {
            return Err(ClearError::InvalidCommandEncoder(cmd_buf.id));
        }
        if !cmd_buf.support_clear_buffer_texture {
            return Err(ClearError::MissingClearCommandsFeature);
        }
        let dst_texture = match self.textures.get(dst) {
            Some(t) => t,
            None => {
                return Err(ClearError::InvalidTexture(dst));
            },
        };
        proof {
            assert(self.textures.items@[dst as int] is Some);
        }
        let format = dst_texture.desc.format;
        if format.aspects & aspect_bits(subresource_range.aspect) == 0 {
            return Err(
                ClearError::MissingTextureAspect {
                    texture_format: format,
                    subresource_range_aspects: subresource_range.aspect,
                },
            );
        }
        if format.sample_type == TextureSampleType::Depth {
            return Err(ClearError::DepthStencilFormatNotSupported);
        }
        if dst_texture.desc.sample_count > 1 {
            return Err(ClearError::MultisampledTextureUnsupported);
        }
        let full = dst_texture.full_range;
        let level_end: u64 = match subresource_range.mip_level_count {
            Some(count) => subresource_range.base_mip_level as u64 + count as u64,
            None => full.levels.end as u64,
        };
        if full.levels.start > subresource_range.base_mip_level || subresource_range.base_mip_level
            > full.levels.end || (full.levels.end as u64) < level_end {
            return Err(
                ClearError::InvalidTextureLevelRange {
                    texture_level_range: full.levels,
                    subresource_base_mip_level: subresource_range.base_mip_level,
                    subresource_mip_level_count: subresource_range.mip_level_count,
                },
            );
        }
        let layer_end: u64 = match subresource_range.array_layer_count {
            Some(count) => subresource_range.base_array_layer as u64 + count as u64,
            None => full.layers.end as u64,
        };
        if full.layers.start > subresource_range.base_array_layer
            || subresource_range.base_array_layer > full.layers.end || (full.layers.end as u64)
            < layer_end {
            return Err(
                ClearError::InvalidTextureLayerRange {
                    texture_layer_range: full.layers,
                    subresource_base_array_layer: subresource_range.base_array_layer,
                    subresource_array_layer_count: subresource_range.array_layer_count,
                },
            );
        }
        if dst_texture.destroyed {
            return Err(ClearError::InvalidTexture(dst));
        }
        if dst_texture.desc.usage & TEXTURE_USAGE_COPY_DST == 0 {
            return Err(ClearError::MissingCopyDstUsageFlag(None, Some(dst)));
        }
        let selector = TextureSelector {
            levels: SubRange { start: subresource_range.base_mip_level, end: level_end as u32 },
            layers: SubRange { start: subresource_range.base_array_layer, end: layer_end as u32 },
        };
        let mut zero_buffer_copy_regions: Vec<BufferTextureCopy> = Vec::new();
        let collected = collect_zero_buffer_copies_for_clear_texture(
            &dst_texture.desc,
            cmd_buf.buffer_copy_pitch,
            selector.levels,
            selector.layers,
            &mut zero_buffer_copy_regions,
        );
        match collected {
            Err(e) => {
                return Err(e);
            },
            Ok(()) => {},
        }
        push_init_actions(dst, selector, &mut cmd_buf.texture_memory_init_actions);
        let ghost raw_before = cmd_buf.raw@;
        let transitions = cmd_buf.texture_trackers.request_selector(dst, selector, USE_COPY_DST);
        push_barriers(&mut cmd_buf.raw, &transitions, true);
        if zero_buffer_copy_regions.len() > 0 {
            let ghost mid = cmd_buf.raw@;
            cmd_buf.raw.push(
                NativeCommand::CopyZeroBufferToTexture {
                    texture: dst,
                    regions: zero_buffer_copy_regions,
                },
            );
            assert(cmd_buf.raw@.drop_last() == mid);
        }
        assert(selector_transitions(
            old(cmd_buf).texture_trackers@,
            dst,
            selector,
            USE_COPY_DST,
            transitions@,
        ));
        Ok(())
    }
}

/// A buffer clear that the encoder, the device and the buffer allow, with an aligned
/// offset and size that end inside the buffer, succeeds.
pub proof fn lemma_clear_buffer_in_bounds_succeeds(
    cb: &CommandBuffer,
    g: &Global,
    dst: u64,
    offset: u64,
    size: u64,
)
    requires
        cb.status == CommandEncoderStatus::Recording,
        cb.support_clear_buffer_texture,
        g.buffers.spec_get(dst) is Some,
        !g.buffers.spec_get(dst)->Some_0.destroyed,
        g.buffers.spec_get(dst)->Some_0.usage & BUFFER_USAGE_COPY_DST != 0,
        offset % COPY_BUFFER_ALIGNMENT == 0,
        size % COPY_BUFFER_ALIGNMENT == 0,
        offset + size <= g.buffers.spec_get(dst)->Some_0.size,
    ensures
        clear_buffer_error(cb, g, dst, offset, Some(size)) is None,
        spec_clear_end(offset, Some(size), g.buffers.spec_get(dst)->Some_0.size) == offset + size,
{
}

/// A buffer clear that the encoder, the device and the buffer allow fails on a
/// misaligned offset, or else on a misaligned size, with the matching error.
pub proof fn lemma_clear_buffer_misaligned_fails(
    cb: &CommandBuffer,
    g: &Global,
    dst: u64,
    offset: u64,
    size: Option<u64>,
)
    requires
        cb.status == CommandEncoderStatus::Recording,
        cb.support_clear_buffer_texture,
        g.buffers.spec_get(dst) is Some,
        !g.buffers.spec_get(dst)->Some_0.destroyed,
        g.buffers.spec_get(dst)->Some_0.usage & BUFFER_USAGE_COPY_DST != 0,
    ensures
        offset % COPY_BUFFER_ALIGNMENT != 0 ==> clear_buffer_error(cb, g, dst, offset, size)
            == Some(ClearError::UnalignedBufferOffset(offset)),
        (offset % COPY_BUFFER_ALIGNMENT == 0 && size is Some && size->Some_0
            % COPY_BUFFER_ALIGNMENT != 0) ==> clear_buffer_error(cb, g, dst, offset, size) == Some(
            ClearError::UnalignedFillSize(size->Some_0),
        ),
{
}

/// A texture clear that the encoder and device allow is refused for a depth/stencil
/// format and for a multisampled texture, whatever the range asks for.
pub proof fn lemma_clear_texture_rejects_depth_and_multisampled(
    cb: &CommandBuffer,
    g: &Global,
    dst: u64,
    r: ImageSubresourceRange,
)
    requires
        cb.status == CommandEncoderStatus::Recording,
        cb.support_clear_buffer_texture,
        g.textures.spec_get(dst) is Some,
        g.textures.spec_get(dst)->Some_0.desc.format.sample_type == TextureSampleType::Depth
            || g.textures.spec_get(dst)->Some_0.desc.sample_count > 1,
    ensures
        clear_texture_error(cb, g, dst, r) is Some,
        ({
            let t = g.textures.spec_get(dst)->Some_0;
            t.desc.format.aspects & spec_aspect_bits(r.aspect) != 0 ==> clear_texture_error(
                cb,
                g,
                dst,
                r,
            ) == if t.desc.format.sample_type == TextureSampleType::Depth {
                Some(ClearError::DepthStencilFormatNotSupported)
            } else {
                Some(ClearError::MultisampledTextureUnsupported)
            }
        }),
{
}

/// A texture clear whose mip levels leave the texture's levels fails with an error that
/// holds the texture's levels and the requested ones; one whose levels fit but whose
/// layers leave the texture's layers fails likewise.
pub proof fn lemma_clear_texture_out_of_range_fails(
    cb: &CommandBuffer,
    g: &Global,
    dst: u64,
    r: ImageSubresourceRange,
)
    requires
        cb.status == CommandEncoderStatus::Recording,
        cb.support_clear_buffer_texture,
        g.textures.spec_get(dst) is Some,
        g.textures.spec_get(dst)->Some_0.desc.format.aspects & spec_aspect_bits(r.aspect) != 0,
        g.textures.spec_get(dst)->Some_0.desc.format.sample_type != TextureSampleType::Depth,
        g.textures.spec_get(dst)->Some_0.desc.sample_count <= 1,
    ensures
        ({
            let t = g.textures.spec_get(dst)->Some_0;
            let levels_out = t.full_range.levels.start > r.base_mip_level || r.base_mip_level
                > t.full_range.levels.end || t.full_range.levels.end < spec_level_end(
                r,
                t.full_range,
            );
            let layers_out = t.full_range.layers.start > r.base_array_layer || r.base_array_layer
                > t.full_range.layers.end || t.full_range.layers.end < spec_layer_end(
                r,
                t.full_range,
            );
            &&& levels_out ==> clear_texture_error(cb, g, dst, r) == Some(
                ClearError::InvalidTextureLevelRange {
                    texture_level_range: t.full_range.levels,
                    subresource_base_mip_level: r.base_mip_level,
                    subresource_mip_level_count: r.mip_level_count,
                },
            )
            &&& !levels_out && layers_out ==> clear_texture_error(cb, g, dst, r) == Some(
                ClearError::InvalidTextureLayerRange {
                    texture_layer_range: t.full_range.layers,
                    subresource_base_array_layer: r.base_array_layer,
                    subresource_array_layer_count: r.array_layer_count,
                },
            )
        }),
{
}

/// Where some mip of the range cannot fit one block row in the scratch buffer, region
/// synthesis reports a mip that cannot, and so fails instead of emitting regions.
pub proof fn lemma_unfit_mip_fails(
    desc: TextureDescriptor,
    pitch: u32,
    mip: int,
    mips: SubRange,
    bad: int,
)
    requires
        mip <= bad < mips.end,
        0 <= mip,
        spec_mip_copy_plan(desc, pitch, bad as u32).max_rows_per_copy == 0,
    ensures
        spec_first_unfit(desc, pitch, mip, mips) matches Some(m) && spec_mip_copy_plan(
            desc,
            pitch,
            m,
        ).max_rows_per_copy == 0,
    decreases bad - mip,
{
    if spec_mip_copy_plan(desc, pitch, mip as u32).max_rows_per_copy != 0 {
        lemma_unfit_mip_fails(desc, pitch, mip + 1, mips, bad);
    }
}

} // verus!
