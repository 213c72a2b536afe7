//! Resources as the registry holds them: buffers, textures, their descriptors, and the
//! fallible id lookup.
use vstd::prelude::*;
use crate::init_tracker::InitTracker;

verus! {

/// Declared buffer usage: may be the destination of copies and fills.
pub const BUFFER_USAGE_COPY_DST: u32 = 8;
/// Declared buffer usage: may hold indirect dispatch arguments.
pub const BUFFER_USAGE_INDIRECT: u32 = 256;
/// Declared texture usage: may be the destination of copies and clears.
pub const TEXTURE_USAGE_COPY_DST: u32 = 2;

/// Aspect bit of colour formats.
pub const ASPECT_COLOR: u8 = 1;
/// Aspect bit of formats with depth.
pub const ASPECT_DEPTH: u8 = 2;
/// Aspect bit of formats with stencil.
pub const ASPECT_STENCIL: u8 = 4;

/// Largest width, height or depth/layer count of a texture.
pub const MAX_TEXTURE_EXTENT: u32 = 65536;
/// Largest number of mip levels of a texture.
pub const MAX_MIP_LEVELS: u32 = 17;

/// A buffer. `destroyed` stands for a buffer whose native memory is gone.
pub struct Buffer {
    pub size: u64,
    pub usage: u32,
    pub destroyed: bool,
    pub initialization_status: InitTracker,
}

/// The aspects that a subresource range asks for.
#[derive(Clone, Copy, Debug, PartialEq, Eq, Structural)]
pub enum TextureAspect {
    All,
    StencilOnly,
    DepthOnly,
}

/// The aspect bits that `a` selects.
pub open spec fn spec_aspect_bits(a: TextureAspect) -> u8 {
    match a {
        TextureAspect::All => 7,
        TextureAspect::StencilOnly => ASPECT_STENCIL,
        TextureAspect::DepthOnly => ASPECT_DEPTH,
    }
}

/// The aspect bits that `a` selects.
pub fn aspect_bits(a: TextureAspect) -> (r: u8)
    ensures
        r == spec_aspect_bits(a),
{
    match a {
        TextureAspect::All => 7,
        TextureAspect::StencilOnly => ASPECT_STENCIL,
        TextureAspect::DepthOnly => ASPECT_DEPTH,
    }
}

/// How shaders read a format.
#[derive(Clone, Copy, Debug, PartialEq, Eq, Structural)]
pub enum TextureSampleType {
    Float,
    Sint,
    Uint,
    Depth,
}

/// What the logic reads of a texture format: its block shape and size, how it is
/// sampled, and which aspects it has.
#[derive(Clone, Copy, Debug, PartialEq, Eq, Structural)]
pub struct TextureFormat {
    pub block_width: u8,
    pub block_height: u8,
    pub block_size: u8,
    pub sample_type: TextureSampleType,
    pub aspects: u8,
}

impl TextureFormat {
    /// Blocks are between 1 and 16 texels wide and high, and 1 to 16 bytes large.
    pub open spec fn wf(&self) -> bool {
        1 <= self.block_width <= 16 && 1 <= self.block_height <= 16 && 1 <= self.block_size
            <= 16
    }
}

#[derive(Clone, Copy, Debug, PartialEq, Eq, Structural)]
pub enum TextureDimension {
    D1,
    D2,
    D3,
}

#[derive(Clone, Copy, Debug, PartialEq, Eq, Structural)]
pub struct Extent3d {
    pub width: u32,
    pub height: u32,
    pub depth_or_array_layers: u32,
}

#[derive(Clone, Copy, Debug, PartialEq, Eq, Structural)]
pub struct TextureDescriptor {
    pub size: Extent3d,
    pub mip_level_count: u32,
    pub sample_count: u32,
    pub dimension: TextureDimension,
    pub format: TextureFormat,
    pub usage: u32,
}

/// A half-open range `start..end` of mip levels or array layers.
#[derive(Clone, Copy, Debug, PartialEq, Eq, Structural)]
pub struct SubRange {
    pub start: u32,
    pub end: u32,
}

/// A rectangle of texture subresources: mip levels × array layers.
#[derive(Clone, Copy, Debug, PartialEq, Eq, Structural)]
pub struct TextureSelector {
    pub levels: SubRange,
    pub layers: SubRange,
}

pub open spec fn spec_max1(x: u32) -> u32 {
    if x == 0 {
        1
    } else {
        x
    }
}

proof fn lemma_shr_le(x: u32, s: u32)
    ensures
        x >> s <= x,
{
    assert(x >> s <= x) by (bit_vector);
}

impl TextureDescriptor {
    /// Sizes within the device's bounds, at least one mip level, and a block format.
    pub open spec fn wf(&self) -> bool {
        1 <= self.size.width <= MAX_TEXTURE_EXTENT && 1 <= self.size.height <= MAX_TEXTURE_EXTENT
            && 1 <= self.size.depth_or_array_layers <= MAX_TEXTURE_EXTENT && 1
            <= self.mip_level_count <= MAX_MIP_LEVELS && self.format.wf()
    }

    /// The number of array layers: one for a volume texture.
    pub open spec fn spec_array_layer_count(&self) -> u32 {
        if self.dimension == TextureDimension::D3 {
            1
        } else {
            self.size.depth_or_array_layers
        }
    }

    /// The size of mip `level`: each axis halved per level, at least 1; layers do not
    /// shrink.
    pub open spec fn spec_mip_level_size(&self, level: u32) -> Extent3d {
        Extent3d {
            width: spec_max1(self.size.width >> level),
            height: spec_max1(self.size.height >> level),
            depth_or_array_layers: if self.dimension == TextureDimension::D3 {
                spec_max1(self.size.depth_or_array_layers >> level)
            } else {
                self.size.depth_or_array_layers
            },
        }
    }

    pub fn array_layer_count(&self) -> (r: u32)
        ensures
            r == self.spec_array_layer_count(),
    {
        if self.dimension == TextureDimension::D3 {
            1
        } else {
            self.size.depth_or_array_layers
        }
    }

    /// The size of mip `level`.
    pub fn mip_level_size(&self, level: u32) -> (r: Extent3d)
        requires
            self.wf(),
            level < self.mip_level_count,
        ensures
            r == self.spec_mip_level_size(level),
            1 <= r.width <= self.size.width,
            1 <= r.height <= self.size.height,
            1 <= r.depth_or_array_layers <= self.size.depth_or_array_layers,
    {
        let w = self.size.width >> level;
        let h = self.size.height >> level;
        let d = self.size.depth_or_array_layers >> level;
        proof {
            lemma_shr_le(self.size.width, level);
            lemma_shr_le(self.size.height, level);
            lemma_shr_le(self.size.depth_or_array_layers, level);
        }
        Extent3d {
            width: if w == 0 {
                1
            } else {
                w
            },
            height: if h == 0 {
                1
            } else {
                h
            },
            depth_or_array_layers: if self.dimension == TextureDimension::D3 {
                if d == 0 {
                    1
                } else {
                    d
                }
            } else {
                self.size.depth_or_array_layers
            },
        }
    }
}

/// A texture. `full_range` is every subresource it has; `destroyed` stands for a
/// texture whose native memory is gone.
pub struct Texture {
    pub desc: TextureDescriptor,
    pub full_range: TextureSelector,
    pub destroyed: bool,
}

impl Texture {
    pub open spec fn wf(&self) -> bool {
        &&& self.desc.wf()
        &&& self.full_range == (TextureSelector {
            levels: SubRange { start: 0, end: self.desc.mip_level_count },
            layers: SubRange { start: 0, end: self.desc.spec_array_layer_count() },
        })
    }
}

/// A registry of one kind of resource: ids index it, and a missing or freed id finds
/// nothing.
pub struct Storage<T> {
    pub items: Vec<Option<T>>,
}

impl<T> Storage<T> {
    pub open spec fn spec_get(&self, id: u64) -> Option<T> {
        if id < self.items@.len() {
            self.items@[id as int]
        } else {
            None
        }
    }

    pub fn new() -> (r: Storage<T>)
        ensures
            r.items@ == Seq::<Option<T>>::empty(),
    {
        Storage { items: Vec::new() }
    }

    /// The record of `id`, if there is one.
    pub fn get(&self, id: u64) -> (r: Option<&T>)
        ensures
            r == (match self.spec_get(id) {
                Some(t) => Some(&t),
                None => None::<&T>,
            }),
    {
        if id < self.items.len() as u64 {
            match &self.items[id as usize] {
                Some(t) => Some(t),
                None => None,
            }
        } else {
            None
        }
    }
}

} // verus!
