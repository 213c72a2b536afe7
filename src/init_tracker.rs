//! Memory-initialisation tracking: which bytes of a buffer are known to hold defined
//! data, and the deferred actions that commands touching memory produce.
use vstd::prelude::*;

verus! {

/// What a command does to the memory it touches.
#[derive(Clone, Copy, Debug, PartialEq, Eq, Structural)]
pub enum MemoryInitKind {
    /// The command writes the whole range, which is defined afterwards.
    ImplicitlyInitialized,
    /// The command reads the range, which must be defined before it runs.
    NeedsInitializedMemory,
}

/// A range of a buffer that a command writes or reads, to be settled before submission.
#[derive(Clone, Copy, Debug, PartialEq, Eq, Structural)]
pub struct MemoryInitAction {
    pub id: u64,
    pub start: u64,
    pub end: u64,
    pub kind: MemoryInitKind,
}

/// A texture subresource that a command writes whole or reads, to be settled before
/// submission.
#[derive(Clone, Copy, Debug, PartialEq, Eq, Structural)]
pub struct TextureInitAction {
    pub texture: u64,
    pub mip_level: u32,
    pub array_layer: u32,
    pub kind: MemoryInitKind,
}

/// A half-open byte range `start..end`.
#[derive(Clone, Copy, Debug, PartialEq, Eq, Structural)]
pub struct ByteRange {
    pub start: u64,
    pub end: u64,
}

pub open spec fn in_some_range(rs: Seq<ByteRange>, b: int) -> bool {
    exists|i: int| 0 <= i < rs.len() && rs[i].start <= b < #[trigger] rs[i].end
}

/// The byte ranges of one buffer that may still hold undefined data. Bytes leave this
/// set and never come back.
pub struct InitTracker {
    uninitialized: Vec<ByteRange>,
}

impl InitTracker {
    /// Byte `b` is known to hold defined data.
    pub closed spec fn is_initialized(&self, b: int) -> bool {
        !in_some_range(self.uninitialized@, b)
    }

    /// Some byte of `start..end` may be undefined.
    pub open spec fn needs_init(&self, start: int, end: int) -> bool {
        exists|b: int| start <= b < end && !#[trigger] self.is_initialized(b)
    }

    /// A tracker for a fresh buffer of `size` bytes, none of them defined.
    pub fn new(size: u64) -> (r: InitTracker)
        ensures
            forall|b: int| #[trigger] r.is_initialized(b) <==> !(0 <= b < size),
    {
        let mut v: Vec<ByteRange> = Vec::new();
        v.push(ByteRange { start: 0, end: size });
        let r = InitTracker { uninitialized: v };
        assert forall|b: int| #[trigger] r.is_initialized(b) <==> !(0 <= b < size) by {
            if 0 <= b < size {
                assert(r.uninitialized@[0].start <= b < r.uninitialized@[0].end);
            }
        }
        r
    }

    /// Whether some byte of `start..end` may be undefined.
    pub fn check(&self, start: u64, end: u64) -> (r: bool)
        ensures
            r == self.needs_init(start as int, end as int),
    {
        let mut i: usize = 0;
        while i < self.uninitialized.len()
            invariant
                i <= self.uninitialized@.len(),
                forall|j: int|
                    0 <= j < i ==> #[trigger] self.uninitialized@[j].end <= start || end
                        <= self.uninitialized@[j].start || self.uninitialized@[j].end
                        <= self.uninitialized@[j].start || end <= start,
            decreases self.uninitialized@.len() - i,
        {
            let r = self.uninitialized[i];
            let lo = if r.start > start {
                r.start
            } else {
                start
            };
            let hi = if r.end < end {
                r.end
            } else {
                end
            };
            if lo < hi {
                assert(!self.is_initialized(lo as int)) by {
                    assert(self.uninitialized@[i as int].start <= lo < self.uninitialized@[i as int].end);
                }
                return true;
            }
            i = i + 1;
        }
        assert forall|b: int| start <= b < end implies #[trigger] self.is_initialized(b) by {
            assert forall|j: int| 0 <= j < self.uninitialized@.len() implies !(
            self.uninitialized@[j].start <= b < #[trigger] self.uninitialized@[j].end) by {}
        }
        false
    }

    /// The action for `start..end` of buffer `id`, or none where every byte of the range is
    /// already defined.
    pub fn create_action(&self, id: u64, start: u64, end: u64, kind: MemoryInitKind) -> (r: Option<
        MemoryInitAction,
    >)
        ensures
            r is None <==> !self.needs_init(start as int, end as int),
            r is Some ==> r == Some(MemoryInitAction { id, start, end, kind }),
    {
        if self.check(start, end) {
            Some(MemoryInitAction { id, start, end, kind })
        } else {
            None
        }
    }

    /// Keeps `action` where its range may still hold undefined bytes, and drops it where
    /// the whole range is already defined.
    pub fn check_action(&self, action: &MemoryInitAction) -> (r: Option<MemoryInitAction>)
        ensures
            r is None <==> !self.needs_init(action.start as int, action.end as int),
            r is Some ==> r == Some(*action),
    {
        if self.check(action.start, action.end) {
            Some(*action)
        } else {
            None
        }
    }

    /// Marks `start..end` as defined; every other byte keeps its state.
    pub fn mark_initialized(&mut self, start: u64, end: u64)
        ensures
            forall|b: int| #[trigger]
                final(self).is_initialized(b) <==> (old(self).is_initialized(b) || (start <= b
                    < end)),
    {
        let ghost old_rs = self.uninitialized@;
        let mut kept: Vec<ByteRange> = Vec::new();
        let mut i: usize = 0;
        while i < self.uninitialized.len()
            invariant
                self.uninitialized@ == old_rs,
                i <= old_rs.len(),
                forall|b: int| #[trigger]
                    in_some_range(kept@, b) <==> (in_some_range(old_rs.take(i as int), b) && !(
                    start <= b < end)),
            decreases old_rs.len() - i,
        {
            let r = self.uninitialized[i];
            let ghost before = kept@;
            let low_end = if r.end < start {
                r.end
            } else {
                start
            };
            if r.start < low_end {
                kept.push(ByteRange { start: r.start, end: low_end });
            }
            let ghost mid = kept@;
            let high_start = if r.start > end {
                r.start
            } else {
                end
            };
            if high_start < r.end {
                kept.push(ByteRange { start: high_start, end: r.end });
            }
            proof {
                let prefix = old_rs.take(i as int + 1);
                assert(prefix == old_rs.take(i as int).push(r));
                assert forall|b: int| #[trigger]
                    in_some_range(kept@, b) <==> (in_some_range(prefix, b) && !(start <= b
                        < end)) by {
                    if in_some_range(kept@, b) {
                        let j = choose|j: int|
                            0 <= j < kept@.len() && kept@[j].start <= b < #[trigger] kept@[j].end;
                        if j < before.len() {
                            assert(before[j] == kept@[j]);
                            assert(in_some_range(before, b));
                            let q = choose|q: int|
                                0 <= q < i && old_rs.take(i as int)[q].start <= b
                                    < #[trigger] old_rs.take(i as int)[q].end;
                            assert(prefix[q] == old_rs.take(i as int)[q]);
                        } else {
                            assert(prefix[i as int] == r);
                        }
                    }
                    if in_some_range(prefix, b) && !(start <= b < end) {
                        let q = choose|q: int|
                            0 <= q < prefix.len() && prefix[q].start <= b < #[trigger] prefix[q].end;
                        if q < i {
                            assert(old_rs.take(i as int)[q] == prefix[q]);
                            assert(in_some_range(before, b));
                            let j = choose|j: int|
                                0 <= j < before.len() && before[j].start <= b < #[trigger] before[j].end;
                            assert(kept@[j] == before[j]);
                        } else {
                            if b < start {
                                assert(kept@[before.len() as int].start <= b);
                                assert(b < kept@[before.len() as int].end);
                            } else {
                                assert(kept@[mid.len() as int].start <= b);
                                assert(b < kept@[mid.len() as int].end);
                            }
                        }
                    }
                }
            }
            i = i + 1;
        }
        proof {
            assert(old_rs.take(old_rs.len() as int) == old_rs);
        }
        self.uninitialized = kept;
    }
}

/// One texture subresource.
#[derive(Clone, Copy, Debug, PartialEq, Eq, Structural)]
pub struct TextureSurface {
    pub texture: u64,
    pub mip_level: u32,
    pub array_layer: u32,
}

pub open spec fn surface_of(a: TextureInitAction) -> TextureSurface {
    TextureSurface { texture: a.texture, mip_level: a.mip_level, array_layer: a.array_layer }
}

/// The first position from `i` on where `x` stands in `s`, or -1.
pub open spec fn first_index(s: Seq<TextureSurface>, x: TextureSurface, i: int) -> int
    decreases s.len() - i,
{
    if i < 0 || i >= s.len() {
        -1
    } else if s[i] == x {
        i
    } else {
        first_index(s, x, i + 1)
    }
}

/// Discarded surfaces, surfaces awaiting a fix-up clear, and texture actions after the
/// actions `rs` are recorded one by one: an action that needs initialised memory on a
/// discarded surface takes the surface out of the discarded ones and queues its fix-up.
pub open spec fn registered(
    discarded: Seq<TextureSurface>,
    pending: Seq<TextureSurface>,
    actions: Seq<TextureInitAction>,
    rs: Seq<TextureInitAction>,
) -> (Seq<TextureSurface>, Seq<TextureSurface>, Seq<TextureInitAction>)
    decreases rs.len(),
{
    if rs.len() == 0 {
        (discarded, pending, actions)
    } else {
        let (d, p, a) = registered(discarded, pending, actions, rs.drop_last());
        let r = rs.last();
        let k = first_index(d, surface_of(r), 0);
        if r.kind == MemoryInitKind::NeedsInitializedMemory && k >= 0 {
            (d.remove(k), p.push(surface_of(r)), a.push(r))
        } else {
            (d, p, a.push(r))
        }
    }
}

/// The records that the fix-up clears of `pending` initialise their surfaces.
pub open spec fn fixup_actions(pending: Seq<TextureSurface>) -> Seq<TextureInitAction> {
    pending.map_values(
        |s: TextureSurface|
            TextureInitAction {
                texture: s.texture,
                mip_level: s.mip_level,
                array_layer: s.array_layer,
                kind: MemoryInitKind::ImplicitlyInitialized,
            },
    )
}

proof fn lemma_first_index_range(s: Seq<TextureSurface>, x: TextureSurface, i: int)
    ensures
        first_index(s, x, i) == -1 || (i <= first_index(s, x, i) < s.len() && s[first_index(
            s,
            x,
            i,
        )] == x),
    decreases s.len() - i,
{
    if 0 <= i < s.len() && s[i] != x {
        lemma_first_index_range(s, x, i + 1);
    }
}

fn find_surface(v: &Vec<TextureSurface>, x: TextureSurface) -> (r: Option<usize>)
    ensures
        match r {
            Some(i) => i as int == first_index(v@, x, 0) && i < v@.len(),
            None => first_index(v@, x, 0) == -1,
        },
{
    let mut i: usize = 0;
    while i < v.len()
        invariant
            i <= v@.len(),
            first_index(v@, x, 0) == first_index(v@, x, i as int),
        decreases v@.len() - i,
    {
        if v[i] == x {
            return Some(i);
        }
        i = i + 1;
    }
    None
}

/// Texture state that a compute pass keeps apart from its other state: the surfaces whose
/// contents were discarded, those whose fix-up clear is due, and the texture actions.
pub struct Fixups {
    pub discarded: Vec<TextureSurface>,
    pub pending: Vec<TextureSurface>,
    pub actions: Vec<TextureInitAction>,
}

impl Fixups {
    /// Records the actions `rs` of a bound group, as `registered` says.
    pub fn register(&mut self, rs: &Vec<TextureInitAction>)
        ensures
            (final(self).discarded@, final(self).pending@, final(self).actions@) == registered(
                old(self).discarded@,
                old(self).pending@,
                old(self).actions@,
                rs@,
            ),
    {
        let mut i: usize = 0;
        proof {
            assert(rs@.take(0) =~= Seq::<TextureInitAction>::empty());
        }
        while i < rs.len()
            invariant
                i <= rs@.len(),
                (self.discarded@, self.pending@, self.actions@) == registered(
                    old(self).discarded@,
                    old(self).pending@,
                    old(self).actions@,
                    rs@.take(i as int),
                ),
            decreases rs@.len() - i,
        {
            let r = rs[i];
            proof {
                assert(rs@.take(i + 1).drop_last() =~= rs@.take(i as int));
                assert(rs@.take(i + 1).last() == r);
            }
            let sf = TextureSurface {
                texture: r.texture,
                mip_level: r.mip_level,
                array_layer: r.array_layer,
            };
            let found = find_surface(&self.discarded, sf);
            match found {
                Some(k) => {
                    if r.kind == MemoryInitKind::NeedsInitializedMemory {
                        self.discarded.remove(k);
                        self.pending.push(sf);
                    }
                },
                None => {},
            }
            self.actions.push(r);
            i = i + 1;
        }
        proof {
            assert(rs@.take(rs@.len() as int) =~= rs@);
        }
    }
}

} // verus!
