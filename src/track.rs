//! Per-subresource usage tracking: which access kinds are in flight on each buffer or
//! texture subresource, and which transitions (barriers) a new access needs.
use vstd::prelude::*;
use crate::resource::TextureSelector;

verus! {

/// Read as the source of a copy.
pub const USE_COPY_SRC: u32 = 1;
/// Written as the destination of a copy, fill or clear.
pub const USE_COPY_DST: u32 = 2;
/// Read as the arguments of an indirect dispatch.
pub const USE_INDIRECT: u32 = 4;
/// Read as a uniform buffer.
pub const USE_UNIFORM: u32 = 8;
/// Read as a read-only storage resource.
pub const USE_STORAGE_READ: u32 = 16;
/// Written as a read-write storage resource.
pub const USE_STORAGE_WRITE: u32 = 32;
/// Read through a sampler.
pub const USE_SAMPLED: u32 = 64;
/// Written as a colour attachment.
pub const USE_COLOR_TARGET: u32 = 128;
/// Written as a depth/stencil attachment.
pub const USE_DEPTH_STENCIL_WRITE: u32 = 256;
/// The access kinds that write (copy destination, read-write storage, colour and
/// depth/stencil targets): none of them can share a subresource with another kind.
pub const USE_EXCLUSIVE: u32 = 418;

/// A usage state only reads.
pub open spec fn is_read_only(u: u32) -> bool {
    u & USE_EXCLUSIVE == 0
}

/// Two usage states may be active on one subresource without a barrier between them:
/// they are equal, or both only read.
pub open spec fn compatible(old: u32, new: u32) -> bool {
    old == new || (is_read_only(old) && is_read_only(new))
}

/// One buffer (level 0, layer 0) or one texture subresource (mip level × array layer).
#[derive(Clone, Copy, Debug, PartialEq, Eq, Structural)]
pub struct SubresourceKey {
    pub resource: u64,
    pub mip_level: u32,
    pub array_layer: u32,
}

/// A change of usage state on one subresource that needs a native barrier.
#[derive(Clone, Copy, Debug, PartialEq, Eq, Structural)]
pub struct PendingTransition {
    pub key: SubresourceKey,
    pub old: u32,
    pub new: u32,
}

/// Two incompatible usages of one subresource met where they may not be ordered.
#[derive(Clone, Copy, Debug, PartialEq, Eq, Structural)]
pub struct UsageConflict {
    pub key: SubresourceKey,
    pub old: u32,
    pub new: u32,
}

/// The usage state recorded for one subresource.
#[derive(Clone, Copy, Debug, PartialEq, Eq, Structural)]
pub struct TrackEntry {
    pub key: SubresourceKey,
    pub state: u32,
}

pub open spec fn keys_unique(es: Seq<TrackEntry>) -> bool {
    forall|i: int, j: int|
        0 <= i < es.len() && 0 <= j < es.len() && i != j ==> #[trigger] es[i].key != #[trigger] es[j].key
}

pub open spec fn holds_key(es: Seq<TrackEntry>, k: SubresourceKey) -> bool {
    exists|i: int| 0 <= i < es.len() && #[trigger] es[i].key == k
}

/// The map from subresource to usage state that a list of entries describes.
pub open spec fn entries_view(es: Seq<TrackEntry>) -> Map<SubresourceKey, u32> {
    Map::new(
        |k: SubresourceKey| holds_key(es, k),
        |k: SubresourceKey| es[choose|i: int| 0 <= i < es.len() && #[trigger] es[i].key == k].state,
    )
}

/// State of `m` and the transition returned after a replacing request of `usage` on `k`.
pub open spec fn request_outcome(m: Map<SubresourceKey, u32>, k: SubresourceKey, usage: u32) -> (
    Map<SubresourceKey, u32>,
    Option<PendingTransition>,
) {
    if !m.contains_key(k) {
        (m.insert(k, usage), None)
    } else if compatible(m[k], usage) {
        (m.insert(k, m[k] | usage), None)
    } else {
        (m.insert(k, usage), Some(PendingTransition { key: k, old: m[k], new: usage }))
    }
}

/// State of `m` after an extending request of `usage` on `k`, or the conflict it meets.
pub open spec fn extend_outcome(m: Map<SubresourceKey, u32>, k: SubresourceKey, usage: u32) -> Result<
    Map<SubresourceKey, u32>,
    UsageConflict,
> {
    if !m.contains_key(k) {
        Ok(m.insert(k, usage))
    } else if compatible(m[k], usage) {
        Ok(m.insert(k, m[k] | usage))
    } else {
        Err(UsageConflict { key: k, old: m[k], new: usage })
    }
}

/// No subresource that both maps track has incompatible states in them.
pub open spec fn can_merge(a: Map<SubresourceKey, u32>, b: Map<SubresourceKey, u32>) -> bool {
    forall|k: SubresourceKey|
        a.contains_key(k) && b.contains_key(k) ==> compatible(#[trigger] a[k], b[k])
}

/// The union of two trackers' states, joining the flags where both track a subresource.
pub open spec fn merged(a: Map<SubresourceKey, u32>, b: Map<SubresourceKey, u32>) -> Map<
    SubresourceKey,
    u32,
> {
    Map::new(
        |k: SubresourceKey| a.contains_key(k) || b.contains_key(k),
        |k: SubresourceKey|
            if a.contains_key(k) && b.contains_key(k) {
                a[k] | b[k]
            } else if a.contains_key(k) {
                a[k]
            } else {
                b[k]
            },
    )
}

/// `base` after every subresource of `other` has been requested, replacing, with the
/// state `other` holds for it.
pub open spec fn replaced_by(base: Map<SubresourceKey, u32>, other: Map<SubresourceKey, u32>) -> Map<
    SubresourceKey,
    u32,
> {
    Map::new(
        |k: SubresourceKey| base.contains_key(k) || other.contains_key(k),
        |k: SubresourceKey|
            if other.contains_key(k) {
                request_outcome(base, k, other[k]).0[k]
            } else {
                base[k]
            },
    )
}

/// `ts` are exactly the barriers that requesting, replacing, each state of `other` on
/// `m` needs: each is needed, each needed one is there, and none twice.
pub open spec fn exact_transitions(
    m: Map<SubresourceKey, u32>,
    other: Map<SubresourceKey, u32>,
    ts: Seq<PendingTransition>,
) -> bool {
    &&& forall|j: int|
        0 <= j < ts.len() ==> other.contains_key(#[trigger] ts[j].key) && request_outcome(
            m,
            ts[j].key,
            other[ts[j].key],
        ).1 == Some(ts[j])
    &&& forall|k: SubresourceKey|
        other.contains_key(k) && (#[trigger] request_outcome(m, k, other[k])).1 is Some ==> exists|
            j: int,
        | 0 <= j < ts.len() && ts[j].key == k
    &&& forall|a: int, b: int|
        0 <= a < ts.len() && 0 <= b < ts.len() && a != b ==> #[trigger] ts[a].key
            != #[trigger] ts[b].key
}

/// `k` is a subresource of texture `id` inside `sel`.
pub open spec fn in_selector(k: SubresourceKey, id: u64, sel: TextureSelector) -> bool {
    &&& k.resource == id
    &&& sel.levels.start <= k.mip_level < sel.levels.end
    &&& sel.layers.start <= k.array_layer < sel.layers.end
}

/// `m` after a replacing request of `usage` on every subresource of `id` inside `sel`.
pub open spec fn requested_selector(
    m: Map<SubresourceKey, u32>,
    id: u64,
    sel: TextureSelector,
    usage: u32,
) -> Map<SubresourceKey, u32> {
    Map::new(
        |k: SubresourceKey| m.contains_key(k) || in_selector(k, id, sel),
        |k: SubresourceKey|
            if in_selector(k, id, sel) {
                request_outcome(m, k, usage).0[k]
            } else {
                m[k]
            },
    )
}

/// The transitions that a request of `usage` on every subresource of `id` inside `sel`
/// needs: `ts` lists those, each once per subresource.
pub open spec fn selector_transitions(
    m: Map<SubresourceKey, u32>,
    id: u64,
    sel: TextureSelector,
    usage: u32,
    ts: Seq<PendingTransition>,
) -> bool {
    &&& forall|j: int|
        0 <= j < ts.len() ==> in_selector(#[trigger] ts[j].key, id, sel) && request_outcome(
            m,
            ts[j].key,
            usage,
        ).1 == Some(ts[j])
    &&& forall|k: SubresourceKey|
        in_selector(k, id, sel) && (#[trigger] request_outcome(m, k, usage)).1 is Some ==> exists|
            j: int,
        |
            0 <= j < ts.len() && ts[j].key == k
}

spec fn done_before(k: SubresourceKey, id: u64, sel: TextureSelector, mip: u32, layer: u32) -> bool {
    in_selector(k, id, sel) && (k.mip_level < mip || (k.mip_level == mip && k.array_layer < layer))
}

spec fn partial_request(
    m0: Map<SubresourceKey, u32>,
    m: Map<SubresourceKey, u32>,
    ts: Seq<PendingTransition>,
    id: u64,
    sel: TextureSelector,
    usage: u32,
    mip: u32,
    layer: u32,
) -> bool {
    &&& forall|k: SubresourceKey| #[trigger]
        m.contains_key(k) <==> (m0.contains_key(k) || done_before(k, id, sel, mip, layer))
    &&& forall|k: SubresourceKey| #[trigger]
        m.contains_key(k) ==> m[k] == (if done_before(k, id, sel, mip, layer) {
            request_outcome(m0, k, usage).0[k]
        } else {
            m0[k]
        })
    &&& forall|j: int|
        0 <= j < ts.len() ==> done_before(#[trigger] ts[j].key, id, sel, mip, layer)
            && request_outcome(m0, ts[j].key, usage).1 == Some(ts[j])
    &&& forall|k: SubresourceKey|
        done_before(k, id, sel, mip, layer) && (#[trigger] request_outcome(m0, k, usage)).1 is Some
            ==> exists|j: int| 0 <= j < ts.len() && ts[j].key == k
}

proof fn lemma_partial_step(
    m0: Map<SubresourceKey, u32>,
    m: Map<SubresourceKey, u32>,
    ts: Seq<PendingTransition>,
    id: u64,
    sel: TextureSelector,
    usage: u32,
    mip: u32,
    layer: u32,
)
    requires
        partial_request(m0, m, ts, id, sel, usage, mip, layer),
        sel.levels.start <= mip < sel.levels.end,
        sel.layers.start <= layer < sel.layers.end,
    ensures
        ({
            let key = SubresourceKey { resource: id, mip_level: mip, array_layer: layer };
            let out = request_outcome(m, key, usage);
            let ts2 = match out.1 {
                Some(t) => ts.push(t),
                None => ts,
            };
            partial_request(m0, out.0, ts2, id, sel, usage, mip, (layer + 1) as u32)
        }),
{
    let key = SubresourceKey { resource: id, mip_level: mip, array_layer: layer };
    let out = request_outcome(m, key, usage);
    let ts2 = match out.1 {
        Some(t) => ts.push(t),
        None => ts,
    };
    assert(!done_before(key, id, sel, mip, layer));
    assert(m.contains_key(key) == m0.contains_key(key));
    assert(m.contains_key(key) ==> m[key] == m0[key]);
    assert(out.1 == request_outcome(m0, key, usage).1);
    assert forall|k: SubresourceKey| #[trigger]
        out.0.contains_key(k) <==> (m0.contains_key(k) || done_before(
            k,
            id,
            sel,
            mip,
            (layer + 1) as u32,
        )) by {
        assert(m.contains_key(k) <==> (m0.contains_key(k) || done_before(k, id, sel, mip, layer)));
    }
    assert forall|k: SubresourceKey| #[trigger] out.0.contains_key(k) implies out.0[k] == (
    if done_before(k, id, sel, mip, (layer + 1) as u32) {
        request_outcome(m0, k, usage).0[k]
    } else {
        m0[k]
    }) by {
        if k != key {
            assert(m.contains_key(k));
        }
    }
    assert forall|j: int| 0 <= j < ts2.len() implies done_before(
        #[trigger] ts2[j].key,
        id,
        sel,
        mip,
        (layer + 1) as u32,
    ) && request_outcome(m0, ts2[j].key, usage).1 == Some(ts2[j]) by {
        if j < ts.len() {
            assert(ts2[j] == ts[j]);
        }
    }
    assert forall|k: SubresourceKey|
        done_before(k, id, sel, mip, (layer + 1) as u32) && (#[trigger] request_outcome(
            m0,
            k,
            usage,
        )).1 is Some implies exists|j: int| 0 <= j < ts2.len() && ts2[j].key == k by {
        if k == key {
            assert(ts2[ts.len() as int].key == k);
        } else {
            assert(done_before(k, id, sel, mip, layer));
            let j = choose|j: int| 0 <= j < ts.len() && ts[j].key == k;
            assert(ts2[j] == ts[j]);
        }
    }
}

proof fn lemma_entry_in_view(es: Seq<TrackEntry>, i: int)
    requires
        keys_unique(es),
        0 <= i < es.len(),
    ensures
        entries_view(es).contains_key(es[i].key),
        entries_view(es)[es[i].key] == es[i].state,
{
    let k = es[i].key;
    assert(holds_key(es, k));
    let j = choose|j: int| 0 <= j < es.len() && #[trigger] es[j].key == k;
    assert(es[j].key == es[i].key);
}

proof fn lemma_view_update(es: Seq<TrackEntry>, i: int, s: u32)
    requires
        keys_unique(es),
        0 <= i < es.len(),
    ensures
        keys_unique(es.update(i, TrackEntry { key: es[i].key, state: s })),
        entries_view(es.update(i, TrackEntry { key: es[i].key, state: s })) == entries_view(
            es,
        ).insert(es[i].key, s),
{
    let k = es[i].key;
    let es2 = es.update(i, TrackEntry { key: k, state: s });
    assert forall|a: int, b: int|
        0 <= a < es2.len() && 0 <= b < es2.len() && a != b implies #[trigger] es2[a].key
        != #[trigger] es2[b].key by {
        assert(es2[a].key == es[a].key);
        assert(es2[b].key == es[b].key);
    }
    let m1 = entries_view(es2);
    let m2 = entries_view(es).insert(k, s);
    assert forall|q: SubresourceKey| #[trigger] m1.contains_key(q) <==> m2.contains_key(q) by {
        if holds_key(es, q) {
            let j = choose|j: int| 0 <= j < es.len() && #[trigger] es[j].key == q;
            assert(es2[j].key == q);
        }
        if holds_key(es2, q) {
            let j = choose|j: int| 0 <= j < es2.len() && #[trigger] es2[j].key == q;
            assert(es[j].key == q);
        }
        if q == k {
            assert(es2[i].key == k);
        }
    }
    assert forall|q: SubresourceKey| #[trigger] m1.contains_key(q) implies m1[q] == m2[q] by {
        let j = choose|j: int| 0 <= j < es2.len() && #[trigger] es2[j].key == q;
        lemma_entry_in_view(es2, j);
        if q == k {
            assert(j == i);
        } else {
            assert(es[j].key == q);
            lemma_entry_in_view(es, j);
        }
    }
    assert(m1 =~= m2);
}

proof fn lemma_view_push(es: Seq<TrackEntry>, e: TrackEntry)
    requires
        keys_unique(es),
        !entries_view(es).contains_key(e.key),
    ensures
        keys_unique(es.push(e)),
        entries_view(es.push(e)) == entries_view(es).insert(e.key, e.state),
{
    let es2 = es.push(e);
    assert forall|a: int, b: int|
        0 <= a < es2.len() && 0 <= b < es2.len() && a != b implies #[trigger] es2[a].key
        != #[trigger] es2[b].key by {
        if a == es.len() as int {
            assert(es[b].key == es2[b].key);
        } else if b == es.len() as int {
            assert(es[a].key == es2[a].key);
        } else {
            assert(es[a].key == es2[a].key);
            assert(es[b].key == es2[b].key);
        }
    }
    let m1 = entries_view(es2);
    let m2 = entries_view(es).insert(e.key, e.state);
    assert forall|q: SubresourceKey| #[trigger] m1.contains_key(q) <==> m2.contains_key(q) by {
        if holds_key(es, q) {
            let j = choose|j: int| 0 <= j < es.len() && #[trigger] es[j].key == q;
            assert(es2[j].key == q);
        }
        if holds_key(es2, q) {
            let j = choose|j: int| 0 <= j < es2.len() && #[trigger] es2[j].key == q;
            if j < es.len() {
                assert(es[j].key == q);
            }
        }
        if q == e.key {
            assert(es2[es.len() as int].key == q);
        }
    }
    assert forall|q: SubresourceKey| #[trigger] m1.contains_key(q) implies m1[q] == m2[q] by {
        let j = choose|j: int| 0 <= j < es2.len() && #[trigger] es2[j].key == q;
        lemma_entry_in_view(es2, j);
        if j < es.len() {
            assert(es[j].key == q);
            lemma_entry_in_view(es, j);
        }
    }
    assert(m1 =~= m2);
}

/// Joining two read-only states stays read-only.
pub proof fn lemma_read_only_union(a: u32, b: u32)
    requires
        is_read_only(a),
        is_read_only(b),
    ensures
        is_read_only(a | b),
{
    assert((a & 418u32 == 0 && b & 418u32 == 0) ==> (a | b) & 418u32 == 0) by (bit_vector);
}

/// A state joined with itself is unchanged.
pub proof fn lemma_union_self(a: u32)
    ensures
        a | a == a,
{
    assert(a | a == a) by (bit_vector);
}

/// Requesting the same usage twice in a row on one subresource: the second request
/// needs no barrier.
pub proof fn lemma_request_idempotent(m: Map<SubresourceKey, u32>, k: SubresourceKey, usage: u32)
    ensures
        request_outcome(request_outcome(m, k, usage).0, k, usage).1 is None,
        request_outcome(request_outcome(m, k, usage).0, k, usage).0 == request_outcome(
            m,
            k,
            usage,
        ).0,
{
    let m1 = request_outcome(m, k, usage).0;
    if m.contains_key(k) && compatible(m[k], usage) {
        if m[k] == usage {
            lemma_union_self(usage);
        } else {
            lemma_read_only_union(m[k], usage);
            let a = m[k];
            assert((a | usage) | usage == a | usage) by (bit_vector);
        }
    } else {
        lemma_union_self(usage);
    }
    assert(m1.contains_key(k));
    assert(m1.insert(k, m1[k] | usage) =~= m1);
}

/// Two extending requests of incompatible usages on one subresource: if the first is
/// accepted, the second is refused with a conflict that names that subresource.
pub proof fn lemma_extend_conflict(
    m: Map<SubresourceKey, u32>,
    k: SubresourceKey,
    first: u32,
    second: u32,
)
    requires
        !compatible(first, second),
        extend_outcome(m, k, first) is Ok,
    ensures
        extend_outcome(extend_outcome(m, k, first)->Ok_0, k, second) is Err,
        extend_outcome(extend_outcome(m, k, first)->Ok_0, k, second)->Err_0.key == k,
{
    let m1 = extend_outcome(m, k, first)->Ok_0;
    assert(m1.contains_key(k));
    if m.contains_key(k) {
        let s = m[k];
        if s == first {
            lemma_union_self(first);
        } else {
            lemma_read_only_union(s, first);
        }
    }
}

/// Usage states of subresources, as recorded by one command buffer, pass or bind group.
pub struct UsageTracker {
    entries: Vec<TrackEntry>,
}

impl View for UsageTracker {
    type V = Map<SubresourceKey, u32>;

    closed spec fn view(&self) -> Map<SubresourceKey, u32> {
        entries_view(self.entries@)
    }
}

impl UsageTracker {
    /// Each subresource is recorded at most once.
    pub closed spec fn wf(&self) -> bool {
        keys_unique(self.entries@)
    }

    /// The number of subresources tracked.
    pub closed spec fn spec_len(&self) -> nat {
        self.entries@.len()
    }

    /// The entry at a position of the tracker's own order.
    pub closed spec fn spec_entry(&self, i: int) -> TrackEntry {
        self.entries@[i]
    }

    pub fn new() -> (r: UsageTracker)
        ensures
            r.wf(),
            r@ == Map::<SubresourceKey, u32>::empty(),
    {
        let r = UsageTracker { entries: Vec::new() };
        assert(r@ =~= Map::<SubresourceKey, u32>::empty());
        r
    }

    /// Drops every recorded state.
    pub fn clear(&mut self)
        ensures
            final(self).wf(),
            final(self)@ == Map::<SubresourceKey, u32>::empty(),
    {
        self.entries = Vec::new();
        assert(self@ =~= Map::<SubresourceKey, u32>::empty());
    }

    pub fn len(&self) -> (r: usize)
        requires
            self.wf(),
        ensures
            r == self.spec_len(),
    {
        self.entries.len()
    }

    /// The entry at position `i`; the entries list every tracked subresource once.
    pub fn entry(&self, i: usize) -> (r: TrackEntry)
        requires
            self.wf(),
            i < self.spec_len(),
        ensures
            r == self.spec_entry(i as int),
            self@.contains_key(r.key),
            self@[r.key] == r.state,
    {
        proof {
            lemma_entry_in_view(self.entries@, i as int);
        }
        self.entries[i]
    }

    /// Every tracked subresource stands at some position.
    pub proof fn lemma_entries_cover(&self, k: SubresourceKey) -> (i: int)
        requires
            self.wf(),
            self@.contains_key(k),
        ensures
            0 <= i < self.spec_len(),
            self.spec_entry(i).key == k,
    {
        choose|j: int| 0 <= j < self.entries@.len() && #[trigger] self.entries@[j].key == k
    }

    fn find(&self, key: SubresourceKey) -> (r: Option<usize>)
        requires
            self.wf(),
        ensures
            match r {
                Some(i) => i < self.entries@.len() && self.entries@[i as int].key == key,
                None => !self@.contains_key(key),
            },
    {
        let mut i: usize = 0;
        while i < self.entries.len()
            invariant
                i <= self.entries@.len(),
                forall|j: int| 0 <= j < i ==> #[trigger] self.entries@[j].key != key,
            decreases self.entries@.len() - i,
        {
            if self.entries[i].key == key {
                return Some(i);
            }
            i = i + 1;
        }
        None
    }

    /// The state recorded for `key`, if any.
    pub fn get(&self, key: SubresourceKey) -> (r: Option<u32>)
        requires
            self.wf(),
        ensures
            r == (if self@.contains_key(key) {
                Some(self@[key])
            } else {
                None
            }),
    {
        match self.find(key) {
            Some(i) => {
                proof {
                    lemma_entry_in_view(self.entries@, i as int);
                }
                Some(self.entries[i].state)
            },
            None => None,
        }
    }

    fn set(&mut self, key: SubresourceKey, state: u32)
        requires
            old(self).wf(),
        ensures
            final(self).wf(),
            final(self)@ == old(self)@.insert(key, state),
    {
        match self.find(key) {
            Some(i) => {
                proof {
                    lemma_view_update(self.entries@, i as int, state);
                }
                self.entries.set(i, TrackEntry { key, state });
            },
            None => {
                proof {
                    lemma_view_push(self.entries@, TrackEntry { key, state });
                }
                self.entries.push(TrackEntry { key, state });
            },
        }
    }

    /// Requests `usage` on `key`, replacing an incompatible state: the access is always
    /// allowed, and the barrier it needs, if any, is returned.
    pub fn request(&mut self, key: SubresourceKey, usage: u32) -> (r: Option<PendingTransition>)
        requires
            old(self).wf(),
        ensures
            final(self).wf(),
            (final(self)@, r) == request_outcome(old(self)@, key, usage),
    {
        match self.get(key) {
            None => {
                self.set(key, usage);
                None
            },
            Some(s) => {
                if s == usage || (s & USE_EXCLUSIVE == 0 && usage & USE_EXCLUSIVE == 0) {
                    self.set(key, s | usage);
                    None
                } else {
                    self.set(key, usage);
                    Some(PendingTransition { key, old: s, new: usage })
                }
            },
        }
    }

    /// Requests `usage`, replacing, on every subresource of texture `id` inside `sel`, and
    /// returns the barriers needed, one per subresource that needs one.
    pub fn request_selector(&mut self, id: u64, sel: TextureSelector, usage: u32) -> (r: Vec<
        PendingTransition,
    >)
        requires
            old(self).wf(),
        ensures
            final(self).wf(),
            final(self)@ == requested_selector(old(self)@, id, sel, usage),
            selector_transitions(old(self)@, id, sel, usage, r@),
    {
        let ghost m0 = self@;
        let mut ts: Vec<PendingTransition> = Vec::new();
        let mut mip = sel.levels.start;
        proof {
            assert forall|k: SubresourceKey| #[trigger]
                self@.contains_key(k) implies self@[k] == (if done_before(
                    k,
                    id,
                    sel,
                    mip,
                    sel.layers.start,
                ) {
                    request_outcome(m0, k, usage).0[k]
                } else {
                    m0[k]
                }) by {}
        }
        while mip < sel.levels.end
            invariant
                self.wf(),
                sel.levels.start <= mip || sel.levels.start >= sel.levels.end,
                mip >= sel.levels.start,
                partial_request(m0, self@, ts@, id, sel, usage, mip, sel.layers.start),
            decreases sel.levels.end - mip,
        {
            let mut layer = sel.layers.start;
            while layer < sel.layers.end
                invariant
                    self.wf(),
                    sel.levels.start <= mip < sel.levels.end,
                    layer >= sel.layers.start,
                    partial_request(m0, self@, ts@, id, sel, usage, mip, layer),
                decreases sel.layers.end - layer,
            {
                let key = SubresourceKey { resource: id, mip_level: mip, array_layer: layer };
                proof {
                    lemma_partial_step(m0, self@, ts@, id, sel, usage, mip, layer);
                }
                let t = self.request(key, usage);
                match t {
                    Some(t) => {
                        ts.push(t);
                    },
                    None => {},
                }
                layer = layer + 1;
            }
            proof {
                assert forall|k: SubresourceKey|
                    done_before(k, id, sel, mip, layer) == done_before(
                        k,
                        id,
                        sel,
                        (mip + 1) as u32,
                        sel.layers.start,
                    ) by {}
            }
            mip = mip + 1;
        }
        proof {
            assert forall|k: SubresourceKey|
                done_before(k, id, sel, mip, sel.layers.start) == in_selector(k, id, sel) by {}
            assert(self@ =~= requested_selector(m0, id, sel, usage));
        }
        ts
    }

    /// Requests, replacing, every state that `other` records, and returns the barriers
    /// needed, in `other`'s order.
    #[verifier::rlimit(80)]
    pub fn apply_all(&mut self, other: &UsageTracker) -> (r: Vec<PendingTransition>)
        requires
            old(self).wf(),
            other.wf(),
        ensures
            final(self).wf(),
            final(self)@ == replaced_by(old(self)@, other@),
            exact_transitions(old(self)@, other@, r@),
    {
        let ghost m0 = self@;
        let mut ts: Vec<PendingTransition> = Vec::new();
        let n = other.entries.len();
        let mut i: usize = 0;
        while i < n
            invariant
                n == other.entries@.len(),
                i <= n,
                self.wf(),
                other.wf(),
                forall|k: SubresourceKey| #[trigger]
                    self@.contains_key(k) <==> (m0.contains_key(k) || exists|j: int|
                        0 <= j < i && other.entries@[j].key == k),
                forall|k: SubresourceKey| #[trigger]
                    self@.contains_key(k) ==> self@[k] == (if exists|j: int|
                        0 <= j < i && other.entries@[j].key == k {
                        request_outcome(m0, k, other@[k]).0[k]
                    } else {
                        m0[k]
                    }),
                forall|j: int|
                    0 <= j < ts@.len() ==> other@.contains_key(#[trigger] ts@[j].key)
                        && request_outcome(m0, ts@[j].key, other@[ts@[j].key]).1 == Some(ts@[j]),
                forall|j: int|
                    0 <= j < ts@.len() ==> exists|q: int|
                        0 <= q < i && other.entries@[q].key == #[trigger] ts@[j].key,
                forall|a: int, b: int|
                    0 <= a < ts@.len() && 0 <= b < ts@.len() && a != b ==> #[trigger] ts@[a].key
                        != #[trigger] ts@[b].key,
                forall|q: int|
                    0 <= q < i && (#[trigger] request_outcome(
                        m0,
                        other.entries@[q].key,
                        other@[other.entries@[q].key],
                    )).1 is Some ==> exists|j: int|
                        0 <= j < ts@.len() && ts@[j].key == other.entries@[q].key,
            decreases n - i,
        {
            let e = other.entries[i];
            let ghost ii = i as int;
            proof {
                lemma_entry_in_view(other.entries@, ii);
                if exists|j: int| 0 <= j < ii && other.entries@[j].key == e.key {
                    let j = choose|j: int| 0 <= j < ii && other.entries@[j].key == e.key;
                    assert(other.entries@[j].key == other.entries@[ii].key);
                }
            }
            let ghost before = self@;
            let ghost ts0 = ts@;
            let t = self.request(e.key, e.state);
            match t {
                Some(t) => {
                    ts.push(t);
                },
                None => {},
            }
            proof {
                assert(!(exists|q: int| 0 <= q < ii && other.entries@[q].key == e.key)) by {
                    if exists|q: int| 0 <= q < ii && other.entries@[q].key == e.key {
                        let q = choose|q: int| 0 <= q < ii && other.entries@[q].key == e.key;
                        assert(other.entries@[q].key == other.entries@[ii].key);
                    }
                }
                assert forall|j: int| 0 <= j < ts@.len() implies exists|q: int|
                    0 <= q < ii + 1 && other.entries@[q].key == #[trigger] ts@[j].key by {
                    if j < ts0.len() {
                        assert(ts@[j] == ts0[j]);
                        let q = choose|q: int| 0 <= q < ii && other.entries@[q].key == ts0[j].key;
                        assert(0 <= q < ii + 1 && other.entries@[q].key == ts@[j].key);
                    } else {
                        assert(ts@[j].key == e.key);
                        assert(other.entries@[ii].key == ts@[j].key);
                    }
                }
                assert forall|a: int, b: int|
                    0 <= a < ts@.len() && 0 <= b < ts@.len() && a != b implies #[trigger] ts@[a].key
                    != #[trigger] ts@[b].key by {
                    if a < ts0.len() && b < ts0.len() {
                        assert(ts@[a] == ts0[a] && ts@[b] == ts0[b]);
                    } else if a < ts0.len() {
                        assert(ts@[a] == ts0[a]);
                        let q = choose|q: int| 0 <= q < ii && other.entries@[q].key == ts0[a].key;
                    } else if b < ts0.len() {
                        assert(ts@[b] == ts0[b]);
                        let q = choose|q: int| 0 <= q < ii && other.entries@[q].key == ts0[b].key;
                    }
                }
                assert forall|q: int|
                    0 <= q < ii + 1 && (#[trigger] request_outcome(
                        m0,
                        other.entries@[q].key,
                        other@[other.entries@[q].key],
                    )).1 is Some implies exists|j: int|
                    0 <= j < ts@.len() && ts@[j].key == other.entries@[q].key by {
                    if q < ii {
                        let j = choose|j: int| 0 <= j < ts0.len() && ts0[j].key == other.entries@[q].key;
                        assert(ts@[j] == ts0[j]);
                    } else {
                        assert(ts@[ts@.len() - 1].key == e.key);
                    }
                }
                assert forall|k: SubresourceKey| #[trigger]
                    self@.contains_key(k) <==> (m0.contains_key(k) || exists|j: int|
                        0 <= j < ii + 1 && other.entries@[j].key == k) by {
                    if k == e.key {
                        assert(other.entries@[ii].key == k);
                    }
                    if exists|j: int| 0 <= j < ii + 1 && other.entries@[j].key == k {
                        let j = choose|j: int| 0 <= j < ii + 1 && other.entries@[j].key == k;
                        if j == ii {
                            assert(k == e.key);
                        }
                    }
                }
                assert forall|k: SubresourceKey| #[trigger]
                    self@.contains_key(k) implies self@[k] == (if exists|j: int|
                        0 <= j < ii + 1 && other.entries@[j].key == k {
                        request_outcome(m0, k, other@[k]).0[k]
                    } else {
                        m0[k]
                    }) by {
                    if k == e.key {
                        assert(other.entries@[ii].key == k);
                    } else {
                        assert(before.contains_key(k));
                        if exists|j: int| 0 <= j < ii + 1 && other.entries@[j].key == k {
                            let j = choose|j: int| 0 <= j < ii + 1 && other.entries@[j].key == k;
                            if j == ii {
                                assert(k == e.key);
                            }
                            assert(exists|j: int| 0 <= j < ii && other.entries@[j].key == k);
                        }
                    }
                }
            }
            i = i + 1;
        }
        proof {
            assert forall|k: SubresourceKey| #[trigger]
                self@.contains_key(k) <==> replaced_by(m0, other@).contains_key(k) by {
                if other@.contains_key(k) {
                    let j = other.lemma_entries_cover(k);
                }
                if exists|j: int| 0 <= j < n && other.entries@[j].key == k {
                    let j = choose|j: int| 0 <= j < n && other.entries@[j].key == k;
                    lemma_entry_in_view(other.entries@, j);
                }
            }
            assert forall|k: SubresourceKey| #[trigger] self@.contains_key(k) implies self@[k]
                == replaced_by(m0, other@)[k] by {
                if other@.contains_key(k) {
                    let j = other.lemma_entries_cover(k);
                }
                if exists|j: int| 0 <= j < n && other.entries@[j].key == k {
                    let j = choose|j: int| 0 <= j < n && other.entries@[j].key == k;
                    lemma_entry_in_view(other.entries@, j);
                }
            }
            assert(self@ =~= replaced_by(m0, other@));
            assert forall|k: SubresourceKey|
                other@.contains_key(k) && (#[trigger] request_outcome(m0, k, other@[k])).1 is Some
                    implies exists|j: int| 0 <= j < ts@.len() && ts@[j].key == k by {
                let q = other.lemma_entries_cover(k);
            }
        }
        ts
    }

    /// Requests `usage` on `key`, joining it with a compatible state; an incompatible one
    /// is a conflict, and the tracker is then left as it was.
    pub fn extend(&mut self, key: SubresourceKey, usage: u32) -> (r: Result<(), UsageConflict>)
        requires
            old(self).wf(),
        ensures
            final(self).wf(),
            match extend_outcome(old(self)@, key, usage) {
                Ok(m) => r is Ok && final(self)@ == m,
                Err(e) => r == Err::<(), UsageConflict>(e) && final(self)@ == old(self)@,
            },
    {
        match self.get(key) {
            None => {
                self.set(key, usage);
                Ok(())
            },
            Some(s) => {
                if s == usage || (s & USE_EXCLUSIVE == 0 && usage & USE_EXCLUSIVE == 0) {
                    self.set(key, s | usage);
                    Ok(())
                } else {
                    Err(UsageConflict { key, old: s, new: usage })
                }
            },
        }
    }

    /// Takes in every state of `other`, joining where both track a subresource. The first
    /// incompatible pair found is returned as a conflict, and the tracker is then left as
    /// it was.
    pub fn merge_extend(&mut self, other: &UsageTracker) -> (r: Result<(), UsageConflict>)
        requires
            old(self).wf(),
            other.wf(),
        ensures
            final(self).wf(),
            r is Ok <==> can_merge(old(self)@, other@),
            r is Ok ==> final(self)@ == merged(old(self)@, other@),
            r matches Err(e) ==> final(self)@ == old(self)@ && old(self)@.contains_key(e.key)
                && other@.contains_key(e.key) && e.old == old(self)@[e.key] && e.new
                == other@[e.key] && !compatible(e.old, e.new),
    {
        let n = other.entries.len();
        let mut i: usize = 0;
        while i < n
            invariant
                n == other.entries@.len(),
                i <= n,
                self.wf(),
                other.wf(),
                self@ == old(self)@,
                forall|j: int|
                    0 <= j < i && self@.contains_key(#[trigger] other.entries@[j].key) ==> compatible(
                        self@[other.entries@[j].key],
                        other.entries@[j].state,
                    ),
            decreases n - i,
        {
            let e = other.entries[i];
            match self.get(e.key) {
                Some(s) => {
                    if !(s == e.state || (s & USE_EXCLUSIVE == 0 && e.state & USE_EXCLUSIVE == 0)) {
                        proof {
                            lemma_entry_in_view(other.entries@, i as int);
                        }
                        return Err(UsageConflict { key: e.key, old: s, new: e.state });
                    }
                },
                None => {},
            }
            i = i + 1;
        }
        proof {
            assert forall|k: SubresourceKey|
                old(self)@.contains_key(k) && other@.contains_key(k) implies compatible(
                #[trigger] old(self)@[k],
                other@[k],
            ) by {
                let j = other.lemma_entries_cover(k);
                lemma_entry_in_view(other.entries@, j);
            }
        }
        let ghost start = self@;
        let mut i: usize = 0;
        while i < n
            invariant
                n == other.entries@.len(),
                i <= n,
                self.wf(),
                other.wf(),
                start == old(self)@,
                can_merge(start, other@),
                forall|k: SubresourceKey| #[trigger]
                    self@.contains_key(k) <==> (start.contains_key(k) || exists|j: int|
                        0 <= j < i && other.entries@[j].key == k),
                forall|k: SubresourceKey|
                    #[trigger] self@.contains_key(k) ==> self@[k] == (if start.contains_key(k)
                        && exists|j: int| 0 <= j < i && other.entries@[j].key == k {
                        start[k] | other@[k]
                    } else if start.contains_key(k) {
                        start[k]
                    } else {
                        other@[k]
                    }),
            decreases n - i,
        {
            let e = other.entries[i];
            proof {
                lemma_entry_in_view(other.entries@, i as int);
            }
            let cur = self.get(e.key);
            match cur {
                Some(s) => {
                    self.set(e.key, s | e.state);
                },
                None => {
                    self.set(e.key, e.state);
                },
            }
            proof {
                let ghost ii = i as int;
                assert forall|k: SubresourceKey| #[trigger]
                    self@.contains_key(k) <==> (start.contains_key(k) || exists|j: int|
                        0 <= j < ii + 1 && other.entries@[j].key == k) by {
                    if k == e.key {
                        assert(other.entries@[ii].key == k);
                    }
                    if exists|j: int| 0 <= j < ii + 1 && other.entries@[j].key == k {
                        let j = choose|j: int| 0 <= j < ii + 1 && other.entries@[j].key == k;
                        if j < ii {
                        } else {
                            assert(k == e.key);
                        }
                    }
                }
                assert forall|k: SubresourceKey| #[trigger]
                    self@.contains_key(k) implies self@[k] == (if start.contains_key(k)
                        && exists|j: int| 0 <= j < ii + 1 && other.entries@[j].key == k {
                        start[k] | other@[k]
                    } else if start.contains_key(k) {
                        start[k]
                    } else {
                        other@[k]
                    }) by {
                    if k == e.key {
                        assert(other.entries@[ii].key == k);
                        let before = exists|j: int| 0 <= j < ii && other.entries@[j].key == k;
                        if before {
                            let j = choose|j: int| 0 <= j < ii && other.entries@[j].key == k;
                            assert(other.entries@[j].key == other.entries@[ii].key);
                        }
                        if start.contains_key(k) {
                            assert(start[k] == s_of(cur));
                        }
                    } else {
                        if exists|j: int| 0 <= j < ii + 1 && other.entries@[j].key == k {
                            let j = choose|j: int| 0 <= j < ii + 1 && other.entries@[j].key == k;
                            if j == ii {
                                assert(k == e.key);
                            }
                            assert(exists|j: int| 0 <= j < ii && other.entries@[j].key == k);
                        }
                    }
                }
            }
            i = i + 1;
        }
        proof {
            assert forall|k: SubresourceKey| #[trigger]
                self@.contains_key(k) <==> merged(start, other@).contains_key(k) by {
                if other@.contains_key(k) {
                    let j = other.lemma_entries_cover(k);
                }
            }
            assert forall|k: SubresourceKey| #[trigger] self@.contains_key(k) implies self@[k]
                == merged(start, other@)[k] by {
                if other@.contains_key(k) {
                    let j = other.lemma_entries_cover(k);
                }
                if exists|j: int| 0 <= j < n && other.entries@[j].key == k {
                    let j = choose|j: int| 0 <= j < n && other.entries@[j].key == k;
                    lemma_entry_in_view(other.entries@, j);
                }
            }
            assert(self@ =~= merged(start, other@));
        }
        Ok(())
    }
}

spec fn s_of(o: Option<u32>) -> u32 {
    match o {
        Some(s) => s,
        None => 0,
    }
}

} // verus!
