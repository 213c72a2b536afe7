use wgpu_core::track::{
    PendingTransition, SubresourceKey, UsageTracker, USE_COPY_DST, USE_SAMPLED,
    USE_STORAGE_WRITE, USE_UNIFORM,
};

fn key(resource: u64) -> SubresourceKey {
    SubresourceKey { resource, mip_level: 0, array_layer: 0 }
}

#[test]
fn repeated_request_needs_no_barrier() {
    let mut t = UsageTracker::new();
    assert_eq!(t.request(key(1), USE_COPY_DST), None);
    assert_eq!(t.request(key(1), USE_COPY_DST), None);
    assert_eq!(t.get(key(1)), Some(USE_COPY_DST));
    assert_eq!(t.request(key(2), USE_SAMPLED), None);
    assert_eq!(t.request(key(2), USE_SAMPLED), None);
}

#[test]
fn incompatible_request_returns_transition() {
    let mut t = UsageTracker::new();
    assert_eq!(t.request(key(1), USE_SAMPLED), None);
    assert_eq!(
        t.request(key(1), USE_COPY_DST),
        Some(PendingTransition { key: key(1), old: USE_SAMPLED, new: USE_COPY_DST })
    );
    assert_eq!(t.get(key(1)), Some(USE_COPY_DST));
    // Two reads join.
    assert_eq!(t.request(key(3), USE_SAMPLED), None);
    assert_eq!(t.request(key(3), USE_UNIFORM), None);
    assert_eq!(t.get(key(3)), Some(USE_SAMPLED | USE_UNIFORM));
}

#[test]
fn incompatible_extend_is_a_conflict() {
    let mut t = UsageTracker::new();
    assert!(t.extend(key(7), USE_SAMPLED).is_ok());
    let e = t.extend(key(7), USE_STORAGE_WRITE).unwrap_err();
    assert_eq!(e.key, key(7));
    assert_eq!(e.old, USE_SAMPLED);
    assert_eq!(e.new, USE_STORAGE_WRITE);
    // The tracker is left as it was.
    assert_eq!(t.get(key(7)), Some(USE_SAMPLED));
}

#[test]
fn merge_extend_joins_or_conflicts() {
    let mut a = UsageTracker::new();
    a.request(key(1), USE_SAMPLED);
    let mut b = UsageTracker::new();
    b.request(key(1), USE_UNIFORM);
    b.request(key(2), USE_STORAGE_WRITE);
    assert!(a.merge_extend(&b).is_ok());
    assert_eq!(a.get(key(1)), Some(USE_SAMPLED | USE_UNIFORM));
    assert_eq!(a.get(key(2)), Some(USE_STORAGE_WRITE));

    let mut c = UsageTracker::new();
    c.request(key(2), USE_SAMPLED);
    let e = a.merge_extend(&c).unwrap_err();
    assert_eq!(e.key.resource, 2);
    assert_eq!(a.get(key(2)), Some(USE_STORAGE_WRITE));
}

#[test]
fn apply_all_emits_barriers_in_order() {
    let mut base = UsageTracker::new();
    base.request(key(1), USE_SAMPLED);
    let mut local = UsageTracker::new();
    local.request(key(1), USE_COPY_DST);
    local.request(key(2), USE_SAMPLED);
    let ts = base.apply_all(&local);
    assert_eq!(
        ts,
        vec![PendingTransition { key: key(1), old: USE_SAMPLED, new: USE_COPY_DST }]
    );
    assert_eq!(base.get(key(2)), Some(USE_SAMPLED));
    local.clear();
    assert_eq!(local.len(), 0);
}
