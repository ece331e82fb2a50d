use wikipath::WikiUrl;
use wikipath::cache::{
    DbCache, FnvHasher, clear_for_page, clear_mem, fetch_from_cache, insert_into_cache,
};

fn u(s: &str) -> WikiUrl {
    WikiUrl(String::from(s))
}

#[test]
fn insert_then_lookup_returns_links() {
    let mut cache = DbCache::create();
    let page = u("P");
    let links = vec![u("X"), u("Y")];
    insert_into_cache(&mut cache, &page, &links);
    assert_eq!(fetch_from_cache(&cache, &page), Some(vec![u("X"), u("Y")]));
}

#[test]
fn lookup_of_unknown_page_is_absent() {
    let cache = DbCache::create();
    assert_eq!(fetch_from_cache(&cache, &u("nowhere")), None);
}

#[test]
fn insert_overwrites_memory_entry() {
    let mut cache = DbCache::create();
    let page = u("P");
    insert_into_cache(&mut cache, &page, &vec![u("X")]);
    insert_into_cache(&mut cache, &page, &vec![u("Y"), u("Z")]);
    assert_eq!(fetch_from_cache(&cache, &page), Some(vec![u("Y"), u("Z")]));
}

#[test]
fn double_insert_accumulates_durable_rows() {
    let mut cache = DbCache::create();
    let page = u("P");
    let links = vec![u("X"), u("Y")];
    insert_into_cache(&mut cache, &page, &links);
    insert_into_cache(&mut cache, &page, &links);
    // the memory tier keeps exactly the last write
    assert_eq!(fetch_from_cache(&cache, &page), Some(vec![u("X"), u("Y")]));
    // the worker applies both commands, in submission order
    assert!(cache.apply_next_offload());
    assert!(cache.apply_next_offload());
    assert!(!cache.apply_next_offload());
    // the durable tier has accumulated four rows, not two
    clear_mem(&mut cache);
    assert_eq!(
        fetch_from_cache(&cache, &page),
        Some(vec![u("X"), u("Y"), u("X"), u("Y")])
    );
}

#[test]
fn clear_mem_leaves_durable_tier_alone() {
    let mut cache = DbCache::create();
    let page = u("P");
    insert_into_cache(&mut cache, &page, &vec![u("X")]);
    assert!(cache.apply_next_offload());
    clear_mem(&mut cache);
    assert_eq!(fetch_from_cache(&cache, &page), Some(vec![u("X")]));
}

#[test]
fn unapplied_write_is_not_durable_yet() {
    let mut cache = DbCache::create();
    let page = u("P");
    insert_into_cache(&mut cache, &page, &vec![u("X")]);
    clear_mem(&mut cache);
    assert_eq!(fetch_from_cache(&cache, &page), None);
}

#[test]
fn invalidate_then_lookup_is_absent() {
    let mut cache = DbCache::create();
    let page = u("P");
    insert_into_cache(&mut cache, &page, &vec![u("X"), u("Y")]);
    assert!(cache.apply_next_offload());
    clear_for_page(&mut cache, &page);
    assert_eq!(fetch_from_cache(&cache, &page), None);
}

#[test]
fn invalidate_spares_other_pages() {
    let mut cache = DbCache::create();
    insert_into_cache(&mut cache, &u("P"), &vec![u("X")]);
    insert_into_cache(&mut cache, &u("Q"), &vec![u("Y")]);
    clear_for_page(&mut cache, &u("P"));
    assert_eq!(fetch_from_cache(&cache, &u("P")), None);
    assert_eq!(fetch_from_cache(&cache, &u("Q")), Some(vec![u("Y")]));
}

#[test]
fn fnv_starts_from_offset_basis() {
    let h = FnvHasher::default();
    assert_eq!(h.finish(), 0xcbf29ce484222325);
}

#[test]
fn fnv_of_empty_input_is_unchanged() {
    let mut h = FnvHasher::default();
    h.write(b"");
    assert_eq!(h.finish(), 0xcbf29ce484222325);
}

#[test]
fn fnv_of_one_byte_matches_reference_value() {
    let mut h = FnvHasher::default();
    h.write(b"a");
    assert_eq!(h.finish(), 0xaf63dc4c8601ec8c);
}

#[test]
fn fnv_write_is_incremental() {
    let mut one = FnvHasher::default();
    one.write(b"chain");
    let mut two = FnvHasher::default();
    two.write(b"ch");
    two.write(b"ain");
    assert_eq!(one.finish(), two.finish());
}
