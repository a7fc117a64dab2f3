use marketlog::esi::{
    clean_description, keep_last_30, make_type_info, EsiTypeResponse, TtlCache, CACHE_TTL_MS,
};

#[test]
fn tags_stripped() {
    assert_eq!(clean_description("<b>Hello</b> world"), "Hello world");
    assert_eq!(clean_description("plain"), "plain");
    assert_eq!(clean_description("<i>a</i><u>b</u>"), "ab");
}

#[test]
fn empty_brackets_stay() {
    assert_eq!(clean_description("a<>b"), "a<>b");
}

#[test]
fn unclosed_bracket_stays() {
    assert_eq!(clean_description("a<bc"), "a<bc");
}

#[test]
fn make_type_info_shapes_response() {
    let resp = EsiTypeResponse {
        type_id: 34,
        name: "Tritanium".to_string(),
        description: "<b>The</b> most common ore.".to_string(),
    };
    let info = make_type_info(resp, "https://example.invalid/types/34/icon".to_string());
    assert_eq!(info.type_id, 34);
    assert_eq!(info.name, "Tritanium");
    assert_eq!(info.description, "The most common ore.");
    assert_eq!(info.icon_url, "https://example.invalid/types/34/icon");
}

#[test]
fn cache_hit_before_expiry() {
    let mut cache: TtlCache<String> = TtlCache::new();
    cache.store(34, "Tritanium".to_string(), 1_000, CACHE_TTL_MS);
    let hit = cache.lookup(34, 2_000);
    assert_eq!(hit.map(|s| s.as_str()), Some("Tritanium"));
}

#[test]
fn cache_miss_after_expiry() {
    let mut cache: TtlCache<String> = TtlCache::new();
    cache.store(34, "Tritanium".to_string(), 1_000, CACHE_TTL_MS);
    assert!(cache.lookup(34, 1_000 + CACHE_TTL_MS).is_none());
}

#[test]
fn cache_miss_for_unknown_id() {
    let cache: TtlCache<String> = TtlCache::new();
    assert!(cache.lookup(603, 0).is_none());
}

#[test]
fn cache_store_replaces() {
    let mut cache: TtlCache<String> = TtlCache::new();
    cache.store(34, "old".to_string(), 0, 10);
    cache.store(34, "new".to_string(), 100, CACHE_TTL_MS);
    assert_eq!(cache.lookup(34, 200).map(|s| s.as_str()), Some("new"));
}

#[test]
fn history_keeps_last_thirty() {
    let v: Vec<u32> = (0..35).collect();
    let kept = keep_last_30(v);
    assert_eq!(kept.len(), 30);
    assert_eq!(kept[0], 5);
    assert_eq!(kept[29], 34);
}

#[test]
fn short_history_kept_whole() {
    let v: Vec<u32> = (0..7).collect();
    assert_eq!(keep_last_30(v), (0..7).collect::<Vec<u32>>());
}
