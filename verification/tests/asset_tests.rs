use engine_core::assets::handle::Handle;
use engine_core::assets::storage::AssetMap;

#[test]
fn add_then_get_and_lookup_by_path() {
    let mut map: AssetMap<u32> = AssetMap::new();
    assert!(map.is_empty());
    let h = map.add(5, "a.png".to_string());
    assert_eq!(h.index(), 0);
    assert_eq!(h.generation(), 0);
    assert_eq!(map.get(h), Some(&5));
    assert_eq!(map.get_by_path("a.png"), Some(&5));
    assert_eq!(map.get_handle("a.png"), Some(h));
    assert_eq!(map.path_of(h), Some("a.png"));
    assert!(map.contains(h));
    assert_eq!(map.len(), 1);
    assert!(!map.is_empty());
}

#[test]
fn removed_handle_is_stale_and_slot_reused_with_new_generation() {
    let mut map: AssetMap<u32> = AssetMap::new();
    let h = map.add(5, "a".to_string());
    let _k = map.add(6, "b".to_string());
    assert_eq!(map.remove(h), Some(5));
    assert_eq!(map.get(h), None);
    assert!(!map.contains(h));
    assert_eq!(map.remove(h), None);
    assert_eq!(map.get_by_path("a"), None);
    assert_eq!(map.path_of(h), None);
    assert_eq!(map.len(), 1);
    let h2 = map.add(7, "c".to_string());
    assert_eq!(h2.index(), h.index());
    assert_eq!(h2.generation(), 1);
    assert_eq!(map.get(h), None);
    assert_eq!(map.get(h2), Some(&7));
}

#[test]
fn get_mut_changes_value() {
    let mut map: AssetMap<u32> = AssetMap::new();
    let h = map.add(1, "x".to_string());
    if let Some(v) = map.get_mut(h) {
        *v = 9;
    }
    assert_eq!(map.get(h), Some(&9));
    assert!(map.get_mut(Handle::dangling()).is_none());
}

#[test]
fn dangling_and_forged_handles_resolve_to_nothing() {
    let mut map: AssetMap<u32> = AssetMap::new();
    let h = map.add(1, "x".to_string());
    assert_eq!(map.get(Handle::dangling()), None);
    assert_eq!(map.get(Handle::from_raw(h.index(), 3)), None);
    assert_eq!(map.get(Handle::from_raw(8, 0)), None);
    assert_eq!(map.remove(Handle::from_raw(h.index(), 3)), None);
    assert_eq!(map.len(), 1);
}

#[test]
fn same_path_twice_points_at_latest() {
    let mut map: AssetMap<u32> = AssetMap::new();
    let _h1 = map.add(1, "p".to_string());
    let h2 = map.add(2, "p".to_string());
    assert_eq!(map.get_handle("p"), Some(h2));
    assert_eq!(map.get_by_path("p"), Some(&2));
    assert_eq!(map.len(), 2);
}

#[test]
fn iter_lists_live_assets_in_slot_order() {
    let mut map: AssetMap<u32> = AssetMap::new();
    let a = map.add(1, "a".to_string());
    let b = map.add(2, "b".to_string());
    let c = map.add(3, "c".to_string());
    map.remove(b);
    let items: Vec<(Handle<u32>, u32)> = map.iter().into_iter().map(|(h, v)| (h, *v)).collect();
    assert_eq!(items, vec![(a, 1), (c, 3)]);
}

#[test]
fn default_map_is_empty() {
    let map: AssetMap<u32> = AssetMap::default();
    assert_eq!(map.len(), 0);
}

#[test]
fn removing_an_earlier_asset_keeps_the_path_of_a_later_one() {
    let mut map: AssetMap<u32> = AssetMap::new();
    let h0 = map.add(1, "a".to_string());
    let h1 = map.add(2, "a".to_string());
    assert_eq!(map.remove(h0), Some(1));
    assert_eq!(map.get_handle("a"), Some(h1));
    assert_eq!(map.get_by_path("a"), Some(&2));
    assert_eq!(map.path_of(h1), Some("a"));
}

#[test]
fn stale_handle_has_no_path() {
    let mut map: AssetMap<u32> = AssetMap::new();
    let h1 = map.add(1, "a".to_string());
    map.remove(h1);
    let h2 = map.add(2, "b".to_string());
    assert_eq!(h2.index(), h1.index());
    assert_eq!(map.path_of(h1), None);
    assert_eq!(map.path_of(h2), Some("b"));
}

#[test]
fn iter_yields_len_items_after_removals() {
    let mut map: AssetMap<u32> = AssetMap::new();
    let a = map.add(1, "a".to_string());
    let _b = map.add(2, "b".to_string());
    let c = map.add(3, "c".to_string());
    map.remove(a);
    map.remove(c);
    let _d = map.add(4, "d".to_string());
    let items = map.iter();
    assert_eq!(items.len(), map.len());
    assert_eq!(map.len(), 2);
    let values: Vec<u32> = items.iter().map(|(_, v)| **v).collect();
    assert_eq!(values, vec![2, 4]);
}
