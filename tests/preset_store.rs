use dpui::error::CoreError;
use dpui::preset::{add_preset, delete_preset, insert_preset, update_preset, Preset, PresetStore};

fn sample(id: &str, name: &str, hotkey: Option<&str>) -> Preset {
    Preset {
        id: id.to_string(),
        name: name.to_string(),
        config: format!("id:{} origin:(0,0)", id),
        hotkey: hotkey.map(|h| h.to_string()),
        created_at: "2024-01-01T00:00:00+00:00".to_string(),
    }
}

fn contents(store: &PresetStore) -> Vec<(String, String, String, Option<String>, String)> {
    store
        .presets
        .iter()
        .map(|p| (p.id.clone(), p.name.clone(), p.config.clone(), p.hotkey.clone(), p.created_at.clone()))
        .collect()
}

#[test]
fn default_store_is_empty_at_current_version() {
    let s = PresetStore::default();
    assert_eq!(s.version, "1.0");
    assert!(s.presets.is_empty());
}

#[test]
fn add_appends_with_fresh_id_and_timestamp() {
    let mut s = PresetStore::default();
    s.presets.push(sample("a", "A", None));
    let p = add_preset(&mut s, "Desk".to_string(), "id:1 origin:(0,0)".to_string(), Some("Cmd+1".to_string())).unwrap();
    assert_eq!(s.presets.len(), 2);
    assert_eq!(s.presets[1].id, p.id);
    assert_eq!(p.name, "Desk");
    assert_eq!(p.config, "id:1 origin:(0,0)");
    assert_eq!(p.hotkey.as_deref(), Some("Cmd+1"));
    assert_eq!(p.id.len(), 36);
    assert_eq!(p.id.matches('-').count(), 4);
    assert!(!p.created_at.is_empty());
    let q = add_preset(&mut s, "Other".to_string(), String::new(), None).unwrap();
    assert_ne!(p.id, q.id);
}

#[test]
fn add_then_delete_restores_store() {
    let mut s = PresetStore::default();
    s.presets.push(sample("a", "A", Some("Cmd+1")));
    s.presets.push(sample("b", "B", None));
    let before = contents(&s);
    let p = add_preset(&mut s, "New".to_string(), "cfg".to_string(), None).unwrap();
    delete_preset(&mut s, &p.id);
    assert_eq!(contents(&s), before);
    assert_eq!(s.version, "1.0");
}

#[test]
fn delete_removes_every_match_and_ignores_absent_ids() {
    let mut s = PresetStore::default();
    s.presets.push(sample("a", "A1", None));
    s.presets.push(sample("b", "B", None));
    s.presets.push(sample("a", "A2", None));
    delete_preset(&mut s, "a");
    assert_eq!(s.presets.len(), 1);
    assert_eq!(s.presets[0].id, "b");
    delete_preset(&mut s, "missing");
    assert_eq!(s.presets.len(), 1);
}

#[test]
fn update_with_explicit_none_clears_hotkey() {
    let mut s = PresetStore::default();
    s.presets.push(sample("a", "A", Some("Cmd+1")));
    let p = update_preset(&mut s, "a", None, None, Some(None)).unwrap();
    assert_eq!(p.hotkey, None);
    assert_eq!(s.presets[0].hotkey, None);
    assert_eq!(s.presets[0].name, "A");
}

#[test]
fn update_without_hotkey_leaves_it() {
    let mut s = PresetStore::default();
    s.presets.push(sample("a", "A", Some("Cmd+1")));
    let p = update_preset(&mut s, "a", Some("Renamed".to_string()), None, None).unwrap();
    assert_eq!(p.hotkey.as_deref(), Some("Cmd+1"));
    assert_eq!(p.name, "Renamed");
    assert_eq!(s.presets[0].name, "Renamed");
    assert_eq!(s.presets[0].config, "id:a origin:(0,0)");
    let p = update_preset(&mut s, "a", None, Some("cfg2".to_string()), Some(Some("Cmd+2".to_string()))).unwrap();
    assert_eq!(p.config, "cfg2");
    assert_eq!(p.hotkey.as_deref(), Some("Cmd+2"));
    assert_eq!(p.id, "a");
}

#[test]
fn update_changes_only_first_match() {
    let mut s = PresetStore::default();
    s.presets.push(sample("a", "first", None));
    s.presets.push(sample("a", "second", None));
    update_preset(&mut s, "a", Some("changed".to_string()), None, None).unwrap();
    assert_eq!(s.presets[0].name, "changed");
    assert_eq!(s.presets[1].name, "second");
}

#[test]
fn update_of_missing_id_is_not_found() {
    let mut s = PresetStore::default();
    s.presets.push(sample("a", "A", None));
    let before = contents(&s);
    let r = update_preset(&mut s, "zzz", Some("x".to_string()), None, None);
    assert!(matches!(r, Err(CoreError::PresetNotFound)));
    assert_eq!(contents(&s), before);
}

#[test]
fn unserialized_adds_lose_one() {
    let mut snapshot = PresetStore::default();
    snapshot.presets.push(sample("a", "A", None));
    let mut first = snapshot.clone();
    let mut second = snapshot.clone();
    let p1 = add_preset(&mut first, "one".to_string(), String::new(), None).unwrap();
    let p2 = add_preset(&mut second, "two".to_string(), String::new(), None).unwrap();
    // Each caller saves its whole store; the later write wins.
    let on_disk = second;
    assert!(on_disk.presets.iter().any(|p| p.id == p2.id));
    assert!(!on_disk.presets.iter().any(|p| p.id == p1.id));
}

#[test]
fn insert_keeps_given_id_and_time() {
    let mut s = PresetStore::default();
    let p = insert_preset(&mut s, "x1".to_string(), "2025-05-05T10:00:00+00:00".to_string(), "N".to_string(), "cfg".to_string(), None).unwrap();
    assert_eq!(p.id, "x1");
    assert_eq!(p.created_at, "2025-05-05T10:00:00+00:00");
    assert_eq!(s.presets.len(), 1);
    assert_eq!(s.presets[0].created_at, "2025-05-05T10:00:00+00:00");
}

#[test]
fn insert_refuses_taken_id() {
    let mut s = PresetStore::default();
    s.presets.push(sample("x1", "A", None));
    let before = contents(&s);
    let r = insert_preset(&mut s, "x1".to_string(), "t".to_string(), "B".to_string(), String::new(), None);
    assert_eq!(r.unwrap_err(), CoreError::DuplicateId("x1".to_string()));
    assert_eq!(contents(&s), before);
}

#[test]
fn serialized_adds_keep_both() {
    let mut s = PresetStore::default();
    let p1 = add_preset(&mut s, "one".to_string(), String::new(), None).unwrap();
    let p2 = add_preset(&mut s, "two".to_string(), String::new(), None).unwrap();
    assert_ne!(p1.id, p2.id);
    assert_eq!(s.presets.len(), 2);
    assert_eq!(s.presets[0].id, p1.id);
    assert_eq!(s.presets[1].id, p2.id);
}
