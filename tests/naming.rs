use scrappybot::naming::{seq_num_of, NamingSchema};
use scrappybot::storage::{FsSystem, RemoteStore};

fn names(v: &[&str]) -> Vec<String> {
    v.iter().map(|s| s.to_string()).collect()
}

#[test]
fn next_skips_malformed_suffix() {
    let schema = NamingSchema::new("prefix".to_string());
    let mut existing = names(&["prefix_0", "prefix_3", "prefix_x"]);
    assert_eq!(schema.next(&mut existing), Some("prefix_4".to_string()));
    assert_eq!(existing, names(&["prefix_0", "prefix_3", "prefix_x"]));
}

#[test]
fn next_without_matching_names_is_zero() {
    let schema = NamingSchema::new("snap".to_string());
    assert_eq!(schema.next(&mut Vec::new()), Some("snap_0".to_string()));
    assert_eq!(schema.next(&mut names(&["other_5"])), Some("snap_0".to_string()));
}

#[test]
fn next_past_u32_range() {
    let schema = NamingSchema::new("p".to_string());
    assert_eq!(schema.next(&mut names(&["p_4294967295"])), None);
    assert_eq!(schema.next(&mut names(&["p_4294967295", "p_4294967296"])), None);
    assert_eq!(schema.next(&mut names(&["p_4294967294"])), Some("p_4294967295".to_string()));
}

#[test]
fn next_name_is_never_listed() {
    let schema = NamingSchema::new("p".to_string());
    let mut existing = names(&["p_x", "p_0", "p_1x", "p_2", "p"]);
    let next = schema.next(&mut existing).unwrap();
    assert_eq!(next, "p_3");
    assert!(!existing.contains(&next));
}

#[test]
fn latest_prefers_greatest_then_last() {
    let schema = NamingSchema::new("p".to_string());
    assert_eq!(schema.get_latest(&mut names(&["p_2", "p_10", "p_9", "q_99"])), Some("p_10".to_string()));
    assert_eq!(schema.get_latest(&mut names(&["p_x", "p_0"])), Some("p_0".to_string()));
    assert_eq!(schema.get_latest(&mut names(&["p_0", "p_x"])), Some("p_x".to_string()));
    assert_eq!(schema.get_latest(&mut names(&["q_1"])), None);
}

#[test]
fn saved_name_is_loaded_next() {
    let schema = NamingSchema::new("hud".to_string());
    let mut existing = names(&["hud_1", "hud_7", "hud_junk"]);
    let written = schema.next(&mut existing).unwrap();
    existing.push(written.clone());
    assert_eq!(schema.get_latest(&mut existing), Some(written));
}

#[test]
fn sequence_number_parsing() {
    let schema = NamingSchema::new("a".to_string());
    assert_eq!(schema.parse_seq_num("a_12"), 12);
    assert_eq!(schema.parse_seq_num("a_b_12"), 12);
    assert_eq!(schema.parse_seq_num("a_+7"), 7);
    assert_eq!(schema.parse_seq_num("a_-1"), 0);
    assert_eq!(schema.parse_seq_num("a_+"), 0);
    assert_eq!(schema.parse_seq_num("a_"), 0);
    assert_eq!(schema.parse_seq_num("a_007"), 7);
    assert_eq!(schema.parse_seq_num("a_4294967295"), 4294967295);
    assert_eq!(schema.parse_seq_num("a_4294967296"), 0);
    assert_eq!(schema.parse_seq_num("42"), 0);
    assert_eq!(schema.parse_seq_num("a_42"), 42);
    assert_eq!(schema.parse_seq_num(""), 0);
    assert_eq!(seq_num_of("x_1_y"), 0);
}

#[test]
fn fs_paths() {
    let fs = FsSystem::new();
    assert_eq!(fs.folder, "./");
    assert_eq!(fs.files_pattern(), "./estate_snapshot_*");
    assert_eq!(fs.next_file(&Vec::new()), Some("./estate_snapshot_0".to_string()));
    let listed = names(&["./estate_snapshot_2", "./estate_snapshot_10", "./estate_snapshot_3"]);
    assert_eq!(fs.next_file(&listed), Some("./estate_snapshot_11".to_string()));
    assert_eq!(fs.parse_number("42"), 0);
    assert_eq!(fs.next_file(&names(&["./estate_snapshot_4294967295"])), None);
    assert_eq!(fs.latest_file(&listed), Some("./estate_snapshot_10".to_string()));
    assert_eq!(fs.latest_file(&Vec::new()), None);
    assert_eq!(fs.parse_number("./estate_snapshot_5"), 5);
}

#[test]
fn fs_saved_file_is_loaded_next() {
    let fs = FsSystem { folder: "/data/".to_string() };
    let mut listed = names(&["/data/estate_snapshot_4"]);
    let written = fs.next_file(&listed).unwrap();
    assert_eq!(written, "/data/estate_snapshot_5");
    listed.push(written.clone());
    assert_eq!(fs.latest_file(&listed), Some(written));
}

#[test]
fn remote_paths() {
    let store = RemoteStore::new("estatebot".to_string(), "hudhome_snapshot".to_string());
    let mut listed = names(&["hudhome_snapshot_0", "hudhome_snapshot_1", "notes"]);
    assert_eq!(store.save_path(&mut listed), Some("estatebot/hudhome_snapshot_2".to_string()));
    assert_eq!(store.load_path(&mut listed), Some("estatebot/hudhome_snapshot_1".to_string()));
    assert_eq!(store.load_path(&mut names(&["notes"])), None);
    assert_eq!(store.save_path(&mut Vec::new()), Some("estatebot/hudhome_snapshot_0".to_string()));
    assert_eq!(store.save_path(&mut names(&["hudhome_snapshot_4294967295", "hudhome_snapshot_4294967296"])), None);
    assert_eq!(store.path_of("x"), "estatebot/x");
}
