use crin::lists::Lists;
use crin::outcome::{AddOutcome, CreateOutcome, DeleteOutcome, DescribeOutcome, RemoveOutcome};

#[test]
fn favorites_full_cycle() {
    let mut l = Lists::empty();
    assert_eq!(l.new("favorites", false), CreateOutcome::Created);
    assert!(l.list_exists("favorites"));
    assert_eq!(l.quantity("favorites"), 0);
    assert_eq!(l.add("favorites", "serde"), AddOutcome::Added);
    assert_eq!(l.quantity("favorites"), 1);
    assert_eq!(l.add("favorites", "serde"), AddOutcome::AlreadyPresent);
    assert_eq!(l.quantity("favorites"), 1);
    assert_eq!(l.del("favorites"), DeleteOutcome::NotEmpty);
    assert!(l.list_exists("favorites"));
    assert_eq!(l.rem("favorites", "serde"), RemoveOutcome::Removed);
    assert_eq!(l.quantity("favorites"), 0);
    assert_eq!(l.del("favorites"), DeleteOutcome::Deleted);
    assert!(!l.list_exists("favorites"));
}

#[test]
fn nested_create_makes_missing_parents() {
    let mut l = Lists::empty();
    assert_eq!(l.new("graphics.3d", false), CreateOutcome::Created);
    assert!(l.list_exists("graphics"));
    assert!(l.list_exists("graphics.3d"));
    assert_eq!(l.quantity("graphics"), 0);
    assert_eq!(l.quantity("graphics.3d"), 0);
}

#[test]
fn create_reports_existing_list() {
    let mut l = Lists::empty();
    assert_eq!(l.new("tools", false), CreateOutcome::Created);
    assert_eq!(l.new("tools", false), CreateOutcome::AlreadyExists);
    assert!(l.list_exists("tools"));
}

#[test]
fn forced_create_overwrites_and_drops_sublists() {
    let mut l = Lists::empty();
    assert_eq!(l.new("tools.build", false), CreateOutcome::Created);
    assert_eq!(l.add("tools.build", "cc"), AddOutcome::Added);
    assert_eq!(l.new("tools", true), CreateOutcome::Created);
    assert!(l.list_exists("tools"));
    assert!(!l.list_exists("tools.build"));
    assert_eq!(l.quantity("tools"), 0);
}

#[test]
fn invalid_names_are_rejected() {
    let mut l = Lists::empty();
    assert_eq!(l.new("a..b", false), CreateOutcome::InvalidName);
    assert_eq!(l.new("crates", false), CreateOutcome::InvalidName);
    assert_eq!(l.new("description", false), CreateOutcome::InvalidName);
    assert_eq!(l.new(".a", false), CreateOutcome::InvalidName);
    assert!(!l.list_exists("a..b"));
    assert!(!l.list_exists("crates"));
}

#[test]
fn root_container_exists_once_created() {
    let mut l = Lists::empty();
    assert!(!l.list_exists(""));
    assert_eq!(l.new("", false), CreateOutcome::Created);
    assert!(l.list_exists(""));
    assert_eq!(l.del(""), DeleteOutcome::Deleted);
    assert!(!l.list_exists(""));
}

#[test]
fn missing_list_is_reported() {
    let mut l = Lists::empty();
    assert_eq!(l.add("nope", "serde"), AddOutcome::NoSuchList);
    assert_eq!(l.rem("nope", "serde"), RemoveOutcome::NoSuchList);
    assert_eq!(l.del("nope"), DeleteOutcome::NotFound);
    assert_eq!(l.set_description("nope", "text"), DescribeOutcome::NoSuchList);
    assert_eq!(l.quantity("nope"), 0);
}

#[test]
fn remove_missing_crate_is_reported() {
    let mut l = Lists::empty();
    l.new("a", false);
    assert_eq!(l.rem("a", "serde"), RemoveOutcome::NotPresent);
}

#[test]
fn description_blocks_deletion_until_cleared() {
    let mut l = Lists::empty();
    l.new("noted", false);
    assert_eq!(l.set_description("noted", "keep me"), DescribeOutcome::Described);
    assert!(l.has_description("noted"));
    assert!(!l.is_empty("noted"));
    assert_eq!(l.del("noted"), DeleteOutcome::NotEmpty);
    assert_eq!(l.set_description("noted", ""), DescribeOutcome::Described);
    assert!(!l.has_description("noted"));
    assert!(l.is_empty("noted"));
    assert_eq!(l.del("noted"), DeleteOutcome::Deleted);
}

#[test]
fn empty_list_with_children_can_be_deleted() {
    let mut l = Lists::empty();
    l.new("parent.child", false);
    assert_eq!(l.add("parent.child", "serde"), AddOutcome::Added);
    // the parent holds no crates of its own, so it goes, subtree and all
    assert_eq!(l.del("parent"), DeleteOutcome::Deleted);
    assert!(!l.list_exists("parent"));
    assert!(!l.list_exists("parent.child"));
}

#[test]
fn remove_then_add_restores_the_set() {
    let mut l = Lists::empty();
    l.new("roundtrip", false);
    l.add("roundtrip", "serde");
    l.add("roundtrip", "itoa");
    l.add("roundtrip", "rand");
    assert_eq!(l.rem("roundtrip", "itoa"), RemoveOutcome::Removed);
    assert_eq!(l.quantity("roundtrip"), 2);
    assert_eq!(l.add("roundtrip", "itoa"), AddOutcome::Added);
    assert_eq!(l.quantity("roundtrip"), 3);
    let names = l.crates("roundtrip", false);
    let mut got: Vec<String> = names.0.into_iter().map(|c| c.name).collect();
    got.sort();
    assert_eq!(got, vec!["itoa".to_string(), "rand".to_string(), "serde".to_string()]);
}

#[test]
fn recursive_count_sums_direct_counts() {
    let mut l = Lists::empty();
    l.new("a", false);
    l.new("a.b", false);
    l.new("a.b.c", false);
    l.new("d", false);
    l.add("a", "one");
    l.add("a.b", "two");
    l.add("a.b", "three");
    l.add("a.b.c", "four");
    l.add("d", "five");
    let total = l.crates_num("", true);
    let sum = l.quantity("a") + l.quantity("a.b") + l.quantity("a.b.c") + l.quantity("d");
    assert_eq!(total, 5);
    assert_eq!(total, sum);
    assert_eq!(l.crates_num("a", true), 4);
    assert_eq!(l.crates_num("a.b", true), 3);
    assert_eq!(l.crates_num("a.b", false), 2);
}

#[test]
fn children_counts() {
    let mut l = Lists::empty();
    l.new("a.b.c", false);
    l.new("a.x", false);
    assert_eq!(l.children_num("a", false), 2);
    assert_eq!(l.children_num("a", true), 3);
    assert_eq!(l.children_num("", false), 1);
    assert_eq!(l.children_num("", true), 4);
}

#[test]
fn as_table_resolves_nested_lists() {
    let mut l = Lists::empty();
    l.new("a.b", false);
    l.add("a.b", "serde");
    let node = l.as_table("a.b").expect("list should resolve");
    assert_eq!(node.path, vec!["a".to_string(), "b".to_string()]);
    assert_eq!(node.crates, vec!["serde".to_string()]);
    assert!(l.as_table("a.c").is_none());
    assert!(l.as_table("").is_none());
}

#[test]
fn as_table_mut_copies_the_node() {
    let mut l = Lists::empty();
    l.new("a.b", false);
    l.add("a.b", "serde");
    l.set_description("a.b", "nested");
    let copy = l.as_table_mut("a.b").expect("list should resolve");
    assert_eq!(copy.path, vec!["a".to_string(), "b".to_string()]);
    assert_eq!(copy.crates, vec!["serde".to_string()]);
    assert_eq!(copy.description.as_deref(), Some("nested"));
    assert!(l.as_table_mut("").is_none());
    assert!(l.as_table_mut("missing").is_none());
}
