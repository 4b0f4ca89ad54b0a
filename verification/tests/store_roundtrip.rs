use crin::lists::Lists;
use crin::store::from_toml;

#[test]
fn empty_store_writes_empty_document() {
    let l = Lists::empty();
    assert_eq!(l.to_toml(), "");
}

#[test]
fn document_layout_is_one_table_per_list() {
    let mut l = Lists::empty();
    l.new("alpha", false);
    l.add("alpha", "serde");
    l.add("alpha", "itoa");
    l.new("alpha.beta", false);
    l.set_description("alpha.beta", "greek");
    let expected = "[lists]\n\n[lists.alpha]\ncrates = [\"serde\", \"itoa\"]\n\n[lists.alpha.beta]\ndescription = \"greek\"\n";
    assert_eq!(l.to_toml(), expected);
}

#[test]
fn odd_names_are_quoted_and_escaped() {
    let mut l = Lists::empty();
    l.new("my list", false);
    l.add("my list", "we\"ird");
    let expected = "[lists]\n\n[lists.\"my list\"]\ncrates = [\"we\\\"ird\"]\n";
    assert_eq!(l.to_toml(), expected);
}

#[test]
fn written_documents_load_back() {
    let mut l = Lists::empty();
    l.new("alpha", false);
    l.add("alpha", "serde");
    l.new("alpha.beta", false);
    l.add("alpha.beta", "rand");
    l.set_description("alpha.beta", "nested");
    l.new("omega", false);
    let reloaded = from_toml(&l.to_toml()).expect("the written document parses");
    assert!(reloaded.list_exists(""));
    assert!(reloaded.list_exists("alpha"));
    assert!(reloaded.list_exists("alpha.beta"));
    assert!(reloaded.list_exists("omega"));
    assert_eq!(reloaded.quantity("alpha"), 1);
    assert_eq!(reloaded.quantity("alpha.beta"), 1);
    assert!(reloaded.has_description("alpha.beta"));
    assert_eq!(reloaded.show("alpha", true).as_deref(), Some("serde"));
}

#[test]
fn hand_written_document_loads() {
    let text = "[lists]\n[lists.a]\ncrates = [\"x\", \"y\"]\n[lists.a.b]\ncrates = [\"z\"]\n";
    let l = from_toml(text).expect("valid TOML parses");
    assert!(l.list_exists("a"));
    assert!(l.list_exists("a.b"));
    assert_eq!(l.quantity("a"), 2);
    assert_eq!(l.quantity("a.b"), 1);
    assert_eq!(l.crates_num("", true), 3);
}

#[test]
fn document_without_lists_loads_as_absent_root() {
    let l = from_toml("title = \"nothing here\"\n").expect("valid TOML parses");
    assert!(!l.list_exists(""));
    assert_eq!(l.crates_num("", true), 0);
}

#[test]
fn malformed_document_is_reported() {
    assert!(from_toml("[lists").is_err());
    assert!(from_toml("crates = [").is_err());
}

#[test]
fn loader_skips_unusable_tables_and_values() {
    let text = "[lists]\n[lists.a]\ncrates = [\"x\", 7, \"y\"]\n[lists.b]\n[lists.b.crates]\n[lists.\"b.c\"]\n";
    let l = from_toml(text).expect("valid TOML parses");
    assert!(l.list_exists("a"));
    // the number is skipped, the reserved and the dotted name are no lists
    assert_eq!(l.quantity("a"), 2);
    assert!(l.list_exists("b"));
    assert_eq!(l.children_num("b", true), 0);
    assert!(!l.list_exists("b.c"));
    assert_eq!(l.children_num("", true), 2);
}

#[test]
fn duplicate_crate_in_file_is_kept_once() {
    let text = "[lists]\n[lists.a]\ncrates = [\"x\", \"x\"]\n";
    let l = from_toml(text).expect("valid TOML parses");
    assert_eq!(l.quantity("a"), 1);
}

#[test]
fn lists_nested_beyond_the_cap_are_dropped() {
    let mut path = String::from("a1");
    for i in 2..=65 {
        path.push_str(&format!(".a{}", i));
    }
    let text = format!("[lists.{}]\n", path);
    let l = from_toml(&text).expect("valid TOML parses");
    // sixty-four levels are taken, the sixty-fifth lies beyond the cap
    assert_eq!(l.children_num("", true), 64);
    let mut deep = String::from("a1");
    for i in 2..=64 {
        deep.push_str(&format!(".a{}", i));
    }
    assert!(l.list_exists(&deep));
    deep.push_str(".a65");
    assert!(!l.list_exists(&deep));
}
