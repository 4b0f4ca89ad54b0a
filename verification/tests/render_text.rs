use crin::lists::Lists;
use crin::render::{commify, Crate, CrateList};

#[test]
fn tree_line_summarizes_descendants() {
    let mut l = Lists::empty();
    l.new("a", false);
    l.add("a", "serde");
    l.add("a", "itoa");
    l.new("a.b", false);
    l.add("a.b", "rand");
    let lines = l.print("", false, true);
    assert_eq!(lines, vec!["a (2) +[1](1): [serde, itoa]".to_string()]);
}

#[test]
fn recursive_tree_indents_each_level() {
    let mut l = Lists::empty();
    l.new("a", false);
    l.add("a", "serde");
    l.add("a", "itoa");
    l.new("a.b", false);
    l.add("a.b", "rand");
    l.new("a.b.c", false);
    l.new("d", false);
    let lines = l.print("", true, false);
    assert_eq!(
        lines,
        vec![
            "a (2)".to_string(),
            "·b (1)".to_string(),
            "··c (0)".to_string(),
            "d (0)".to_string(),
        ]
    );
}

#[test]
fn tree_below_a_list_skips_the_list_itself() {
    let mut l = Lists::empty();
    l.new("a.b.c", false);
    l.add("a.b", "rand");
    let lines = l.print("a", true, true);
    assert_eq!(lines, vec!["b (1): [rand]".to_string(), "·c (0)".to_string()]);
}

#[test]
fn show_joins_crates() {
    let mut l = Lists::empty();
    l.new("a", false);
    l.add("a", "serde");
    l.add("a", "itoa");
    assert_eq!(l.show("a", true).as_deref(), Some("serde itoa"));
    assert_eq!(l.show("a", false).as_deref(), Some("serde, itoa"));
    assert_eq!(l.show("a.b", false), None);
    assert_eq!(l.show("", false), None);
}

#[test]
fn show_of_empty_list_is_empty_text() {
    let mut l = Lists::empty();
    l.new("bare", false);
    assert_eq!(l.show("bare", false).as_deref(), Some(""));
}

#[test]
fn overview_of_top_level_lists() {
    let mut l = Lists::empty();
    assert_eq!(l.show_lists(false), None);
    l.new("a", false);
    l.add("a", "serde");
    l.new("b.sub", false);
    l.add("b.sub", "rand");
    assert_eq!(l.show_lists(false).as_deref(), Some("a (1), b (0)"));
    assert_eq!(l.show_lists(true).as_deref(), Some("a (1): serde\nb (0): "));
}

#[test]
fn crates_collects_subtree_names_in_order() {
    let mut l = Lists::empty();
    l.new("a", false);
    l.add("a", "serde");
    l.new("a.b", false);
    l.add("a.b", "rand");
    l.new("c", false);
    l.add("c", "itoa");
    let all = l.crates("", true);
    let names: Vec<String> = all.0.into_iter().map(|c| c.name).collect();
    assert_eq!(
        names,
        vec!["serde".to_string(), "rand".to_string(), "itoa".to_string()]
    );
    let direct = l.crates("a", false);
    let names: Vec<String> = direct.0.into_iter().map(|c| c.name).collect();
    assert_eq!(names, vec!["serde".to_string()]);
}

#[test]
fn crate_text_is_its_name() {
    let c = Crate::new("serde", "a note");
    assert_eq!(c.to_text(), "serde");
}

#[test]
fn crate_list_text_brackets_names() {
    let mut cl = CrateList::new(Vec::new());
    assert_eq!(cl.to_text(), "[]");
    cl.push(Crate::new("serde", ""));
    cl.push(Crate::new("itoa", "fast"));
    assert_eq!(cl.to_text(), "[serde, itoa]");
}

#[test]
fn commify_surrounds_and_separates() {
    let words = vec!["one".to_string(), "two".to_string(), "three".to_string()];
    assert_eq!(commify(&words, "'"), "'one', 'two', 'three'");
    assert_eq!(commify(&words, ""), "one, two, three");
    let empty: Vec<String> = Vec::new();
    assert_eq!(commify(&empty, "'"), "");
}

#[test]
fn counts_above_nine_render_with_all_digits() {
    let mut l = Lists::empty();
    l.new("big", false);
    for i in 0..12 {
        l.add("big", &format!("crate{}", i));
    }
    let lines = l.print("", false, false);
    assert_eq!(lines, vec!["big (12)".to_string()]);
    assert_eq!(l.show_lists(false).as_deref(), Some("big (12)"));
}
