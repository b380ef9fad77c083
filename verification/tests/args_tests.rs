use provis::args::TriBool;
use provis::topk::TopK;
use provis::scanner::DirectoryEntry;

#[test]
fn tribool_yes_and_no_decide_directly() {
    assert!(TriBool::Yes.unwrap_or_else(|| false));
    assert!(!TriBool::No.unwrap_or_else(|| true));
}

#[test]
fn tribool_auto_defers_to_the_closure() {
    assert!(TriBool::Auto.unwrap_or_else(|| true));
    assert!(!TriBool::Auto.unwrap_or_else(|| false));
}

fn entry(path: &str, size: u64) -> DirectoryEntry {
    DirectoryEntry { path: path.to_string(), size, is_immediate_child: true }
}

#[test]
fn topk_retains_the_largest_within_capacity() {
    let mut k = TopK::new(2);
    k.offer(entry("small", 1));
    k.offer(entry("large", 100));
    k.offer(entry("middle", 50));
    let out = k.into_sorted_desc();
    assert_eq!(out.len(), 2);
    assert_eq!(out[0].path, "large");
    assert_eq!(out[1].path, "middle");
}

#[test]
fn topk_ties_favour_what_is_already_stored() {
    let mut k = TopK::new(1);
    k.offer(entry("first", 10));
    k.offer(entry("second", 10));
    let out = k.into_sorted_desc();
    assert_eq!(out.len(), 1);
    assert_eq!(out[0].path, "first");
}

#[test]
fn topk_with_zero_capacity_keeps_nothing() {
    let mut k = TopK::new(0);
    k.offer(entry("x", 5));
    assert!(k.into_sorted_desc().is_empty());
}
