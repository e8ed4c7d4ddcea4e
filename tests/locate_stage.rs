use batch_convert::locate::{has_ext, has_ext_folded, select_matches, total_size};
use batch_convert::stage::{stage_plan, Session};

fn strings(v: &[&str]) -> Vec<String> {
    v.iter().map(|s| s.to_string()).collect()
}

#[test]
fn extension_match_ignores_case() {
    assert!(has_ext("A.TXT", "txt"));
    assert!(has_ext("/x/y/b.Txt", "TXT"));
    assert!(!has_ext("/x/y/b.txt.bak", "txt"));
    assert!(!has_ext("txt", "txt"));
}

#[test]
fn folded_match_is_exact_suffix() {
    assert!(has_ext_folded("a.txt", "txt"));
    assert!(!has_ext_folded("a.TXT", "txt"));
    assert!(!has_ext_folded("atxt", "txt"));
    assert!(has_ext_folded(".txt", "txt"));
}

#[test]
fn select_keeps_traversal_order() {
    let found = select_matches(&strings(&["/r/z.TXT", "/r/a.md", "/r/b.txt", "/r"]), "txt");
    assert_eq!(found, strings(&["/r/z.TXT", "/r/b.txt"]));
}

#[test]
fn total_size_counts_unreadable_as_zero() {
    assert_eq!(total_size(&vec![Some(10), None, Some(32)]), 42);
    assert_eq!(total_size(&Vec::new()), 0);
}

#[test]
fn total_size_saturates() {
    assert_eq!(total_size(&vec![Some(u64::MAX - 1), Some(5)]), u64::MAX);
}

#[test]
fn stage_plan_names_by_position() {
    let plan = stage_plan("/base/to_convert", &strings(&["/m/a.wav", "/m/b.wav"]), "wav");
    assert_eq!(plan.manifest, "/m/a.wav\n/m/b.wav");
    assert_eq!(plan.copies.len(), 2);
    assert_eq!(plan.copies[0].source, "/m/a.wav");
    assert_eq!(plan.copies[0].destination, "/base/to_convert/0.wav");
    assert_eq!(plan.copies[1].source, "/m/b.wav");
    assert_eq!(plan.copies[1].destination, "/base/to_convert/1.wav");
}

#[test]
fn session_places() {
    let s = Session { base: "/home/u/Desktop".to_string() };
    assert_eq!(s.manifest_path(), "/home/u/Desktop/scraped_file.txt");
    assert_eq!(s.scratch_dir(), "/home/u/Desktop/to_convert");
}
