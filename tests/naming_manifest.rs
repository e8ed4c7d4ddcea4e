use batch_convert::manifest::{decode_manifest, encode_manifest};
use batch_convert::naming::{decimal, staged_name, swap_extension};

fn strings(v: &[&str]) -> Vec<String> {
    v.iter().map(|s| s.to_string()).collect()
}

#[test]
fn decimal_writes_digits() {
    assert_eq!(decimal(0), "0");
    assert_eq!(decimal(7), "7");
    assert_eq!(decimal(10), "10");
    assert_eq!(decimal(4096), "4096");
}

#[test]
fn staged_name_is_index_dot_ext() {
    assert_eq!(staged_name(0, "flac"), "0.flac");
    assert_eq!(staged_name(12, "mp3"), "12.mp3");
}

#[test]
fn staged_names_differ_by_index() {
    let names: Vec<String> = (0..200).map(|i| staged_name(i, "wav")).collect();
    for i in 0..names.len() {
        for j in (i + 1)..names.len() {
            assert_ne!(names[i], names[j]);
        }
    }
}

#[test]
fn swap_extension_replaces_trailing_suffix() {
    assert_eq!(swap_extension("/music/a.flac", "flac", "mp3"), "/music/a.mp3");
    assert_eq!(swap_extension("/music/a.flac.d/b.flac", "flac", "mp3"), "/music/a.flac.d/b.mp3");
}

#[test]
fn swap_extension_leaves_other_paths() {
    assert_eq!(swap_extension("/music/a.ogg", "flac", "mp3"), "/music/a.ogg");
    assert_eq!(swap_extension("flac", "flac", "mp3"), "flac");
}

#[test]
fn manifest_round_trip_keeps_order() {
    let paths = strings(&["/a/one.txt", "/b/two.txt", "/c/three.txt"]);
    let text = encode_manifest(&paths);
    assert_eq!(text, "/a/one.txt\n/b/two.txt\n/c/three.txt");
    assert_eq!(decode_manifest(&text), paths);
}

#[test]
fn manifest_empty_is_empty() {
    assert_eq!(encode_manifest(&Vec::new()), "");
    assert!(decode_manifest("").is_empty());
}

#[test]
fn manifest_decode_reads_lines() {
    assert_eq!(decode_manifest("a\r\nb\n"), strings(&["a", "b"]));
    assert_eq!(decode_manifest("a\n\nb"), strings(&["a", "", "b"]));
    assert_eq!(decode_manifest("x\r"), strings(&["x\r"]));
}

#[test]
fn manifest_shorter_rewrite_leaves_no_stale_entries() {
    let long = encode_manifest(&strings(&["/1", "/2", "/3"]));
    let short = encode_manifest(&strings(&["/9"]));
    assert_eq!(decode_manifest(&long).len(), 3);
    assert_eq!(decode_manifest(&short), strings(&["/9"]));
}
