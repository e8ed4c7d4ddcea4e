use std::collections::BTreeMap;

use batch_convert::fsmodel::FsOp;
use batch_convert::mover::{move_ops, plan_move, MoveError};
use batch_convert::paths::Transfer;
use batch_convert::restore::{restore_ops, restore_targets};
use batch_convert::stage::stage_plan;

type Tree = BTreeMap<String, Vec<u8>>;

fn strings(v: &[&str]) -> Vec<String> {
    v.iter().map(|s| s.to_string()).collect()
}

fn apply(fs: &mut Tree, op: &FsOp) {
    match op {
        FsOp::MakeParents { .. } => {}
        FsOp::Copy { from, to } => {
            let data = fs.get(from).expect("copy source exists").clone();
            fs.insert(to.clone(), data);
        }
        FsOp::Remove { path } => {
            fs.remove(path).expect("removed file exists");
        }
        FsOp::RemoveIfPresent { path } => {
            fs.remove(path);
        }
    }
}

fn stage(fs: &mut Tree, files: &[String], ext: &str) {
    let plan = stage_plan("/s", &files.to_vec(), ext);
    for c in &plan.copies {
        let data = fs[&c.source].clone();
        fs.insert(c.destination.clone(), data);
    }
}

fn restore(fs: &mut Tree, manifest: &[String], in_ext: &str, out_ext: &str) -> Vec<(usize, usize)> {
    let mut progress = Vec::new();
    let targets = restore_targets("/s", &manifest.to_vec(), in_ext, out_ext);
    for (i, t) in targets.iter().enumerate() {
        let ops = restore_ops(t, fs.contains_key(&t.converted), fs.contains_key(&t.destination));
        for op in &ops {
            apply(fs, op);
        }
        progress.push((i + 1, targets.len()));
    }
    progress
}

fn mirror(fs: &mut Tree, plan: &[Transfer], limit: usize) {
    for m in plan.iter().take(limit) {
        for op in &move_ops(m, fs.contains_key(&m.destination)) {
            apply(fs, op);
        }
    }
}

fn convert(fs: &mut Tree, from: &str, to: &str) {
    let data = fs.remove(from).unwrap();
    fs.insert(to.to_string(), data);
}

fn sample() -> (Tree, Vec<String>) {
    let mut fs = Tree::new();
    fs.insert("/m/a.flac".to_string(), b"AAA".to_vec());
    fs.insert("/m/sub/b.flac".to_string(), b"BBB".to_vec());
    fs.insert("/m/c.flac".to_string(), b"CCC".to_vec());
    (fs, strings(&["/m/a.flac", "/m/sub/b.flac", "/m/c.flac"]))
}

#[test]
fn restore_round_trip() {
    let (mut fs, files) = sample();
    stage(&mut fs, &files, "flac");
    convert(&mut fs, "/s/0.flac", "/s/0.mp3");
    convert(&mut fs, "/s/1.flac", "/s/1.mp3");
    let progress = restore(&mut fs, &files, "flac", "mp3");
    assert_eq!(fs["/m/a.mp3"], b"AAA".to_vec());
    assert_eq!(fs["/m/sub/b.mp3"], b"BBB".to_vec());
    assert!(!fs.contains_key("/m/c.mp3"));
    assert!(!fs.contains_key("/s/0.mp3"));
    assert!(!fs.contains_key("/s/1.mp3"));
    // the entry that was not converted keeps its staged input
    assert_eq!(fs["/s/2.flac"], b"CCC".to_vec());
    assert_eq!(progress, vec![(1, 3), (2, 3), (3, 3)]);
}

#[test]
fn restore_removes_leftover_input_once_converted() {
    let (mut fs, files) = sample();
    stage(&mut fs, &files, "flac");
    fs.insert("/s/0.mp3".to_string(), b"conv".to_vec());
    restore(&mut fs, &files, "flac", "mp3");
    assert!(!fs.contains_key("/s/0.flac"));
    assert_eq!(fs["/m/a.mp3"], b"conv".to_vec());
}

#[test]
fn restore_does_not_overwrite() {
    let (mut fs, files) = sample();
    stage(&mut fs, &files, "flac");
    fs.insert("/m/a.mp3".to_string(), b"user edit".to_vec());
    convert(&mut fs, "/s/0.flac", "/s/0.mp3");
    restore(&mut fs, &files, "flac", "mp3");
    assert_eq!(fs["/m/a.mp3"], b"user edit".to_vec());
    assert!(!fs.contains_key("/s/0.mp3"));
}

#[test]
fn restore_twice_is_restore_once() {
    let (mut fs, files) = sample();
    stage(&mut fs, &files, "flac");
    convert(&mut fs, "/s/1.flac", "/s/1.mp3");
    restore(&mut fs, &files, "flac", "mp3");
    let once = fs.clone();
    restore(&mut fs, &files, "flac", "mp3");
    assert_eq!(fs, once);
}

#[test]
fn restore_with_nothing_converted_changes_nothing() {
    let (mut fs, files) = sample();
    stage(&mut fs, &files, "flac");
    let before = fs.clone();
    restore(&mut fs, &files, "flac", "mp3");
    assert_eq!(fs, before);
}

#[test]
fn restore_targets_paths() {
    let t = restore_targets("/s", &strings(&["/m/x.flac"]), "flac", "mp3");
    assert_eq!(t[0].converted, "/s/0.mp3");
    assert_eq!(t[0].leftover, "/s/0.flac");
    assert_eq!(t[0].destination, "/m/x.mp3");
}

#[test]
fn restore_ops_cases() {
    let t = &restore_targets("/s", &strings(&["/m/x.flac"]), "flac", "mp3")[0];
    assert!(restore_ops(t, false, false).is_empty());
    assert!(restore_ops(t, false, true).is_empty());
    assert_eq!(restore_ops(t, true, true).len(), 2);
    let ops = restore_ops(t, true, false);
    assert_eq!(ops.len(), 3);
    assert!(matches!(&ops[0], FsOp::Copy { from, to } if from == "/s/0.mp3" && to == "/m/x.mp3"));
}

#[test]
fn move_same_directory_is_refused() {
    let files = strings(&["/in/a.txt"]);
    assert!(matches!(plan_move("/in", "/in", &files), Err(MoveError::SameDirectory)));
}

#[test]
fn move_outside_root_is_path_failure() {
    let files = strings(&["/in/a.txt", "/elsewhere/b.txt"]);
    assert!(matches!(plan_move("/in", "/out", &files), Err(MoveError::PathFailure)));
}

#[test]
fn move_plan_mirrors_relative_paths() {
    let files = strings(&["/in/a.txt", "/in/d/e/b.txt"]);
    let plan = plan_move("/in", "/out", &files).unwrap();
    assert_eq!(plan[0].source, "/in/a.txt");
    assert_eq!(plan[0].destination, "/out/a.txt");
    assert_eq!(plan[1].destination, "/out/d/e/b.txt");
}

#[test]
fn move_skips_existing_destination() {
    let m = Transfer { source: "/in/a".to_string(), destination: "/out/a".to_string() };
    assert!(move_ops(&m, true).is_empty());
    assert_eq!(move_ops(&m, false).len(), 3);
}

#[test]
fn move_resumes_after_interruption() {
    let mut fs = Tree::new();
    for (p, c) in [("/in/a.txt", "a"), ("/in/x/b.txt", "b"), ("/in/x/y/c.txt", "c")] {
        fs.insert(p.to_string(), c.as_bytes().to_vec());
    }
    fs.insert("/out/x/b.txt".to_string(), b"kept".to_vec());
    let files = strings(&["/in/a.txt", "/in/x/b.txt", "/in/x/y/c.txt"]);
    let plan = plan_move("/in", "/out", &files).unwrap();
    let mut whole = fs.clone();
    mirror(&mut whole, &plan, plan.len());
    let mut resumed = fs.clone();
    mirror(&mut resumed, &plan, 1);
    let left: Vec<String> = files.iter().filter(|f| resumed.contains_key(*f)).cloned().collect();
    let replan = plan_move("/in", "/out", &left).unwrap();
    mirror(&mut resumed, &replan, replan.len());
    assert_eq!(resumed, whole);
    assert_eq!(whole["/out/a.txt"], b"a".to_vec());
    assert_eq!(whole["/out/x/b.txt"], b"kept".to_vec());
    assert_eq!(whole["/in/x/b.txt"], b"b".to_vec());
    assert_eq!(whole["/out/x/y/c.txt"], b"c".to_vec());
    assert!(!whole.contains_key("/in/a.txt"));
}
