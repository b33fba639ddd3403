use dirwiz::{DirPath, DirWiz, FsEntry, IntoIter, Stack};

fn path(parts: &[&str]) -> DirPath {
    DirPath::from_parts(parts.iter().map(|s| s.to_string()).collect())
}

/// A directory tree for tests: each row is (directory path, subdirectory
/// names, sizes of the plain files inside, number of symlink-like entries).
type Tree<'a> = &'a [(&'a [&'a str], &'a [&'a str], &'a [u64], usize)];

fn listing_for(tree: Tree, dir: &DirPath) -> Vec<FsEntry> {
    for (parts, subs, files, others) in tree {
        let want: Vec<String> = parts.iter().map(|s| s.to_string()).collect();
        if want == dir.parts {
            let mut out = Vec::new();
            for name in subs.iter() {
                out.push(FsEntry::Dir(dir.child(name.to_string())));
            }
            for size in files.iter() {
                out.push(FsEntry::File(*size));
            }
            for _ in 0..*others {
                out.push(FsEntry::Other);
            }
            return out;
        }
    }
    panic!("test tree has no listing for {:?}", dir.parts);
}

fn run(tree: Tree, root: &[&str], interleave_every_pull: bool) -> Vec<(Vec<String>, u64)> {
    let mut it: IntoIter = DirWiz::new(path(root)).into_iter();
    let mut out = Vec::new();
    loop {
        let dir = match it.next() {
            Some(d) => d,
            None => break,
        };
        let listing = listing_for(tree, &dir);
        let (done, total) = it.record(dir, listing);
        out.push((done.parts.clone(), total));
        if interleave_every_pull {
            it.interleave();
        }
    }
    out
}

fn as_sorted(mut items: Vec<(Vec<String>, u64)>) -> Vec<(Vec<String>, u64)> {
    items.sort();
    items
}

fn owned(parts: &[&str]) -> Vec<String> {
    parts.iter().map(|s| s.to_string()).collect()
}

#[test]
fn flat_tree_sums_and_visits_every_dir() {
    // root /r holds empty subdirectories a and b and one 10-byte file
    let tree: Tree = &[
        (&["r"], &["a", "b"], &[10], 0),
        (&["r", "a"], &[], &[], 0),
        (&["r", "b"], &[], &[], 0),
    ];
    let got = as_sorted(run(tree, &["r"], false));
    let want = vec![
        (owned(&["r"]), 10),
        (owned(&["r", "a"]), 0),
        (owned(&["r", "b"]), 0),
    ];
    assert_eq!(got, want);
}

#[test]
fn nested_tree_attributes_bytes_to_the_right_dir() {
    // root /r holds only /r/a, which holds one 5-byte file
    let tree: Tree = &[(&["r"], &["a"], &[], 0), (&["r", "a"], &[], &[5], 0)];
    let got = as_sorted(run(tree, &["r"], false));
    let want = vec![(owned(&["r"]), 0), (owned(&["r", "a"]), 5)];
    assert_eq!(got, want);
}

#[test]
fn empty_root_yields_one_item_then_ends() {
    let tree: Tree = &[(&["top"], &[], &[], 0)];
    let got = run(tree, &["top"], false);
    assert_eq!(got, vec![(owned(&["top"]), 0)]);
}

#[test]
fn exhausted_walker_keeps_answering_none() {
    let tree: Tree = &[(&["top"], &[], &[], 0)];
    let mut it = DirWiz::new(path(&["top"])).into_iter();
    let dir = it.next().expect("the root is owed a visit");
    let listing = listing_for(tree, &dir);
    it.record(dir, listing);
    assert!(it.next().is_none());
    assert!(it.next().is_none());
}

#[test]
fn symlinks_and_other_entries_are_ignored() {
    let tree: Tree = &[
        (&["r"], &["sub"], &[3, 4], 2),
        (&["r", "sub"], &[], &[], 1),
    ];
    let got = as_sorted(run(tree, &["r"], false));
    let want = vec![(owned(&["r"]), 7), (owned(&["r", "sub"]), 0)];
    assert_eq!(got, want);
}

#[test]
fn absorb_sums_files_and_pushes_subdirs() {
    let mut unit = Stack::from_path(path(&["r"]));
    let popped = unit.pop().expect("one path is pending");
    assert_eq!(popped.parts, owned(&["r"]));
    let entries = vec![
        FsEntry::File(3),
        FsEntry::Other,
        FsEntry::Dir(popped.child("x".to_string())),
        FsEntry::File(4),
    ];
    let total = unit.absorb(&popped, &entries);
    assert_eq!(total, 7);
    assert_eq!(unit.len(), 1);
    assert_eq!(unit.stack[0].parts, owned(&["r", "x"]));
}

#[test]
fn pop_takes_the_deepest_path_first() {
    let mut unit = Stack::from_path(path(&["r"]));
    let r = unit.pop().unwrap();
    let entries = vec![
        FsEntry::Dir(r.child("a".to_string())),
        FsEntry::Dir(r.child("b".to_string())),
    ];
    unit.absorb(&r, &entries);
    let first = unit.pop().unwrap();
    assert_eq!(first.parts, owned(&["r", "b"]));
    let second = unit.pop().unwrap();
    assert_eq!(second.parts, owned(&["r", "a"]));
    assert!(unit.pop().is_none());
}

#[test]
fn explode_equal_depths_makes_one_unit_per_path() {
    let unit = Stack {
        stack: vec![path(&["r", "a"]), path(&["r", "b"]), path(&["r", "c"])],
    };
    let parts = unit.explode();
    assert_eq!(parts.len(), 3);
    // one single-path unit per pending path, original order kept
    let mut seen: Vec<Vec<String>> = Vec::new();
    for u in &parts {
        assert_eq!(u.stack.len(), 1);
        seen.push(u.stack[0].parts.clone());
    }
    assert_eq!(
        seen,
        vec![owned(&["r", "a"]), owned(&["r", "b"]), owned(&["r", "c"])]
    );
}

#[test]
fn explode_fans_out_paths_within_one_level() {
    // the deeper path is only one level below the shallowest, so there is
    // no unresolved branch to keep together: both fan out
    let unit = Stack {
        stack: vec![path(&["r", "a"]), path(&["r", "a", "b"])],
    };
    let parts = unit.explode();
    assert_eq!(parts.len(), 2);
    assert_eq!(parts[0].stack.len(), 1);
    assert_eq!(parts[0].stack[0].parts, owned(&["r", "a"]));
    assert_eq!(parts[1].stack.len(), 1);
    assert_eq!(parts[1].stack[0].parts, owned(&["r", "a", "b"]));
}

#[test]
fn explode_keeps_the_deep_branch_together() {
    // depths 2, 3, 4: the depth-4 path is more than one level below the
    // shallowest and stays alone as the deep branch, in front; the two
    // shallower paths each fan out, in their original order
    let unit = Stack {
        stack: vec![
            path(&["r", "a"]),
            path(&["r", "b", "c"]),
            path(&["r", "b", "c", "d"]),
        ],
    };
    let parts = unit.explode();
    assert_eq!(parts.len(), 3);
    assert_eq!(parts[0].stack.len(), 1);
    assert_eq!(parts[0].stack[0].parts, owned(&["r", "b", "c", "d"]));
    assert_eq!(parts[1].stack.len(), 1);
    assert_eq!(parts[1].stack[0].parts, owned(&["r", "a"]));
    assert_eq!(parts[2].stack.len(), 1);
    assert_eq!(parts[2].stack[0].parts, owned(&["r", "b", "c"]));
}

#[test]
fn explode_deep_branch_holds_several_paths() {
    // depths 2, 4, 5: both deep paths stay together as one unit in front
    let unit = Stack {
        stack: vec![
            path(&["r", "a"]),
            path(&["r", "b", "c", "d"]),
            path(&["r", "b", "c", "d", "e"]),
        ],
    };
    let parts = unit.explode();
    assert_eq!(parts.len(), 2);
    assert_eq!(parts[0].stack.len(), 2);
    assert_eq!(parts[0].stack[0].parts, owned(&["r", "b", "c", "d"]));
    assert_eq!(parts[0].stack[1].parts, owned(&["r", "b", "c", "d", "e"]));
    assert_eq!(parts[1].stack.len(), 1);
    assert_eq!(parts[1].stack[0].parts, owned(&["r", "a"]));
}

#[test]
fn explode_conserves_the_pending_paths() {
    let before = vec![
        path(&["r", "a"]),
        path(&["r", "b"]),
        path(&["r", "b", "x"]),
        path(&["r", "b", "x", "y"]),
    ];
    let names_before: Vec<Vec<String>> = before.iter().map(|p| p.parts.clone()).collect();
    let unit = Stack { stack: before };
    let parts = unit.explode();
    assert!(parts.len() >= 2);
    let mut names_after: Vec<Vec<String>> = Vec::new();
    for u in &parts {
        assert!(!u.stack.is_empty());
        for p in &u.stack {
            names_after.push(p.parts.clone());
        }
    }
    let mut want = names_before;
    want.sort();
    names_after.sort();
    assert_eq!(names_after, want);
}

#[test]
fn interleave_changes_order_only() {
    let tree: Tree = &[
        (&["r"], &["a", "b"], &[1], 0),
        (&["r", "a"], &["x"], &[2], 0),
        (&["r", "a", "x"], &[], &[4], 0),
        (&["r", "b"], &["y"], &[8], 0),
        (&["r", "b", "y"], &[], &[16], 0),
    ];
    let plain = as_sorted(run(tree, &["r"], false));
    let mixed = as_sorted(run(tree, &["r"], true));
    assert_eq!(plain, mixed);
    assert_eq!(plain.len(), 5);
}

#[test]
fn every_directory_is_emitted_exactly_once() {
    let tree: Tree = &[
        (&["root"], &["a", "b", "c"], &[], 0),
        (&["root", "a"], &["d"], &[1], 0),
        (&["root", "a", "d"], &[], &[2], 0),
        (&["root", "b"], &[], &[3], 1),
        (&["root", "c"], &["e", "f"], &[], 0),
        (&["root", "c", "e"], &[], &[], 0),
        (&["root", "c", "f"], &[], &[5], 0),
    ];
    let got = as_sorted(run(tree, &["root"], false));
    assert_eq!(got.len(), 7);
    for w in got.windows(2) {
        assert_ne!(w[0].0, w[1].0, "a directory was emitted twice");
    }
    let also = as_sorted(run(tree, &["root"], true));
    assert_eq!(got, also);
}

#[test]
fn interleave_on_a_single_unit_wraps_to_front() {
    let mut it = DirWiz::new(path(&["r"])).into_iter();
    assert_eq!(it.index, 0);
    it.interleave();
    assert_eq!(it.index, 0);
    it.interleave();
    assert_eq!(it.index, 0);
}

#[test]
fn depth_and_child_build_paths() {
    let r = path(&["r"]);
    assert_eq!(r.depth(), 1);
    let c = r.child("sub".to_string());
    assert_eq!(c.depth(), 2);
    assert_eq!(c.parts, owned(&["r", "sub"]));
}
