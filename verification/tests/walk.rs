use hunt::structs::{FileType, Search};
use hunt::traversal::{node_path_of, FsNode, FsTree};

fn walk_cfg(name: &[u8]) -> Search {
    Search::new(
        false,
        false,
        false,
        true,
        true,
        false,
        false,
        false,
        false,
        0,
        name.to_vec(),
        Vec::new(),
        Vec::new(),
        FileType::All,
        Vec::new(),
        Vec::new(),
    )
}

fn node(name: &[u8], parent: Option<usize>, is_dir: bool) -> FsNode {
    FsNode { name: name.to_vec(), parent, is_dir, attr_hidden: false, readable: true }
}

/// The tree `a/`, `a/target.txt`, `a/b/target2.txt`.
fn sample_tree() -> FsTree {
    FsTree {
        nodes: vec![
            node(b"a", None, true),
            node(b"target.txt", Some(0), false),
            node(b"b", Some(0), true),
            node(b"target2.txt", Some(2), false),
        ],
    }
}

fn sorted(v: &Vec<Vec<u8>>) -> Vec<Vec<u8>> {
    let mut s = v.clone();
    s.sort();
    s
}

#[test]
fn contains_mode_scenario() {
    let tree = sample_tree();
    let r = walk_cfg(b"target").search(&tree, &vec![0]);
    assert_eq!(r.exact.len(), 0);
    assert_eq!(
        sorted(&r.contains),
        vec![b"a/b/target2.txt".to_vec(), b"a/target.txt".to_vec()]
    );
}

#[test]
fn default_mode_scenario() {
    let tree = sample_tree();
    let r = walk_cfg(b"target.txt").search(&tree, &vec![0]);
    assert_eq!(r.exact, vec![b"a/target.txt".to_vec()]);
    assert_eq!(r.contains.len(), 0);
}

#[test]
fn repeated_walks_agree() {
    let tree = sample_tree();
    let cfg = walk_cfg(b"target");
    let r1 = cfg.search(&tree, &vec![0]);
    let r2 = cfg.search(&tree, &vec![0]);
    assert_eq!(sorted(&r1.exact), sorted(&r2.exact));
    assert_eq!(sorted(&r1.contains), sorted(&r2.contains));
}

#[test]
fn empty_directory_drains() {
    let tree = FsTree { nodes: vec![node(b"a", None, true)] };
    let r = walk_cfg(b"anything").search(&tree, &vec![0]);
    assert_eq!(r.exact.len(), 0);
    assert_eq!(r.contains.len(), 0);
}

#[test]
fn single_child_chain_drains() {
    let mut nodes = vec![node(b"d0", None, true)];
    for i in 1..40usize {
        let mut name = b"d".to_vec();
        name.extend_from_slice(format!("{}", i).as_bytes());
        nodes.push(node(&name, Some(i - 1), true));
    }
    let tree = FsTree { nodes };
    let r = walk_cfg(b"d39").search(&tree, &vec![0]);
    assert_eq!(r.exact.len(), 1);
}

#[test]
fn ignored_directory_not_entered() {
    let tree = sample_tree();
    let mut cfg = walk_cfg(b"target");
    cfg.explicit_ignore = vec![b"./b".to_vec()];
    let r = cfg.search(&tree, &vec![0]);
    assert_eq!(r.exact.len(), 0);
    assert_eq!(r.contains, vec![b"a/target.txt".to_vec()]);
}

#[test]
fn ignored_and_hidden_excluded_by_ignore() {
    let mut nodes = vec![node(b"a", None, true)];
    nodes.push(FsNode {
        name: b".both".to_vec(),
        parent: Some(0),
        is_dir: false,
        attr_hidden: false,
        readable: true,
    });
    let tree = FsTree { nodes };
    let mut cfg = walk_cfg(b"both");
    cfg.hidden = true;
    cfg.explicit_ignore = vec![b"./.both".to_vec()];
    let r = cfg.search(&tree, &vec![0]);
    assert_eq!(r.exact.len(), 0);
    assert_eq!(r.contains.len(), 0);
}

#[test]
fn hidden_directory_skipped_without_flag() {
    let tree = FsTree {
        nodes: vec![
            node(b"a", None, true),
            node(b".git", Some(0), true),
            node(b"target.txt", Some(1), false),
        ],
    };
    let off = walk_cfg(b"target");
    let r = off.search(&tree, &vec![0]);
    assert_eq!(r.contains.len(), 0);
    let mut on = walk_cfg(b"target");
    on.hidden = true;
    let r2 = on.search(&tree, &vec![0]);
    assert_eq!(r2.contains, vec![b"a/.git/target.txt".to_vec()]);
}

#[test]
fn unreadable_directory_contributes_nothing() {
    let mut tree = sample_tree();
    tree.nodes[2].readable = false;
    let r = walk_cfg(b"target").search(&tree, &vec![0]);
    assert_eq!(r.contains, vec![b"a/target.txt".to_vec()]);
}

#[test]
fn nested_roots_visited_once() {
    let tree = sample_tree();
    let r = walk_cfg(b"target").search(&tree, &vec![0, 2]);
    assert_eq!(
        sorted(&r.contains),
        vec![b"a/b/target2.txt".to_vec(), b"a/target.txt".to_vec()]
    );
}

#[test]
fn first_match_emits_exactly_one() {
    let tree = sample_tree();
    let mut cfg = walk_cfg(b"target");
    cfg.first = true;
    let p = cfg.search_first(&tree, &vec![0]).expect("a match exists");
    assert!(p == b"a/target.txt".to_vec() || p == b"a/b/target2.txt".to_vec());
    let none = walk_cfg(b"absent").search_first(&tree, &vec![0]);
    assert_eq!(none, None);
}

#[test]
fn node_paths_join_ancestors() {
    let tree = sample_tree();
    assert_eq!(node_path_of(&tree, 0), b"a".to_vec());
    assert_eq!(node_path_of(&tree, 3), b"a/b/target2.txt".to_vec());
}

#[test]
fn absolute_ignore_blocks_subtree() {
    let tree = FsTree {
        nodes: vec![
            node(b"/r", None, true),
            node(b"target.txt", Some(0), false),
            node(b"b", Some(0), true),
            node(b"target2.txt", Some(2), false),
        ],
    };
    let mut cfg = walk_cfg(b"target");
    cfg.explicit_ignore = vec![b"/r/b".to_vec()];
    let r = cfg.search(&tree, &vec![0]);
    assert_eq!(r.contains, vec![b"/r/target.txt".to_vec()]);
}

#[test]
fn file_root_contributes_nothing() {
    let tree = FsTree { nodes: vec![node(b"lone.txt", None, false)] };
    let r = walk_cfg(b"lone").search(&tree, &vec![0]);
    assert_eq!(r.exact.len(), 0);
    assert_eq!(r.contains.len(), 0);
}

#[test]
fn exact_only_walk() {
    let tree = sample_tree();
    let mut cfg = walk_cfg(b"target.txt");
    cfg.exact = true;
    let r = cfg.search(&tree, &vec![0]);
    assert_eq!(r.exact, vec![b"a/target.txt".to_vec()]);
    assert_eq!(r.contains.len(), 0);

    let mut sub = walk_cfg(b"target");
    sub.exact = true;
    let r2 = sub.search(&tree, &vec![0]);
    assert_eq!(r2.exact.len(), 0);
    assert_eq!(r2.contains.len(), 0);
}
