use std::collections::HashMap;

use pfind::queue::PathQueue;
use pfind::walk::{
    pop_or_steal, push, scan_entry, should_skip, worker_should_exit, display_path, EntryAction,
    Options,
};

fn bytes(s: &str) -> Vec<u8> {
    s.as_bytes().to_vec()
}

/// A directory tree held in memory: each directory maps to its child
/// entries, `(base name, is directory)`.
type Tree = HashMap<Vec<u8>, Vec<(Vec<u8>, bool)>>;

/// The worker loop over an in-memory tree, single worker, two queues: poll
/// or steal, scan the popped directory's entries, emit and enqueue per the
/// scanner's decision, and stop when the outstanding-work counter is zero
/// and a poll comes back empty.  Depths ride alongside the queues, root
/// directories at depth zero.
fn walk_tree(tree: &Tree, roots: &[&str], opts: &Options) -> Vec<Vec<u8>> {
    let mut queues = vec![PathQueue::new(4, 4).unwrap(), PathQueue::new(4, 4).unwrap()];
    let mut depths: HashMap<Vec<u8>, i32> = HashMap::new();
    let mut outstanding: u64 = 0;
    for r in roots {
        push(&mut queues, 0, bytes(r)).unwrap();
        depths.insert(bytes(r), 0);
        outstanding += 1;
    }
    let cwd = bytes("/base");
    let mut emitted = Vec::new();
    loop {
        match pop_or_steal(&mut queues, 1).unwrap() {
            Some(dir) => {
                let dir_depth = depths.remove(&dir).unwrap_or(0);
                if let Some(children) = tree.get(&dir) {
                    for (name, is_dir) in children {
                        let mut child = dir.clone();
                        child.push(b'/');
                        child.extend_from_slice(name);
                        let child_depth = dir_depth + 1;
                        match scan_entry(&child, &Some(name.clone()), *is_dir, child_depth, opts, &cwd) {
                            EntryAction::Emit { line, descend } => {
                                emitted.push(line);
                                if descend {
                                    push(&mut queues, 1, child.clone()).unwrap();
                                    depths.insert(child, child_depth);
                                    outstanding += 1;
                                }
                            }
                            EntryAction::Skip => {}
                            EntryAction::BadName => {}
                        }
                    }
                }
                outstanding -= 1;
            }
            None => {
                if worker_should_exit(false, outstanding) {
                    break;
                }
            }
        }
    }
    emitted
}

#[test]
fn tree_walk_enumerates_everything_once() {
    // A synthetic tree of depth 4 and fan-out 3, every node named uniquely:
    // the emitted paths, sorted, are exactly the sorted list of all paths.
    let mut tree: Tree = HashMap::new();
    let mut expected: Vec<Vec<u8>> = Vec::new();
    let mut level: Vec<Vec<u8>> = vec![bytes("root")];
    tree.insert(bytes("root"), Vec::new());
    let mut serial = 0usize;
    for depth in 1..=4 {
        let mut next_level = Vec::new();
        for parent in &level {
            let mut children = Vec::new();
            for _ in 0..3 {
                let name = format!("d{}n{}", depth, serial).into_bytes();
                serial += 1;
                let mut path = parent.clone();
                path.push(b'/');
                path.extend_from_slice(&name);
                expected.push(path.clone());
                children.push((name, depth < 4));
                if depth < 4 {
                    tree.insert(path.clone(), Vec::new());
                    next_level.push(path);
                }
            }
            tree.insert(parent.clone(), children);
        }
        level = next_level;
    }
    assert_eq!(expected.len(), 3 + 9 + 27 + 81);
    let mut emitted = walk_tree(&tree, &["root"], &Options::new());
    assert_eq!(emitted.len(), expected.len());
    emitted.sort();
    expected.sort();
    assert_eq!(emitted, expected);
}

#[test]
fn tree_walk_is_idempotent() {
    // Two runs over the same immutable tree emit the same multiset.
    let mut tree: Tree = HashMap::new();
    tree.insert(bytes("r"), vec![(bytes("a"), true), (bytes("b"), false)]);
    tree.insert(bytes("r/a"), vec![(bytes("c"), false), (bytes("d"), false)]);
    let opts = Options::new();
    let mut first = walk_tree(&tree, &["r"], &opts);
    let mut second = walk_tree(&tree, &["r"], &opts);
    first.sort();
    second.sort();
    assert_eq!(first, second);
    assert_eq!(first.len(), 4);
}

#[test]
fn hidden_file_policy() {
    // A directory {a, .b, c}: hidden entries are dropped by default and
    // included when allowed.
    let mut tree: Tree = HashMap::new();
    tree.insert(
        bytes("top"),
        vec![(bytes("a"), false), (bytes(".b"), false), (bytes("c"), false)],
    );
    let opts = Options::new();
    let mut emitted = walk_tree(&tree, &["top"], &opts);
    emitted.sort();
    assert_eq!(emitted, vec![bytes("top/a"), bytes("top/c")]);

    let mut opts_hidden = Options::new();
    opts_hidden.allow_hidden = true;
    let mut emitted = walk_tree(&tree, &["top"], &opts_hidden);
    emitted.sort();
    assert_eq!(emitted, vec![bytes("top/.b"), bytes("top/a"), bytes("top/c")]);
}

#[test]
fn ignore_list_skips_whole_subtrees() {
    // `-I node_modules,.git`: both directories and everything beneath them
    // are skipped.
    let mut tree: Tree = HashMap::new();
    tree.insert(
        bytes("proj"),
        vec![(bytes("node_modules"), true), (bytes(".git"), true), (bytes("src"), true)],
    );
    tree.insert(bytes("proj/node_modules"), vec![(bytes("dep"), true)]);
    tree.insert(bytes("proj/node_modules/dep"), vec![(bytes("lib.js"), false)]);
    tree.insert(bytes("proj/.git"), vec![(bytes("objects"), true)]);
    tree.insert(bytes("proj/.git/objects"), vec![(bytes("pack"), false)]);
    tree.insert(bytes("proj/src"), vec![(bytes("main.rs"), false)]);
    let mut opts = Options::new();
    opts.allow_hidden = true;
    opts.ignores = vec![bytes("node_modules"), bytes(".git")];
    let mut emitted = walk_tree(&tree, &["proj"], &opts);
    emitted.sort();
    assert_eq!(emitted, vec![bytes("proj/src"), bytes("proj/src/main.rs")]);
}

#[test]
fn stealing_finds_work_in_peer_queues() {
    let mut queues = vec![PathQueue::new(4, 4).unwrap(), PathQueue::new(4, 4).unwrap()];
    push(&mut queues, 0, bytes("only")).unwrap();
    // Worker 1 owns an empty queue and steals from worker 0.
    assert_eq!(pop_or_steal(&mut queues, 1).unwrap(), Some(bytes("only")));
    assert_eq!(pop_or_steal(&mut queues, 1).unwrap(), None);
    assert_eq!(pop_or_steal(&mut queues, 0).unwrap(), None);
}

#[test]
fn worker_exit_decision() {
    assert!(worker_should_exit(false, 0));
    assert!(!worker_should_exit(false, 3));
    assert!(!worker_should_exit(true, 0));
    assert!(!worker_should_exit(true, 3));
}

#[test]
fn skip_rules() {
    let no_ignores: Vec<Vec<u8>> = Vec::new();
    let ignores = vec![bytes("node_modules"), bytes(".git")];
    assert!(should_skip(&bytes(".hidden"), false, &no_ignores));
    assert!(!should_skip(&bytes(".hidden"), true, &no_ignores));
    assert!(!should_skip(&bytes("plain"), false, &no_ignores));
    assert!(should_skip(&bytes("node_modules"), false, &ignores));
    assert!(should_skip(&bytes(".git"), true, &ignores));
    assert!(!should_skip(&bytes("node_module"), false, &ignores));
    assert!(!should_skip(&bytes(""), false, &no_ignores));
}

#[test]
fn bad_name_reported() {
    let opts = Options::new();
    let act = scan_entry(&bytes("dir/x"), &None, false, 1, &opts, &bytes("/base"));
    assert_eq!(act, EntryAction::BadName);
}

#[test]
fn depth_cap_limits_descent() {
    // `-d 2`: entries at depth one and two are printed; directories at depth
    // two are not descended into.
    let mut tree: Tree = HashMap::new();
    tree.insert(bytes("r"), vec![(bytes("a"), true)]);
    tree.insert(bytes("r/a"), vec![(bytes("b"), true), (bytes("f1"), false)]);
    tree.insert(bytes("r/a/b"), vec![(bytes("c"), true), (bytes("f2"), false)]);
    tree.insert(bytes("r/a/b/c"), vec![(bytes("f3"), false)]);
    let mut opts = Options::new();
    opts.max_depth = 2;
    let mut emitted = walk_tree(&tree, &["r"], &opts);
    emitted.sort();
    assert_eq!(emitted, vec![bytes("r/a"), bytes("r/a/b"), bytes("r/a/f1")]);

    let all = walk_tree(&tree, &["r"], &Options::new());
    assert_eq!(all.len(), 6);
}

#[test]
fn steal_order_probes_next_peer_first() {
    // Worker 1's own queue is empty; the probe starts just after it, so the
    // path in queue 2 is stolen before the one in queue 0.
    let mut queues = vec![
        PathQueue::new(4, 4).unwrap(),
        PathQueue::new(4, 4).unwrap(),
        PathQueue::new(4, 4).unwrap(),
    ];
    push(&mut queues, 0, bytes("zero")).unwrap();
    push(&mut queues, 2, bytes("two")).unwrap();
    assert_eq!(pop_or_steal(&mut queues, 1).unwrap(), Some(bytes("two")));
    assert_eq!(pop_or_steal(&mut queues, 1).unwrap(), Some(bytes("zero")));
    assert_eq!(pop_or_steal(&mut queues, 1).unwrap(), None);
}

#[test]
fn strip_cwd_prefix_forms() {
    let cwd = bytes("/home/me");
    assert_eq!(display_path(&bytes("./src/a"), &cwd, true), bytes("src/a"));
    assert_eq!(display_path(&bytes("/home/me/src"), &cwd, true), bytes("src"));
    assert_eq!(display_path(&bytes("/home/metal"), &cwd, true), bytes("/home/metal"));
    assert_eq!(display_path(&bytes("/elsewhere"), &cwd, true), bytes("/elsewhere"));
    assert_eq!(display_path(&bytes("./src/a"), &cwd, false), bytes("./src/a"));
    // A working directory that is the root ends with the separator itself.
    assert_eq!(display_path(&bytes("/usr"), &bytes("/"), true), bytes("usr"));
    assert_eq!(display_path(&bytes("/"), &bytes("/"), true), bytes("/"));
}

#[test]
fn default_options() {
    let o = Options::new();
    assert!(!o.allow_hidden);
    assert!(!o.follow_links);
    assert_eq!(o.max_depth, i32::MAX);
    assert!(o.ignores.is_empty());
    assert!(!o.strip_cwd_prefix);
}
