use duckdb_kart::git::{
    classify_entries, git_libgit2_init, git_object_t, gitdir_target, path_step, split_chunks, split_path, FeatureWalk, PathStep,
    TreeEntry, WalkPlan,
};

fn oid(n: u8) -> [u8; 20] {
    [n; 20]
}

fn entry(name: &str, n: u8, kind: git_object_t) -> TreeEntry {
    TreeEntry { name: name.to_string(), oid: oid(n), kind }
}

#[test]
fn entries_sort_into_trees_and_blobs() {
    git_libgit2_init();
    let entries = vec![
        entry("a", 1, git_object_t::GIT_OBJECT_TREE),
        entry("b", 2, git_object_t::GIT_OBJECT_BLOB),
        entry("c", 3, git_object_t::GIT_OBJECT_OTHER),
        entry("d", 4, git_object_t::GIT_OBJECT_TREE),
        entry("e", 5, git_object_t::GIT_OBJECT_BLOB),
    ];
    let (trees, blobs) = classify_entries(&entries);
    assert_eq!(trees, vec![oid(1), oid(4)]);
    assert_eq!(blobs, vec![("b".to_string(), oid(2)), ("e".to_string(), oid(5))]);
}

#[test]
fn walk_expands_levels_until_wide_enough() {
    let mut w = FeatureWalk::new(oid(0));
    assert!(w.wants_listing());
    w.expand(vec![vec![entry("x", 1, git_object_t::GIT_OBJECT_TREE), entry("f", 9, git_object_t::GIT_OBJECT_BLOB)]]);
    assert_eq!(w.current_trees, vec![oid(1)]);
    assert_eq!(w.direct_blobs, vec![("f".to_string(), oid(9))]);
    let wide: Vec<TreeEntry> = (0..70u8).map(|i| entry("t", i, git_object_t::GIT_OBJECT_TREE)).collect();
    w.expand(vec![wide]);
    assert_eq!(w.current_trees.len(), 70);
    assert!(!w.wants_listing());
    match w.plan(Some(4)) {
        WalkPlan::Parallel(chunks) => {
            assert_eq!(chunks.len(), 4);
            assert_eq!(chunks[0].len(), 18);
            assert_eq!(chunks[3].len(), 16);
            assert_eq!(chunks.concat(), w.current_trees);
        }
        other => panic!("unexpected plan {:?}", other),
    }
    match w.plan(None) {
        WalkPlan::Parallel(chunks) => assert_eq!(chunks.len(), 8),
        other => panic!("unexpected plan {:?}", other),
    }
}

#[test]
fn walk_stops_at_a_level_without_subtrees() {
    let mut w = FeatureWalk::new(oid(0));
    w.expand(vec![vec![entry("f", 9, git_object_t::GIT_OBJECT_BLOB)]]);
    assert!(w.current_trees.is_empty());
    assert!(!w.wants_listing());
    assert!(matches!(w.plan(Some(2)), WalkPlan::Done));
    let one = FeatureWalk { current_trees: vec![oid(3)], direct_blobs: vec![] };
    assert!(matches!(one.plan(Some(2)), WalkPlan::Sequential(x) if x == oid(3)));
}

#[test]
fn chunks_cover_items_in_order() {
    let items: Vec<[u8; 20]> = (0..7u8).map(oid).collect();
    let c = split_chunks(&items, 3);
    assert_eq!(c, vec![vec![oid(0), oid(1), oid(2)], vec![oid(3), oid(4), oid(5)], vec![oid(6)]]);
    assert_eq!(split_chunks(&vec![], 3), Vec::<Vec<[u8; 20]>>::new());
    assert_eq!(split_chunks(&items, 10).len(), 1);
}

#[test]
fn path_steps() {
    let entries = vec![
        entry("meta", 1, git_object_t::GIT_OBJECT_TREE),
        entry("schema.json", 2, git_object_t::GIT_OBJECT_BLOB),
        entry("meta", 3, git_object_t::GIT_OBJECT_BLOB),
    ];
    assert_eq!(path_step(&entries, "meta", false), PathStep::Descend(oid(1)));
    assert_eq!(path_step(&entries, "meta", true), PathStep::Found(oid(1), git_object_t::GIT_OBJECT_TREE));
    assert_eq!(path_step(&entries, "schema.json", true), PathStep::Found(oid(2), git_object_t::GIT_OBJECT_BLOB));
    assert_eq!(path_step(&entries, "schema.json", false), PathStep::NotATree);
    assert_eq!(path_step(&entries, "missing", true), PathStep::NotFound);
}

#[test]
fn paths_split_into_non_empty_parts() {
    assert_eq!(split_path("a/.table-dataset/meta/schema.json"), vec!["a", ".table-dataset", "meta", "schema.json"]);
    assert_eq!(split_path("//a//b/"), vec!["a", "b"]);
    assert_eq!(split_path(""), Vec::<String>::new());
    assert_eq!(split_path("///"), Vec::<String>::new());
    assert_eq!(split_path("héllo/wörld"), vec!["héllo", "wörld"]);
}

#[test]
fn gitdir_files_point_to_repositories() {
    assert_eq!(gitdir_target("gitdir: ../main/.git/worktrees/w\n"), Some("../main/.git/worktrees/w".to_string()));
    assert_eq!(gitdir_target("  gitdir:repo  "), Some("repo".to_string()));
    assert_eq!(gitdir_target("gitdir:"), Some("".to_string()));
    assert_eq!(gitdir_target("\u{3000}gitdir:\u{a0}p q\u{2028}"), Some("p q".to_string()));
    assert_eq!(gitdir_target("git dir: x"), None);
    assert_eq!(gitdir_target("gitdi"), None);
    assert_eq!(gitdir_target(""), None);
    assert_eq!(gitdir_target("ref: gitdir: x"), None);
}

/// A repository of `fanout` subtrees per tree, `depth` levels deep, with
/// two blobs in every tree; tree ids are their indices.
fn sample_repo(fanout: usize, depth: usize) -> (Vec<Vec<TreeEntry>>, usize) {
    let mut trees: Vec<Vec<TreeEntry>> = vec![Vec::new()];
    let mut level = vec![0usize];
    let mut next_blob: u32 = 0;
    for d in 0..=depth {
        let mut next_level = Vec::new();
        for &t in &level {
            for _ in 0..2 {
                let mut id = [0u8; 20];
                id[..4].copy_from_slice(&next_blob.to_be_bytes());
                id[19] = 1;
                trees[t].push(TreeEntry { name: format!("f{}", next_blob), oid: id, kind: git_object_t::GIT_OBJECT_BLOB });
                next_blob += 1;
            }
            if d < depth {
                for _ in 0..fanout {
                    let child = trees.len();
                    trees.push(Vec::new());
                    let mut id = [0u8; 20];
                    id[..8].copy_from_slice(&(child as u64).to_be_bytes());
                    trees[t].push(TreeEntry { name: format!("t{}", child), oid: id, kind: git_object_t::GIT_OBJECT_TREE });
                    next_level.push(child);
                }
            }
        }
        level = next_level;
    }
    (trees, next_blob as usize)
}

fn tree_index(id: &[u8; 20]) -> usize {
    let mut b = [0u8; 8];
    b.copy_from_slice(&id[..8]);
    u64::from_be_bytes(b) as usize
}

fn depth_first(trees: &Vec<Vec<TreeEntry>>, root: [u8; 20], out: &mut Vec<(String, [u8; 20])>) {
    let mut stack = vec![root];
    while let Some(t) = stack.pop() {
        let (subtrees, blobs) = classify_entries(&trees[tree_index(&t)]);
        out.extend(blobs);
        stack.extend(subtrees);
    }
}

#[test]
fn walk_collects_every_blob_once() {
    for (fanout, depth) in [(3usize, 4usize), (9, 2), (1, 5), (0, 0), (70, 1)] {
        let (trees, blob_count) = sample_repo(fanout, depth);
        let root = [0u8; 20];
        let mut w = FeatureWalk::new(root);
        while w.wants_listing() {
            let listings: Vec<Vec<TreeEntry>> = w.current_trees.iter().map(|t| trees[tree_index(t)].clone()).collect();
            w.expand(listings);
        }
        let mut all = w.direct_blobs.clone();
        match w.plan(Some(4)) {
            WalkPlan::Done => {}
            WalkPlan::Sequential(t) => depth_first(&trees, t, &mut all),
            WalkPlan::Parallel(groups) => {
                for g in groups {
                    for t in g {
                        depth_first(&trees, t, &mut all);
                    }
                }
            }
        }
        assert_eq!(all.len(), blob_count);
        let mut names: Vec<String> = all.iter().map(|(n, _)| n.clone()).collect();
        names.sort();
        names.dedup();
        assert_eq!(names.len(), blob_count);
    }
}
