use std::collections::BTreeMap;

use tailwindcss_oxide::detect_sources::{resolve_globs, DirClass, GlobResolver};
use tailwindcss_oxide::tree::{DirectoryTree, EntryKind, TreeEntry};

const EXTENSIONS: &str = "aspx,astro,cjs,cts,eex,erb,gjs,gts,haml,handlebars,hbs,heex,html,jade,js,jsx,liquid,md,mdx,mjs,mts,mustache,njk,nunjucks,php,pug,py,razor,rb,rhtml,rs,slim,svelte,tpl,ts,tsx,twig,vue";

enum Node {
    File,
    Dir(BTreeMap<String, Node>),
}

fn insert(children: &mut BTreeMap<String, Node>, parts: &[&str]) {
    if parts.len() == 1 {
        children.insert(parts[0].to_string(), Node::File);
        return;
    }
    let child = children
        .entry(parts[0].to_string())
        .or_insert_with(|| Node::Dir(BTreeMap::new()));
    if let Node::Dir(below) = child {
        insert(below, &parts[1..]);
    }
}

fn list(path: &str, name: &str, depth: usize, node: &Node, entries: &mut Vec<TreeEntry>) {
    match node {
        Node::File => entries.push(TreeEntry {
            path: path.to_string(),
            name: name.to_string(),
            depth,
            kind: EntryKind::File,
        }),
        Node::Dir(children) => {
            entries.push(TreeEntry {
                path: path.to_string(),
                name: name.to_string(),
                depth,
                kind: EntryKind::Directory,
            });
            for (child, below) in children {
                if let Node::Dir(_) = below {
                    list(&format!("{}/{}", path, child), child, depth + 1, below, entries);
                }
            }
            for (child, below) in children {
                if let Node::File = below {
                    list(&format!("{}/{}", path, child), child, depth + 1, below, entries);
                }
            }
        }
    }
}

/// The listing of `/base` when it holds the files `files`: directories before
/// files, then by name.
fn listing(files: &[&str]) -> DirectoryTree {
    let mut root = BTreeMap::new();
    for file in files {
        let parts: Vec<&str> = file.split('/').collect();
        insert(&mut root, &parts);
    }
    let mut entries = Vec::new();
    list("/base", "base", 0, &Node::Dir(root), &mut entries);
    DirectoryTree { entries }
}

fn dirs(paths: &[&str]) -> Vec<String> {
    paths.iter().map(|path| path.to_string()).collect()
}

fn sorted_globs(tree: DirectoryTree, allowed: &[&str]) -> Vec<String> {
    let mut globs: Vec<String> = resolve_globs(tree, &dirs(allowed))
        .iter()
        .map(|glob| format!("{}/{}", glob.base, glob.pattern).replace("/base/", ""))
        .collect();
    globs.sort();
    globs
}

fn class_of(tree: &DirectoryTree, classes: &[DirClass], path: &str) -> DirClass {
    let index = tree.entries.iter().position(|entry| entry.path == path).unwrap();
    classes[index]
}

#[test]
fn root_files_need_no_glob() {
    let tree = listing(&["index.html", "a.html", "b.html", "c.html"]);
    assert_eq!(sorted_globs(tree, &["/base"]), Vec::<String>::new());
}

#[test]
fn a_top_level_folder_gets_a_deep_glob() {
    let tree = listing(&["index.html", "src/a.html", "src/b.html", "src/c.html"]);
    assert_eq!(
        sorted_globs(tree, &["/base", "/base/src"]),
        vec![format!("src/**/*.{{{}}}", EXTENSIONS)]
    );
}

#[test]
fn the_public_folder_is_forced_static() {
    let files = [
        "index.html",
        "public/a.html",
        "public/b.html",
        "public/c.html",
        "public/nested/c.html",
        "public/deeply/nested/c.html",
    ];
    let allowed = [
        "/base",
        "/base/public",
        "/base/public/nested",
        "/base/public/deeply",
        "/base/public/deeply/nested",
    ];
    assert_eq!(sorted_globs(listing(&files), &allowed), Vec::<String>::new());

    let tree = listing(&files);
    let resolver = GlobResolver::new(listing(&files), &dirs(&allowed));
    let classes = resolver.classify();
    assert_eq!(class_of(&tree, &classes, "/base/public"), DirClass::ForcedStatic);
    assert_eq!(class_of(&tree, &classes, "/base/public/nested"), DirClass::ForcedStatic);
    assert_eq!(class_of(&tree, &classes, "/base/public/deeply/nested"), DirClass::ForcedStatic);
    assert_eq!(class_of(&tree, &classes, "/base"), DirClass::Unclassified);
}

#[test]
fn ignored_sibling_demotes_its_parent() {
    let tree = listing(&[
        "nested-c/foo.html",
        "nested-c/sibling/foo.html",
        "nested-c/.gitignore",
        "nested-c/ignored/foo.html",
    ]);
    let globs = sorted_globs(tree, &["/base", "/base/nested-c", "/base/nested-c/sibling"]);
    assert_eq!(
        globs,
        vec![
            format!("nested-c/*/*.{{{}}}", EXTENSIONS),
            format!("nested-c/sibling/**/*.{{{}}}", EXTENSIONS),
        ]
    );
    assert!(!globs.contains(&format!("nested-c/**/*.{{{}}}", EXTENSIONS)));
}

#[test]
fn a_rejected_directory_promotes_its_earlier_siblings() {
    let tree = listing(&[
        "src/index.ts",
        "src/colors/red.jsx",
        "src/colors/blue.tsx",
        "src/colors/green.tsx",
        "src/utils/string.ts",
        "src/utils/date.ts",
        "src/utils/file.ts",
        "src/admin/foo/template.html",
        "src/templates/index.html",
    ]);
    let allowed = [
        "/base",
        "/base/src",
        "/base/src/admin",
        "/base/src/admin/foo",
        "/base/src/colors",
        "/base/src/templates",
    ];
    assert_eq!(
        sorted_globs(tree, &allowed),
        vec![
            format!("src/*/*.{{{}}}", EXTENSIONS),
            format!("src/admin/**/*.{{{}}}", EXTENSIONS),
            format!("src/colors/**/*.{{{}}}", EXTENSIONS),
            format!("src/templates/**/*.{{{}}}", EXTENSIONS),
        ]
    );
}

#[test]
fn git_directories_are_not_traversed() {
    let tree = listing(&["index.html", ".git/objects/pack/a.html", "src/.git/b.html", "src/c.html"]);
    let allowed = ["/base", "/base/.git", "/base/.git/objects", "/base/.git/objects/pack", "/base/src", "/base/src/.git"];
    assert_eq!(
        sorted_globs(tree, &allowed),
        vec![format!("src/**/*.{{{}}}", EXTENSIONS)]
    );
}

#[test]
fn the_base_is_never_classified() {
    let files = ["a.html", "src/b.html", "src/ignored/c.html"];
    let tree = listing(&files);
    // neither when the walker admitted it
    let classes = GlobResolver::new(listing(&files), &dirs(&["/base", "/base/src"])).classify();
    assert_eq!(class_of(&tree, &classes, "/base"), DirClass::Unclassified);
    assert_eq!(class_of(&tree, &classes, "/base/src"), DirClass::Shallow);
    // nor when it did not: then nothing below it is traversed
    let classes = GlobResolver::new(listing(&files), &dirs(&["/base/src"])).classify();
    assert!(classes.iter().all(|class| *class == DirClass::Unclassified));
    assert!(resolve_globs(listing(&files), &dirs(&["/base/src"])).is_empty());
}

#[test]
fn a_rejected_directory_directly_in_the_base_changes_nothing() {
    let tree = listing(&["dist/a.html", "src/b.html"]);
    assert_eq!(
        sorted_globs(tree, &["/base", "/base/src"]),
        vec![format!("src/**/*.{{{}}}", EXTENSIONS)]
    );
}

#[test]
fn public_is_forced_static_whatever_the_walker_admitted() {
    let files = ["public/a.html", "public/nested/b.html", "public/.git/c", "src/public/d.html"];
    let tree = listing(&files);
    let classes = GlobResolver::new(listing(&files), &dirs(&["/base", "/base/src"])).classify();
    assert_eq!(class_of(&tree, &classes, "/base/public"), DirClass::ForcedStatic);
    assert_eq!(class_of(&tree, &classes, "/base/public/nested"), DirClass::ForcedStatic);
    assert_eq!(class_of(&tree, &classes, "/base/public/.git"), DirClass::Unclassified);
    // a `public` further down is a directory like any other
    assert_eq!(class_of(&tree, &classes, "/base/src"), DirClass::Shallow);
    assert_eq!(class_of(&tree, &classes, "/base/src/public"), DirClass::Unclassified);
}

#[test]
fn shallow_globs_come_before_deep_globs_in_the_order_of_the_listing() {
    let tree = listing(&["a/x/f.html", "a/y/f.html", "b/f.html", "c/z/f.html", "c/ignored/f.html"]);
    let allowed = dirs(&["/base", "/base/a", "/base/a/y", "/base/b", "/base/c", "/base/c/z"]);
    let globs: Vec<String> = resolve_globs(tree, &allowed)
        .iter()
        .map(|glob| format!("{}/{}", glob.base, &glob.pattern[..3]))
        .collect();
    // `a/x` was rejected: `a` is shallow, and `a/y`, which comes after it, deep;
    // `c/ignored` was rejected too, but `c/z` comes after it
    assert_eq!(
        globs,
        vec!["/base/a/*/*", "/base/c/*/*", "/base/a/y/**/", "/base/b/**/", "/base/c/z/**/"]
    );
}

#[test]
fn no_two_globs_share_a_base() {
    let tree = listing(&[
        "src/a/one/f.html",
        "src/a/two/f.html",
        "src/b/f.html",
        "src/c/skip/f.html",
        "lib/f.html",
        "public/f.html",
    ]);
    let allowed = dirs(&[
        "/base",
        "/base/src",
        "/base/src/a",
        "/base/src/a/two",
        "/base/src/b",
        "/base/src/c",
        "/base/lib",
    ]);
    let globs = resolve_globs(tree, &allowed);
    let mut bases: Vec<&String> = globs.iter().map(|glob| &glob.base).collect();
    bases.sort();
    let count = bases.len();
    bases.dedup();
    assert_eq!(bases.len(), count);
    assert!(!bases.contains(&&"/base/public".to_string()));
    assert!(!bases.contains(&&"/base".to_string()));
}

#[test]
fn only_admitted_directories_get_a_glob() {
    let mut tree = listing(&[
        "src/.git/config",
        "src/a/f.html",
        "src/m/f.html",
        "src/m/below/f.html",
        "src/z/f.html",
        "src/top.html",
    ]);
    // `src/link` is neither a directory nor a file
    let at = tree.entries.iter().position(|entry| entry.path == "/base/src/m").unwrap();
    tree.entries.insert(
        at,
        TreeEntry {
            path: "/base/src/link".to_string(),
            name: "link".to_string(),
            depth: 2,
            kind: EntryKind::Other,
        },
    );
    // `src/m` was rejected; `src/m/below` and `src/.git` are admitted but never reached
    let allowed = dirs(&[
        "/base",
        "/base/src",
        "/base/src/.git",
        "/base/src/a",
        "/base/src/m/below",
        "/base/src/z",
    ]);
    let paths: Vec<String> = tree.entries.iter().map(|entry| entry.path.clone()).collect();
    let classes = GlobResolver::new(tree, &allowed).classify();
    let class = |path: &str| classes[paths.iter().position(|p| p == path).unwrap()];
    assert_eq!(class("/base/src"), DirClass::Shallow);
    assert_eq!(class("/base/src/a"), DirClass::Deep);
    assert_eq!(class("/base/src/z"), DirClass::Deep);
    assert_eq!(class("/base/src/.git"), DirClass::Unclassified);
    assert_eq!(class("/base/src/link"), DirClass::Unclassified);
    assert_eq!(class("/base/src/m"), DirClass::Unclassified);
    assert_eq!(class("/base/src/m/below"), DirClass::Unclassified);
    assert_eq!(class("/base/src/top.html"), DirClass::Unclassified);
}

#[test]
fn a_rejected_directory_far_below_leaves_everything_above_it_shallow() {
    let files = ["p/q/x/f.html", "p/q/before/f.html", "p/q/y/f.html", "p/other/f.html", "p/f.html"];
    let tree = listing(&files);
    let allowed = dirs(&[
        "/base",
        "/base/p",
        "/base/p/other",
        "/base/p/q",
        "/base/p/q/before",
        "/base/p/q/y",
    ]);
    let classes = GlobResolver::new(listing(&files), &allowed).classify();
    assert_eq!(class_of(&tree, &classes, "/base/p"), DirClass::Shallow);
    assert_eq!(class_of(&tree, &classes, "/base/p/q"), DirClass::Shallow);
    assert_eq!(class_of(&tree, &classes, "/base/p/q/x"), DirClass::Unclassified);
    assert_eq!(class_of(&tree, &classes, "/base/p/q/before"), DirClass::Deep);
    assert_eq!(class_of(&tree, &classes, "/base/p/q/y"), DirClass::Deep);
    assert_eq!(class_of(&tree, &classes, "/base/p/other"), DirClass::Deep);
}

#[test]
fn only_the_set_of_admitted_directories_counts() {
    let files = ["src/a/f.html", "src/b/skip/f.html", "lib/f.html"];
    let once = dirs(&["/base", "/base/src", "/base/src/a", "/base/src/b", "/base/lib"]);
    let twice = dirs(&[
        "/base/lib",
        "/base/src/b",
        "/base",
        "/base/src",
        "/base/nowhere",
        "/base/src/a",
        "/base/src",
        "/base/lib",
    ]);
    let first = resolve_globs(listing(&files), &once);
    let second = resolve_globs(listing(&files), &twice);
    assert_eq!(first, second);
    for glob in &first {
        assert!(once.contains(&glob.base));
        assert!(glob.base.starts_with("/base/"));
    }
    let bases: Vec<&str> = first.iter().map(|glob| glob.base.as_str()).collect();
    assert_eq!(bases, vec!["/base/src", "/base/src/b", "/base/lib", "/base/src/a"]);
}

#[test]
fn the_parents_of_a_listing() {
    let tree = listing(&["a/b/c.html", "a/d.html", "e.html"]);
    let paths: Vec<&str> = tree.entries.iter().map(|entry| entry.path.as_str()).collect();
    assert_eq!(
        paths,
        vec!["/base", "/base/a", "/base/a/b", "/base/a/b/c.html", "/base/a/d.html", "/base/e.html"]
    );
    assert_eq!(
        tree.parent_indices(),
        vec![None, Some(0), Some(1), Some(2), Some(1), Some(0)]
    );
    assert_eq!(DirectoryTree { entries: vec![] }.parent_indices(), Vec::<Option<usize>>::new());
}

#[test]
fn what_the_traversal_reaches_is_within_reach_of_a_glob() {
    let files = [
        "index.html",
        "public/a.html",
        "public/nested/b.html",
        "lib/x.html",
        "lib/inner/y.html",
        "src/top.html",
        "src/a/one.html",
        "src/a/skip/two.html",
        "src/a/keep/three.html",
        "src/b/four.html",
        "src/b/deep/down/five.html",
        "src/b/rejected/eight.html",
        "docs/ignored/six.html",
        "docs/seven.html",
        ".git/config",
    ];
    let allowed = dirs(&[
        "/base",
        "/base/public",
        "/base/lib",
        "/base/lib/inner",
        "/base/src",
        "/base/src/a",
        "/base/src/a/keep",
        "/base/src/b",
        "/base/src/b/deep",
        "/base/src/b/deep/down",
        "/base/docs",
    ]);
    let tree = listing(&files);
    let parents = tree.parent_indices();
    let classes = GlobResolver::new(listing(&files), &allowed).classify();
    let n = tree.entries.len();

    let mut forced = vec![false; n];
    let mut reached = vec![false; n];
    let mut pruned = vec![false; n];
    for i in 0..n {
        let entry = &tree.entries[i];
        let is_dir = entry.kind == EntryKind::Directory;
        match parents[i] {
            None => reached[i] = true,
            Some(p) => {
                reached[i] = reached[p] && !pruned[p];
                forced[i] = is_dir
                    && (forced[p] || (entry.name == "public" && parents[p].is_none()));
            }
        }
        pruned[i] = is_dir && (entry.name == ".git" || (!forced[i] && !allowed.contains(&entry.path)));
    }
    let has_deep_ancestor = |mut i: usize| -> bool {
        while let Some(p) = parents[i] {
            if parents[p].is_some() && classes[p] == DirClass::Deep {
                return true;
            }
            i = p;
        }
        false
    };

    let mut in_base = 0;
    let mut below_deep = 0;
    let mut below_shallow = 0;
    let mut out_of_reach = vec![];
    for f in 1..n {
        let d = parents[f].unwrap();
        if !reached[f] || forced[d] {
            continue;
        }
        if parents[d].is_none() {
            in_base += 1;
        } else if has_deep_ancestor(f) {
            below_deep += 1;
        } else if parents[parents[d].unwrap()].is_some()
            && classes[parents[d].unwrap()] == DirClass::Shallow
        {
            below_shallow += 1;
        } else {
            // the one exception: directly in a shallow directory directly in the base
            assert_eq!(classes[d], DirClass::Shallow, "{}", tree.entries[f].path);
            assert_eq!(parents[d], Some(0));
            out_of_reach.push(tree.entries[f].path.clone());
        }
    }
    assert!(in_base > 0 && below_deep > 0 && below_shallow > 0);
    assert_eq!(
        out_of_reach,
        vec![
            "/base/docs/ignored",
            "/base/docs/seven.html",
            "/base/src/a",
            "/base/src/b",
            "/base/src/top.html",
        ]
    );
    // nothing in `.git` is reached, and none of it is classified
    for i in 0..n {
        if tree.entries[i].path.starts_with("/base/.git/") {
            assert!(!reached[i]);
            assert_eq!(classes[i], DirClass::Unclassified);
        }
    }
}
