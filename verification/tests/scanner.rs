use std::collections::BTreeMap;

use tailwindcss_oxide::content::{Extracted, ExtractedKind, PreProcessor};
use tailwindcss_oxide::gitignore::{build_matcher, Verdict};
use tailwindcss_oxide::scanner::{ChangedContent, Scanner, WalkedEntry};
use tailwindcss_oxide::sources::PublicSourceEntry;
use tailwindcss_oxide::tree::{DirectoryTree, EntryKind, TreeEntry};
use tailwindcss_oxide::GlobEntry;

const EXTENSIONS: &str = "aspx,astro,cjs,cts,eex,erb,gjs,gts,haml,handlebars,hbs,heex,html,jade,js,jsx,liquid,md,mdx,mjs,mts,mustache,njk,nunjucks,php,pug,py,razor,rb,rhtml,rs,slim,svelte,tpl,ts,tsx,twig,vue";

const BASE: &str = "/base";

struct ScanResult {
    files: Vec<String>,
    globs: Vec<String>,
    candidates: Vec<String>,
}

enum Node {
    File,
    Dir(BTreeMap<String, Node>),
}

fn insert(children: &mut BTreeMap<String, Node>, parts: &[&str]) {
    if parts.len() == 1 {
        children.insert(parts[0].to_string(), Node::File);
        return;
    }
    let child = children
        .entry(parts[0].to_string())
        .or_insert_with(|| Node::Dir(BTreeMap::new()));
    if let Node::Dir(below) = child {
        insert(below, &parts[1..]);
    }
}

fn list(path: &str, name: &str, depth: usize, node: &Node, entries: &mut Vec<TreeEntry>) {
    match node {
        Node::File => entries.push(TreeEntry {
            path: path.to_string(),
            name: name.to_string(),
            depth,
            kind: EntryKind::File,
        }),
        Node::Dir(children) => {
            entries.push(TreeEntry {
                path: path.to_string(),
                name: name.to_string(),
                depth,
                kind: EntryKind::Directory,
            });
            for (child, below) in children {
                if let Node::Dir(_) = below {
                    list(&format!("{}/{}", path, child), child, depth + 1, below, entries);
                }
            }
            for (child, below) in children {
                if let Node::File = below {
                    list(&format!("{}/{}", path, child), child, depth + 1, below, entries);
                }
            }
        }
    }
}

/// The listing of the base when it holds the files `paths`.
fn listing(paths: &[(&str, &str)]) -> DirectoryTree {
    let mut root = BTreeMap::new();
    for (file, _) in paths {
        let parts: Vec<&str> = file.split('/').collect();
        insert(&mut root, &parts);
    }
    let mut entries = Vec::new();
    list(BASE, "base", 0, &Node::Dir(root), &mut entries);
    DirectoryTree { entries }
}

/// What each `.gitignore` file among `paths` that lies at or above `path` says
/// of it, the nearest first.
fn gitignore_verdicts(paths: &[(&str, &str)], path: &str, is_dir: bool) -> Vec<Verdict> {
    let mut verdicts = Vec::new();
    let mut above = path;
    while let Some(at) = above.rfind('/') {
        above = &above[..at];
        let file = format!("{}/.gitignore", above);
        let found = paths.iter().find(|(name, _)| format!("{}/{}", BASE, name) == file);
        if let Some((_, content)) = found {
            let lines: Vec<String> = content.lines().map(|line| line.to_string()).collect();
            let matcher = build_matcher(above, &lines).ok().unwrap();
            verdicts.push(if matcher.matched(path, is_dir).is_ignore() {
                Verdict::Ignore
            } else if matcher.matched(path, is_dir).is_whitelist() {
                Verdict::Whitelist
            } else {
                Verdict::Unmatched
            });
        }
    }
    verdicts
}

/// What the walker admits of the listing: every entry that the scanner's
/// rules and the `.gitignore` files among `paths` let through, below
/// directories that they let through.
fn walk_with(scanner: &Scanner, tree: &DirectoryTree, paths: &[(&str, &str)]) -> Vec<WalkedEntry> {
    let config = match scanner.walker() {
        Some(config) => config,
        None => return vec![],
    };
    let mut walked = Vec::new();
    let mut skip_below: Option<usize> = None;
    for entry in &tree.entries {
        if let Some(depth) = skip_below {
            if entry.depth > depth {
                continue;
            }
            skip_below = None;
        }
        let is_dir = entry.kind == EntryKind::Directory;
        let gitignores = gitignore_verdicts(paths, &entry.path, is_dir);
        if entry.depth > 0 && !config.admits(&entry.path, is_dir, &gitignores) {
            if is_dir {
                skip_below = Some(entry.depth);
            }
            continue;
        }
        walked.push(WalkedEntry { path: entry.path.clone(), kind: entry.kind });
    }
    walked
}

/// What a walker that meets no `.gitignore` file admits of the listing.
fn walk(scanner: &Scanner, tree: &DirectoryTree) -> Vec<WalkedEntry> {
    walk_with(scanner, tree, &[])
}

fn directive(pattern: &str) -> PublicSourceEntry {
    PublicSourceEntry { base: BASE.to_string(), pattern: pattern.to_string(), negated: false }
}

fn negated(pattern: &str) -> PublicSourceEntry {
    PublicSourceEntry { base: BASE.to_string(), pattern: pattern.to_string(), negated: true }
}

/// An extractor that takes every run of bytes between blanks for a candidate.
fn words(line: &Vec<u8>) -> Vec<Extracted> {
    let mut spans = Vec::new();
    let mut start: Option<usize> = None;
    for (i, byte) in line.iter().enumerate() {
        if *byte == b' ' || *byte == b'\t' {
            if let Some(from) = start.take() {
                spans.push(Extracted { kind: ExtractedKind::Candidate, start: from, end: i });
            }
        } else if start.is_none() {
            start = Some(i);
        }
    }
    if let Some(from) = start {
        spans.push(Extracted { kind: ExtractedKind::Candidate, start: from, end: line.len() });
    }
    spans
}

fn unchanged(_kind: PreProcessor, content: &Vec<u8>) -> Vec<u8> {
    content.clone()
}

fn keep(globs: &Vec<GlobEntry>) -> Vec<GlobEntry> {
    globs.clone()
}

fn texts(tokens: Vec<Vec<u8>>) -> Vec<String> {
    tokens.into_iter().map(|token| String::from_utf8(token).unwrap()).collect()
}

fn scan_with_globs(paths: &[(&str, &str)], directives: Vec<PublicSourceEntry>) -> ScanResult {
    let mut sources = vec![directive("**/*")];
    sources.extend(directives);
    let mut scanner = Scanner::try_new(sources).unwrap();
    scanner.record_git_markers(&vec![true]);

    let contents: BTreeMap<String, Vec<u8>> = paths
        .iter()
        .map(|(path, content)| (format!("{}/{}", BASE, path), content.as_bytes().to_vec()))
        .collect();
    let read = |path: &String| contents.get(path).cloned();

    let tree = listing(paths);
    let walked = walk_with(&scanner, &tree, paths);
    let candidates = texts(scanner.scan(&walked, &read, &unchanged, &words));

    let prefix = format!("{}/", BASE);
    let mut files: Vec<String> = scanner
        .get_files(&vec![])
        .iter()
        .map(|file| file.replace(&prefix, ""))
        .collect();
    assert!(files.windows(2).all(|pair| pair[0] <= pair[1]));
    files.sort();

    let mut globs: Vec<String> = scanner
        .get_globs(&vec![], vec![listing(paths)], &keep)
        .iter()
        .map(|glob| format!("{}/{}", glob.base, glob.pattern).replace(&prefix, ""))
        .collect();
    globs.sort();

    ScanResult { files, globs, candidates }
}

fn scan(paths: &[(&str, &str)]) -> ScanResult {
    scan_with_globs(paths, vec![])
}

#[test]
fn it_should_work_with_a_set_of_root_files() {
    let ScanResult { files, globs, .. } =
        scan(&[("index.html", ""), ("a.html", ""), ("b.html", ""), ("c.html", "")]);
    assert_eq!(files, vec!["a.html", "b.html", "c.html", "index.html"]);
    assert_eq!(globs, vec!["*"]);
}

#[test]
fn it_should_list_all_files_in_the_public_folder_explicitly() {
    let ScanResult { files, globs, .. } = scan(&[
        ("index.html", ""),
        ("public/a.html", ""),
        ("public/b.html", ""),
        ("public/c.html", ""),
        ("public/nested/c.html", ""),
        ("public/deeply/nested/c.html", ""),
    ]);

    assert_eq!(
        files,
        vec![
            "index.html",
            "public/a.html",
            "public/b.html",
            "public/c.html",
            "public/deeply/nested/c.html",
            "public/nested/c.html",
        ]
    );
    assert_eq!(globs, vec!["*"]);
}

#[test]
fn it_should_list_nested_folders_explicitly_in_the_public_folder() {
    let ScanResult { files, globs, .. } = scan(&[
        ("index.html", ""),
        ("public/a.html", ""),
        ("public/b.html", ""),
        ("public/c.html", ""),
        ("public/nested/a.html", ""),
        ("public/nested/b.html", ""),
        ("public/nested/c.html", ""),
        ("public/nested/again/a.html", ""),
        ("public/very/deeply/nested/a.html", ""),
    ]);

    assert_eq!(
        files,
        vec![
            "index.html",
            "public/a.html",
            "public/b.html",
            "public/c.html",
            "public/nested/a.html",
            "public/nested/again/a.html",
            "public/nested/b.html",
            "public/nested/c.html",
            "public/very/deeply/nested/a.html",
        ]
    );
    assert_eq!(globs, vec!["*",]);
}

#[test]
fn it_should_use_a_glob_for_top_level_folders() {
    let ScanResult { files, globs, .. } = scan(&[
        ("index.html", ""),
        ("src/a.html", ""),
        ("src/b.html", ""),
        ("src/c.html", ""),
    ]);

    assert_eq!(files, vec!["index.html", "src/a.html", "src/b.html", "src/c.html"]);
    assert_eq!(globs, vec!["*".to_string(), format!("src/**/*.{{{}}}", EXTENSIONS)]);
}

#[test]
fn it_should_ignore_binary_files() {
    let ScanResult { files, globs, .. } =
        scan(&[("index.html", ""), ("a.mp4", ""), ("b.png", ""), ("c.lock", "")]);

    assert_eq!(files, vec!["index.html"]);
    assert_eq!(globs, vec!["*"]);
}

#[test]
fn it_should_ignore_known_extensions() {
    let ScanResult { files, globs, .. } =
        scan(&[("index.html", ""), ("a.css", ""), ("b.sass", ""), ("c.less", "")]);

    assert_eq!(files, vec!["index.html"]);
    assert_eq!(globs, vec!["*"]);
}

#[test]
fn it_should_ignore_known_files() {
    let ScanResult { files, globs, .. } =
        scan(&[("index.html", ""), ("package-lock.json", ""), ("yarn.lock", "")]);

    assert_eq!(files, vec!["index.html"]);
    assert_eq!(globs, vec!["*"]);
}

#[test]
fn it_should_scan_content_paths() {
    let ScanResult { candidates, .. } =
        scan_with_globs(&[("foo.styl", "content-['foo.styl']")], vec![directive("*.styl")]);

    assert_eq!(candidates, vec!["content-['foo.styl']"]);
}

#[test]
fn it_should_scan_next_dynamic_folders() {
    let ScanResult { candidates, .. } = scan_with_globs(
        &[
            ("app/[slug]/page.styl", "content-['[slug]']"),
            ("app/[...slug]/page.styl", "content-['[...slug]']"),
            ("app/[[...slug]]/page.styl", "content-['[[...slug]]']"),
            ("app/(theme)/page.styl", "content-['(theme)']"),
        ],
        vec![directive("./**/*.{styl}")],
    );

    assert_eq!(
        candidates,
        vec![
            "content-['(theme)']",
            "content-['[...slug]']",
            "content-['[[...slug]]']",
            "content-['[slug]']",
        ],
    );
}

#[test]
fn it_should_ignore_negated_custom_sources() {
    let ScanResult { candidates, files, globs } = scan_with_globs(
        &[
            ("src/index.ts", "content-['src/index.ts']"),
            ("src/colors/red.jsx", "content-['src/colors/red.jsx']"),
            ("src/colors/blue.tsx", "content-['src/colors/blue.tsx']"),
            ("src/colors/green.tsx", "content-['src/colors/green.tsx']"),
            ("src/utils/string.ts", "content-['src/utils/string.ts']"),
            ("src/utils/date.ts", "content-['src/utils/date.ts']"),
            ("src/utils/file.ts", "content-['src/utils/file.ts']"),
            ("src/admin/foo/template.html", "content-['src/admin/template.html']"),
            ("src/templates/index.html", "content-['src/templates/index.html']"),
        ],
        vec![
            negated("src/index.ts"),
            negated("**/*.{jsx,tsx}"),
            negated("src/utils"),
            negated("dist"),
        ],
    );

    assert_eq!(
        candidates,
        vec!["content-['src/admin/template.html']", "content-['src/templates/index.html']",]
    );

    assert_eq!(files, vec!["src/admin/foo/template.html", "src/templates/index.html"]);
    assert_eq!(
        globs,
        vec![
            "*".to_string(),
            format!("src/*/*.{{{}}}", EXTENSIONS),
            format!("src/admin/**/*.{{{}}}", EXTENSIONS),
            format!("src/colors/**/*.{{{}}}", EXTENSIONS),
            format!("src/templates/**/*.{{{}}}", EXTENSIONS),
        ]
    );
}

#[test]
fn test_explicitly_ignore_explicitly_allowed_files() {
    let paths = [
        ("src/keep-me.html", "content-['keep-me.html']"),
        ("src/ignore-me.html", "content-['ignore-me.html']"),
    ];
    let mut scanner =
        Scanner::try_new(vec![directive("**/*.html"), negated("src/ignore-me.html")]).unwrap();
    let contents: BTreeMap<String, Vec<u8>> = paths
        .iter()
        .map(|(path, content)| (format!("{}/{}", BASE, path), content.as_bytes().to_vec()))
        .collect();
    let read = |path: &String| contents.get(path).cloned();
    let walked = walk(&scanner, &listing(&paths));

    let candidates = texts(scanner.scan(&walked, &read, &unchanged, &words));

    assert_eq!(candidates, vec!["content-['keep-me.html']"]);
}

#[test]
fn test_allow_default_ignored_files() {
    let paths = [("foo.styl", "content-['foo.styl']")];
    let contents: BTreeMap<String, Vec<u8>> = paths
        .iter()
        .map(|(path, content)| (format!("{}/{}", BASE, path), content.as_bytes().to_vec()))
        .collect();
    let read = |path: &String| contents.get(path).cloned();

    let mut scanner = Scanner::try_new(vec![directive("**/*")]).unwrap();
    let walked = walk(&scanner, &listing(&paths));
    let candidates = scanner.scan(&walked, &read, &unchanged, &words);
    assert!(candidates.is_empty());

    // Explicitly allow `.styl` files
    let mut scanner = Scanner::try_new(vec![directive("**/*"), directive("*.styl")]).unwrap();
    let walked = walk(&scanner, &listing(&paths));
    let candidates = texts(scanner.scan(&walked, &read, &unchanged, &words));
    assert_eq!(candidates, vec!["content-['foo.styl']"]);
}

/// An extractor for markup: candidates are the runs of bytes between blanks,
/// quotes, `=` and `>`; a run that opens a tag is none.
fn markup(content: &Vec<u8>) -> Vec<Extracted> {
    let mut spans = Vec::new();
    let mut start: Option<usize> = None;
    let is_break = |byte: u8| byte == b' ' || byte == b'"' || byte == b'=' || byte == b'>';
    for i in 0..=content.len() {
        if i == content.len() || is_break(content[i]) {
            if let Some(from) = start.take() {
                if content[from] != b'<' {
                    spans.push(Extracted { kind: ExtractedKind::Candidate, start: from, end: i });
                }
            }
        } else if start.is_none() {
            start = Some(i);
        }
    }
    spans
}

#[test]
fn test_positions() {
    let mut scanner = Scanner::new(vec![]);
    let read = |_path: &String| -> Option<Vec<u8>> { None };

    for (input, expected) in [
        // Before migrations
        (
            r#"<div class="!tw__flex sm:!tw__block tw__bg-gradient-to-t flex tw:[color:red] group-[]:tw__flex"#,
            vec![
                ("class".to_string(), 5),
                ("!tw__flex".to_string(), 12),
                ("sm:!tw__block".to_string(), 22),
                ("tw__bg-gradient-to-t".to_string(), 36),
                ("flex".to_string(), 57),
                ("tw:[color:red]".to_string(), 62),
                ("group-[]:tw__flex".to_string(), 77),
            ],
        ),
        // After migrations
        (
            r#"<div class="tw:flex! tw:sm:block! tw:bg-linear-to-t flex tw:[color:red] tw:in-[.tw\:group]:flex"></div>"#,
            vec![
                ("class".to_string(), 5),
                ("tw:flex!".to_string(), 12),
                ("tw:sm:block!".to_string(), 21),
                ("tw:bg-linear-to-t".to_string(), 34),
                ("flex".to_string(), 52),
                ("tw:[color:red]".to_string(), 57),
                ("tw:in-[.tw\\:group]:flex".to_string(), 72),
            ],
        ),
    ] {
        let candidates: Vec<(String, usize)> = scanner
            .get_candidates_with_positions(
                ChangedContent::Content(input.to_string(), "html".into()),
                &read,
                &markup,
            )
            .into_iter()
            .map(|(token, offset)| (String::from_utf8(token).unwrap(), offset))
            .collect();
        assert_eq!(candidates, expected);
    }
}

#[test]
fn the_extractor_sees_the_placeholder_and_the_caller_the_content() {
    let mut scanner = Scanner::new(vec![]);
    let read = |_path: &String| -> Option<Vec<u8>> { None };
    let seen = std::cell::RefCell::new(Vec::new());
    let spy = |content: &Vec<u8>| {
        seen.borrow_mut().push(content.clone());
        vec![Extracted { kind: ExtractedKind::Candidate, start: 0, end: content.len() }]
    };
    let found = scanner.get_candidates_with_positions(
        ChangedContent::Content("group-[]:flex".to_string(), "html".to_string()),
        &read,
        &spy,
    );
    assert_eq!(seen.borrow().clone(), vec![b"groupXYZ:flex".to_vec()]);
    assert_eq!(found, vec![(b"group-[]:flex".to_vec(), 0)]);
}

#[test]
fn two_scans_in_a_row_return_the_same_sorted_list() {
    let paths = [("index.html", "flex underline"), ("src/a.html", "font-bold flex")];
    let contents: BTreeMap<String, Vec<u8>> = paths
        .iter()
        .map(|(path, content)| (format!("{}/{}", BASE, path), content.as_bytes().to_vec()))
        .collect();
    let read = |path: &String| contents.get(path).cloned();
    let mut scanner = Scanner::try_new(vec![directive("**/*")]).unwrap();
    let walked = walk(&scanner, &listing(&paths));

    let first = texts(scanner.scan(&walked, &read, &unchanged, &words));
    assert_eq!(first, vec!["flex", "font-bold", "underline"]);

    // nothing has changed: the walker admits only the base again
    let again = vec![WalkedEntry { path: BASE.to_string(), kind: EntryKind::Directory }];
    let second = texts(scanner.scan(&again, &read, &unchanged, &words));
    assert_eq!(second, first);
}

#[test]
fn the_candidates_only_grow() {
    let mut scanner = Scanner::try_new(vec![directive("**/*")]).unwrap();
    let read = |path: &String| -> Option<Vec<u8>> {
        match path.as_str() {
            "/base/a.html" => Some(b"px-4 flex".to_vec()),
            "/base/b.html" => Some(b"aaa flex zzz".to_vec()),
            _ => None,
        }
    };
    let first = texts(scanner.scan(
        &vec![WalkedEntry { path: "/base/a.html".to_string(), kind: EntryKind::File }],
        &read,
        &unchanged,
        &words,
    ));
    assert_eq!(first, vec!["flex", "px-4"]);
    let second = texts(scanner.scan(
        &vec![WalkedEntry { path: "/base/b.html".to_string(), kind: EntryKind::File }],
        &read,
        &unchanged,
        &words,
    ));
    assert_eq!(second, vec!["aaa", "flex", "px-4", "zzz"]);
    for candidate in &first {
        assert!(second.contains(candidate));
    }
}

#[test]
fn scan_content_returns_only_what_is_new() {
    let mut scanner = Scanner::new(vec![]);
    let read = |_path: &String| -> Option<Vec<u8>> { None };
    let first = texts(scanner.scan_content(
        vec![ChangedContent::Content("b a\n\nc a".to_string(), "html".to_string())],
        &read,
        &unchanged,
        &words,
    ));
    assert_eq!(first, vec!["a", "b", "c"]);
    let second = texts(scanner.scan_content(
        vec![
            ChangedContent::Content("d a".to_string(), "html".to_string()),
            ChangedContent::File("/nowhere".to_string(), "html".to_string()),
        ],
        &read,
        &unchanged,
        &words,
    ));
    assert_eq!(second, vec!["d"]);
    assert_eq!(texts(scanner.all_candidates()), vec!["a", "b", "c", "d"]);
}

#[test]
fn a_scanner_without_sources_finds_nothing() {
    let mut scanner = Scanner::new(vec![]);
    assert!(scanner.walker().is_none());
    let read = |_path: &String| -> Option<Vec<u8>> { Some(b"flex".to_vec()) };
    let walked = vec![
        WalkedEntry { path: "/base".to_string(), kind: EntryKind::Directory },
        WalkedEntry { path: "/base/a.html".to_string(), kind: EntryKind::File },
    ];
    assert!(scanner.scan(&walked, &read, &unchanged, &words).is_empty());
    assert!(scanner.get_files(&walked).is_empty());
    assert!(scanner.get_globs(&walked, vec![], &keep).is_empty());

    // only exclusions: still nothing to walk
    let scanner = Scanner::try_new(vec![negated("**/*"), negated("*.html")]).unwrap();
    assert!(scanner.walker().is_none());
}

#[test]
fn files_are_queued_with_their_extension_and_pre_processed() {
    let mut scanner = Scanner::try_new(vec![directive("**/*")]).unwrap();
    scanner.scan_sources(&vec![
        WalkedEntry { path: "/base".to_string(), kind: EntryKind::Directory },
        WalkedEntry { path: "/base/a.vue".to_string(), kind: EntryKind::File },
        WalkedEntry { path: "/base/Makefile".to_string(), kind: EntryKind::File },
        WalkedEntry { path: "/base/socket".to_string(), kind: EntryKind::Other },
    ]);
    let pending = scanner.take_changed_content();
    let queued: Vec<(String, String)> = pending
        .iter()
        .map(|changed| match changed {
            ChangedContent::File(path, extension) => (path.clone(), extension.clone()),
            ChangedContent::Content(text, extension) => (text.clone(), extension.clone()),
        })
        .collect();
    assert_eq!(
        queued,
        vec![
            ("/base/a.vue".to_string(), "vue".to_string()),
            ("/base/Makefile".to_string(), "".to_string()),
        ]
    );
    assert!(scanner.take_changed_content().is_empty());

    let read = |path: &String| -> Option<Vec<u8>> { Some(path.as_bytes().to_vec()) };
    let shout = |kind: PreProcessor, content: &Vec<u8>| -> Vec<u8> {
        assert_eq!(kind, PreProcessor::Vue);
        content.to_ascii_uppercase()
    };
    let found = texts(scanner.scan_content(pending, &read, &shout, &words));
    assert_eq!(found, vec!["/BASE/A.VUE", "/base/Makefile"]);
}

#[test]
fn the_globs_pass_through_the_optimizer_and_are_kept() {
    let mut scanner = Scanner::try_new(vec![directive("**/*")]).unwrap();
    let walked = vec![
        WalkedEntry { path: "/base".to_string(), kind: EntryKind::Directory },
        WalkedEntry { path: "/base/src".to_string(), kind: EntryKind::Directory },
    ];
    let reversed = |globs: &Vec<GlobEntry>| -> Vec<GlobEntry> {
        globs.iter().rev().cloned().collect()
    };
    let first = scanner.get_globs(&walked, vec![listing(&[("src/a.html", "")])], &reversed);
    assert_eq!(
        first,
        vec![
            GlobEntry { base: "/base/src".to_string(), pattern: format!("**/*.{{{}}}", EXTENSIONS) },
            GlobEntry { base: "/base".to_string(), pattern: "*".to_string() },
        ]
    );
    // a base without a listing adds its first pattern only
    let second = scanner.get_globs(&vec![], vec![], &keep);
    assert_eq!(second.len(), 3);
    assert_eq!(second[0], first[0]);
    assert_eq!(second[1], first[1]);
    assert_eq!(second[2], GlobEntry { base: "/base".to_string(), pattern: "*".to_string() });
}

#[test]
fn a_pattern_that_does_not_parse_is_refused() {
    let refused = Scanner::try_new(vec![directive("**/*"), negated("{a,b")]);
    match refused {
        Ok(_) => panic!("the pattern was taken"),
        Err(error) => assert_eq!(error.line, "{a,b"),
    }
    // without a base to walk nothing is compiled, as nothing would be used
    assert!(Scanner::try_new(vec![negated("{a,b")]).is_ok());
}

#[test]
fn the_public_folder_is_listed_file_by_file() {
    let ScanResult { files, globs, .. } = scan(&[
        ("index.html", ""),
        ("public/a.html", ""),
        ("public/nested/b.html", ""),
    ]);
    assert_eq!(files, vec!["index.html", "public/a.html", "public/nested/b.html"]);
    assert_eq!(globs, vec!["*"]);
}

#[test]
fn an_ignored_sibling_leaves_a_shallow_and_a_deep_glob() {
    let mut scanner = Scanner::try_new(vec![directive("**/*"), negated("ignored")]).unwrap();
    let paths = [
        ("nested-c/foo.html", ""),
        ("nested-c/sibling/foo.html", ""),
        ("nested-c/ignored/foo.html", ""),
    ];
    let walked = walk(&scanner, &listing(&paths));
    let globs: Vec<String> = scanner
        .get_globs(&walked, vec![listing(&paths)], &keep)
        .iter()
        .map(|glob| format!("{}/{}", glob.base, glob.pattern))
        .collect();
    assert!(globs.contains(&format!("/base/nested-c/*/*.{{{}}}", EXTENSIONS)));
    assert!(globs.contains(&format!("/base/nested-c/sibling/**/*.{{{}}}", EXTENSIONS)));
    assert!(!globs.contains(&format!("/base/nested-c/**/*.{{{}}}", EXTENSIONS)));
    assert_eq!(globs.len(), 3);
    assert_eq!(globs[0], "/base/*");
}

#[test]
fn a_repository_above_the_base_makes_git_required() {
    let web = PublicSourceEntry {
        base: "/tmp/home/project/apps/web".to_string(),
        pattern: "**/*".to_string(),
        negated: false,
    };
    let mut scanner = Scanner::try_new(vec![web]).unwrap();
    let markers = scanner.walker().as_ref().unwrap().git_marker_paths();
    assert_eq!(
        markers,
        vec![
            "/tmp/home/project/apps/web/.git",
            "/tmp/home/project/apps/.git",
            "/tmp/home/project/.git",
            "/tmp/home/.git",
            "/tmp/.git",
            "/.git",
        ]
    );
    // no repository: `.gitignore` files count wherever they are
    assert!(!scanner.walker().as_ref().unwrap().require_git());
    scanner.record_git_markers(&vec![false, false, false, false, false, false]);
    assert!(!scanner.walker().as_ref().unwrap().require_git());
    // `git init` in `home`
    scanner.record_git_markers(&vec![false, false, false, true, false, false]);
    assert!(scanner.walker().as_ref().unwrap().require_git());
    // `git init` in `home/project`: what lies above the repository is outside of it
    scanner.record_git_markers(&vec![false, false, true, false, false, false]);
    assert!(scanner.walker().as_ref().unwrap().require_git());
    // a disarmed scanner has nothing to record
    let mut disarmed = Scanner::new(vec![]);
    disarmed.record_git_markers(&vec![true]);
    assert!(disarmed.walker().is_none());
}

#[test]
fn it_should_ignore_and_expand_nested_ignored_folders() {
    let paths = [
        // Explicitly listed root files
        ("foo.html", ""),
        ("bar.html", ""),
        ("baz.html", ""),
        // Nested folder A, using glob
        ("nested-a/foo.html", ""),
        ("nested-a/bar.html", ""),
        ("nested-a/baz.html", ""),
        // Nested folder B, with deeply nested files, using glob
        ("nested-b/deeply-nested/foo.html", ""),
        ("nested-b/deeply-nested/bar.html", ""),
        ("nested-b/deeply-nested/baz.html", ""),
        // Nested folder C, with ignored sub-folder
        ("nested-c/foo.html", ""),
        ("nested-c/bar.html", ""),
        ("nested-c/baz.html", ""),
        //   Ignored folder
        ("nested-c/.gitignore", "ignored-folder/"),
        ("nested-c/ignored-folder/foo.html", ""),
        ("nested-c/ignored-folder/bar.html", ""),
        ("nested-c/ignored-folder/baz.html", ""),
        //   Deeply nested, without issues
        ("nested-c/sibling-folder/foo.html", ""),
        ("nested-c/sibling-folder/bar.html", ""),
        ("nested-c/sibling-folder/baz.html", ""),
        // Nested folder D, with deeply nested ignored folder
        ("nested-d/foo.html", ""),
        ("nested-d/bar.html", ""),
        ("nested-d/baz.html", ""),
        ("nested-d/.gitignore", "deep/"),
        ("nested-d/very/deeply/nested/deep/foo.html", ""),
        ("nested-d/very/deeply/nested/deep/bar.html", ""),
        ("nested-d/very/deeply/nested/deep/baz.html", ""),
        ("nested-d/very/deeply/nested/foo.html", ""),
        ("nested-d/very/deeply/nested/bar.html", ""),
        ("nested-d/very/deeply/nested/baz.html", ""),
        ("nested-d/very/deeply/nested/directory/foo.html", ""),
        ("nested-d/very/deeply/nested/directory/bar.html", ""),
        ("nested-d/very/deeply/nested/directory/baz.html", ""),
        ("nested-d/very/deeply/nested/directory/again/foo.html", ""),
    ];
    let ScanResult { files, globs, .. } = scan(&paths);

    assert_eq!(
        files,
        vec![
            "bar.html",
            "baz.html",
            "foo.html",
            "nested-a/bar.html",
            "nested-a/baz.html",
            "nested-a/foo.html",
            "nested-b/deeply-nested/bar.html",
            "nested-b/deeply-nested/baz.html",
            "nested-b/deeply-nested/foo.html",
            "nested-c/bar.html",
            "nested-c/baz.html",
            "nested-c/foo.html",
            "nested-c/sibling-folder/bar.html",
            "nested-c/sibling-folder/baz.html",
            "nested-c/sibling-folder/foo.html",
            "nested-d/bar.html",
            "nested-d/baz.html",
            "nested-d/foo.html",
            "nested-d/very/deeply/nested/bar.html",
            "nested-d/very/deeply/nested/baz.html",
            "nested-d/very/deeply/nested/directory/again/foo.html",
            "nested-d/very/deeply/nested/directory/bar.html",
            "nested-d/very/deeply/nested/directory/baz.html",
            "nested-d/very/deeply/nested/directory/foo.html",
            "nested-d/very/deeply/nested/foo.html",
        ]
    );
    assert_eq!(globs, vec![
        "*".to_string(),
        format!("nested-a/**/*.{{{}}}", EXTENSIONS),
        format!("nested-b/**/*.{{{}}}", EXTENSIONS),
        format!("nested-c/*/*.{{{}}}", EXTENSIONS),
        format!("nested-c/sibling-folder/**/*.{{{}}}", EXTENSIONS),
        format!("nested-d/*/*.{{{}}}", EXTENSIONS),
        format!("nested-d/very/*/*.{{{}}}", EXTENSIONS),
        format!("nested-d/very/deeply/*/*.{{{}}}", EXTENSIONS),
        format!("nested-d/very/deeply/nested/*/*.{{{}}}", EXTENSIONS),
        format!("nested-d/very/deeply/nested/directory/**/*.{{{}}}", EXTENSIONS),
    ]);
}

#[test]
fn positions_are_positions_in_the_content_that_was_given() {
    let mut scanner = Scanner::new(vec![]);
    let read = |path: &String| -> Option<Vec<u8>> {
        if path == "/base/a.vue" {
            Some(b"<a class='px-4 group-[]:flex'>".to_vec())
        } else {
            None
        }
    };
    for extension in ["vue", "svelte", "html", "VUE", ""] {
        let content = "flex  group-[]:p-1 \u{e9}t\u{e9}";
        let found = scanner.get_candidates_with_positions(
            ChangedContent::Content(content.to_string(), extension.to_string()),
            &read,
            &words,
        );
        assert_eq!(
            found,
            vec![
                (b"flex".to_vec(), 0),
                (b"group-[]:p-1".to_vec(), 6),
                ("\u{e9}t\u{e9}".as_bytes().to_vec(), 19),
            ]
        );
        for (token, offset) in &found {
            assert_eq!(&content.as_bytes()[*offset..*offset + token.len()], &token[..]);
        }
    }
    let found = scanner.get_candidates_with_positions(
        ChangedContent::File("/base/a.vue".to_string(), "vue".to_string()),
        &read,
        &words,
    );
    assert_eq!(
        found,
        vec![(b"<a".to_vec(), 0), (b"class='px-4".to_vec(), 3), (b"group-[]:flex'>".to_vec(), 15)]
    );
    let missing = scanner.get_candidates_with_positions(
        ChangedContent::File("/base/none".to_string(), "vue".to_string()),
        &read,
        &words,
    );
    assert!(missing.is_empty());
}

#[test]
fn test_works_with_filenames_containing_glob_characters() {
    let paths = [
        ("src/app/[foo]/ignore-me.html", "content-['ignore-me.html']"),
        ("src/app/[foo]/keep-me.html", "content-['keep-me.html']"),
    ];
    let contents: BTreeMap<String, Vec<u8>> = paths
        .iter()
        .map(|(path, content)| (format!("{}/{}", BASE, path), content.as_bytes().to_vec()))
        .collect();
    let read = |path: &String| contents.get(path).cloned();

    let mut scanner =
        Scanner::try_new(vec![directive("**/*"), negated("src/app/[foo]/ignore*.html")]).unwrap();
    let walked = walk(&scanner, &listing(&paths));

    let candidates = texts(scanner.scan(&walked, &read, &unchanged, &words));

    assert_eq!(candidates, vec!["content-['keep-me.html']"]);
}

#[test]
fn it_should_work_with_a_set_of_root_files_and_ignore_ignored_files() {
    let ScanResult { files, globs, .. } = scan(&[
        (".gitignore", "b.html"),
        ("index.html", ""),
        ("a.html", ""),
        ("b.html", ""),
        ("c.html", ""),
    ]);
    assert_eq!(files, vec!["a.html", "c.html", "index.html"]);
    assert_eq!(globs, vec!["*"]);
}

#[test]
fn it_should_list_all_files_in_the_public_folder_explicitly_except_ignored_files() {
    let ScanResult { files, globs, .. } = scan(&[
        (".gitignore", "public/b.html\na.html"),
        ("index.html", ""),
        ("public/a.html", ""),
        ("public/b.html", ""),
        ("public/c.html", ""),
    ]);

    assert_eq!(files, vec!["index.html", "public/c.html",]);
    assert_eq!(globs, vec!["*"]);
}

#[test]
fn a_gitignore_file_includes_again_what_the_rules_exclude() {
    let ScanResult { files, .. } = scan_with_globs(
        &[
            (".gitignore", "!keep.css\n!dropped.html"),
            ("sub/.gitignore", "*.html\n!index.html"),
            ("keep.css", ""),
            ("other.css", ""),
            ("dropped.html", ""),
            ("sub/a.html", ""),
            ("sub/index.html", ""),
        ],
        vec![negated("dropped.html"), negated("index.html")],
    );
    assert_eq!(files, vec!["dropped.html", "keep.css", "sub/index.html"]);
}
