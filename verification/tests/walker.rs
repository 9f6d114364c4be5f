use tailwindcss_oxide::gitignore::{build_matcher, Verdict};
use tailwindcss_oxide::sources::{
    public_source_entries_to_private_source_entries, PublicSourceEntry, SourceEntry,
};
use tailwindcss_oxide::text::{find_insertion_point, sort_texts};
use tailwindcss_oxide::walker::{
    admits, check_sources, collect_roots, collect_rules, create_walker, insert_sorted, is_below,
    try_create_walker,
};

fn directive(base: &str, pattern: &str, negated: bool) -> PublicSourceEntry {
    PublicSourceEntry { base: base.to_string(), pattern: pattern.to_string(), negated }
}

fn entries(directives: Vec<PublicSourceEntry>) -> Vec<SourceEntry> {
    public_source_entries_to_private_source_entries(&directives)
}

fn lines(texts: &[&str]) -> Vec<String> {
    texts.iter().map(|text| text.to_string()).collect()
}

#[test]
fn every_directive_becomes_one_entry() {
    let resolved = entries(vec![
        directive("/a", "**/*", false),
        directive("/a", "*.html", false),
        directive("/b", "**/*", true),
        directive("/b", "dist", true),
        directive("/c", "src/**/*", false),
        directive("/c", "./src/app/[foo]/ignore*.html", true),
        directive("/c/", "lib/**/*.{js,ts}", false),
        directive("/c", "./*.html", false),
        directive("/c", "src/!x", true),
    ]);
    assert_eq!(resolved.len(), 9);
    assert!(matches!(&resolved[0], SourceEntry::Auto { base } if base == "/a"));
    assert!(matches!(
        &resolved[1],
        SourceEntry::Pattern { base, pattern } if base == "/a" && pattern == "*.html"
    ));
    assert!(matches!(&resolved[2], SourceEntry::IgnoredAuto { base } if base == "/b"));
    assert!(matches!(
        &resolved[3],
        SourceEntry::IgnoredPattern { base, pattern } if base == "/b" && pattern == "dist"
    ));
    // the directories before the first `*` are part of the base
    assert!(matches!(&resolved[4], SourceEntry::Auto { base } if base == "/c/src"));
    assert!(matches!(
        &resolved[5],
        SourceEntry::IgnoredPattern { base, pattern }
            if base == "/c/src/app/[foo]" && pattern == "ignore*.html"
    ));
    assert!(matches!(
        &resolved[6],
        SourceEntry::Pattern { base, pattern } if base == "/c/lib" && pattern == "**/*.{js,ts}"
    ));
    assert!(matches!(
        &resolved[7],
        SourceEntry::Pattern { base, pattern } if base == "/c" && pattern == "*.html"
    ));
    assert!(matches!(
        &resolved[8],
        SourceEntry::IgnoredPattern { base, pattern } if base == "/c" && pattern == "src/!x"
    ));
}

#[test]
fn the_bases_to_walk_are_those_of_the_including_entries() {
    let resolved = entries(vec![
        directive("/x", "**/*", true),
        directive("/b", "**/*", false),
        directive("/a", "*.html", false),
        directive("/b", "*.styl", false),
        directive("/a", "**/*", false),
        directive("/y", "dist", true),
    ]);
    assert_eq!(collect_roots(&resolved), vec!["/b", "/a"]);
    assert_eq!(collect_roots(&entries(vec![directive("/x", "**/*", true)])), Vec::<String>::new());
}

#[test]
fn the_rules_are_kept_in_order_base_by_base() {
    let resolved = entries(vec![
        directive("/b", "src/ignore-me.html", true),
        directive("/b", "**/*.html", false),
        directive("/a", "**/*", true),
        directive("/b", "**/*", false),
        directive("/b", "**/*.html", false),
        directive("/a/b", "z", true),
        directive("/a", "a", true),
        directive("/a-b", "q", false),
    ]);
    let rules = collect_rules(&resolved);
    let listed: Vec<(&str, Vec<&str>)> = rules
        .iter()
        .map(|set| (set.base.as_str(), set.lines.iter().map(|line| line.as_str()).collect()))
        .collect();
    assert_eq!(
        listed,
        vec![
            ("/a", vec!["**/*", "a"]),
            ("/a-b", vec!["!q"]),
            ("/a/b", vec!["z"]),
            // a line that includes sorts before one that excludes, so that the exclusion wins
            ("/b", vec!["!**/*.html", "src/ignore-me.html"]),
        ]
    );
}

#[test]
fn a_text_is_put_in_its_place_once() {
    let mut list = lines(&["b", "d"]);
    assert_eq!(find_insertion_point(&list, "a"), 0);
    assert_eq!(find_insertion_point(&list, "b"), 0);
    assert_eq!(find_insertion_point(&list, "c"), 1);
    assert_eq!(find_insertion_point(&list, "e"), 2);
    insert_sorted(&mut list, "c".to_string());
    insert_sorted(&mut list, "a".to_string());
    insert_sorted(&mut list, "e".to_string());
    insert_sorted(&mut list, "c".to_string());
    insert_sorted(&mut list, "!".to_string());
    assert_eq!(list, lines(&["!", "a", "b", "c", "d", "e"]));
}

#[test]
fn the_configuration_holds_the_compiled_rules() {
    let resolved = entries(vec![
        directive("/base", "**/*", false),
        directive("/base", "*.styl", false),
        directive("/base", "src/utils", true),
        directive("/base/vendor", "**/*", true),
    ]);
    let mut config = create_walker(&resolved).unwrap();
    assert_eq!(config.roots(), &lines(&["/base"]));
    assert_eq!(config.layers().len(), 2);
    assert_eq!(config.layers()[0].base(), "/base");
    assert_eq!(config.layers()[0].lines(), &lines(&["!*.styl", "src/utils"]));
    assert_eq!(config.layers()[0].matcher().len(), 2);
    assert_eq!(config.layers()[1].base(), "/base/vendor");
    assert_eq!(config.layers()[1].lines(), &lines(&["**/*"]));
    assert!(config.default_rules().len() > 0);

    assert_eq!(config.verdict("/base/foo.styl", false), Verdict::Whitelist);
    assert_eq!(config.verdict("/base/foo.css", false), Verdict::Ignore);
    assert_eq!(config.verdict("/base/foo.html", false), Verdict::Unmatched);
    assert_eq!(config.verdict("/base/src/utils", true), Verdict::Ignore);
    assert_eq!(config.verdict("/base/vendor/lib/a.html", false), Verdict::Ignore);
    assert_eq!(config.verdict("/base/node_modules", true), Verdict::Ignore);
    assert!(config.excludes("/base/vendor/lib/x", false));
    assert!(config.excludes("/base/vendor/x", true));
    // the rules of a base say nothing of the base itself, nor of what lies beside it
    assert!(!config.excludes("/base/vendor", true));
    assert!(!config.excludes("/base/vendors/x", false));
    assert!(!config.excludes("/elsewhere/src/utils", true));
    assert!(!config.excludes("/base/foo.styl", false));
    assert!(!config.excludes("/base/index.html", false));

    assert!(!config.require_git());
    assert_eq!(
        config.git_marker_paths(),
        vec!["/base/.git".to_string(), "/.git".to_string()]
    );
    config.record_git_markers(&vec![false, false]);
    assert!(!config.require_git());
    config.record_git_markers(&vec![false, true]);
    assert!(config.require_git());
    config.record_git_markers(&vec![]);
    assert!(!config.require_git());
}

#[test]
fn a_later_layer_decides_over_an_earlier_one() {
    let resolved = entries(vec![
        directive("/base", "**/*", false),
        directive("/base", "*.html", true),
        directive("/base/lib", "keep.html", false),
    ]);
    let config = create_walker(&resolved).unwrap();
    assert_eq!(config.verdict("/base/lib/drop.html", false), Verdict::Ignore);
    assert_eq!(config.verdict("/base/lib/keep.html", false), Verdict::Whitelist);
}

#[test]
fn a_rule_that_does_not_parse_is_reported() {
    let resolved = entries(vec![
        directive("/base", "**/*", false),
        directive("/base", "fine", true),
        directive("/other", "{broken", true),
    ]);
    match try_create_walker(&resolved) {
        Ok(_) => panic!("the rule was taken"),
        Err(refused) => assert_eq!(refused.line, "{broken"),
    }
    assert!(matches!(
        try_create_walker(&entries(vec![directive("/other", "{broken", true)])),
        Ok(None)
    ));
    assert!(create_walker(&entries(vec![directive("/other", "**/*", true)])).is_none());
}

#[test]
fn a_matcher_is_built_from_lines() {
    let matcher = build_matcher("/base", &lines(&["# a comment", "", "*.log", "!keep.log"])).ok().unwrap();
    assert_eq!(matcher.len(), 2);
    assert!(matcher.matched("/base/a.log", false).is_ignore());
    assert!(matcher.matched("/base/keep.log", false).is_whitelist());
    assert!(matcher.matched("/base/a.txt", false).is_none());
    match build_matcher("/base", &lines(&["*.log", "a{b", "c{d"])) {
        Ok(_) => panic!("the lines were taken"),
        Err(refused) => assert_eq!(refused.line, "a{b"),
    }
}

#[test]
fn what_lies_below_a_base() {
    assert!(is_below("/base", "/base/a"));
    assert!(is_below("/base", "/base/a/b.html"));
    assert!(is_below("/base/", "/base/a"));
    assert!(is_below("/", "/base"));
    assert!(is_below("", "relative"));
    assert!(is_below("/base", "/base/"));
    assert!(!is_below("/base", "/base"));
    assert!(!is_below("/base", "/based"));
    assert!(!is_below("/base", "/bas"));
    assert!(!is_below("/base", "/other/base/a"));
    assert!(!is_below("/base/a", "/base"));
    assert!(!is_below("", ""));
    assert!(is_below("/\u{e9}", "/\u{e9}/x"));
    assert!(!is_below("/e", "/\u{e9}/x"));
}

#[test]
fn texts_are_sorted_by_their_bytes_and_kept_as_often_as_they_occur() {
    assert_eq!(
        sort_texts(&lines(&["src/b.html", "index.html", "src/a.html", "index.html", "Z", "a", ""])),
        lines(&["", "Z", "a", "index.html", "index.html", "src/a.html", "src/b.html"])
    );
    assert_eq!(sort_texts(&lines(&[])), lines(&[]));
    assert_eq!(sort_texts(&lines(&["\u{e9}", "z", "e"])), lines(&["e", "z", "\u{e9}"]));
}

#[test]
fn the_gitignore_files_decide_before_the_rules() {
    let (ignored, unmatched, whitelisted) = (Verdict::Ignore, Verdict::Unmatched, Verdict::Whitelist);
    // no `.gitignore` file says anything: the rules decide
    assert!(admits(unmatched, &vec![]));
    assert!(admits(whitelisted, &vec![]));
    assert!(!admits(ignored, &vec![]));
    assert!(!admits(ignored, &vec![unmatched, unmatched]));
    assert!(admits(unmatched, &vec![unmatched]));
    // a `.gitignore` file includes again what the rules exclude, and excludes what they include
    assert!(admits(ignored, &vec![whitelisted]));
    assert!(!admits(whitelisted, &vec![ignored]));
    assert!(!admits(unmatched, &vec![unmatched, ignored]));
    // the nearest file that says anything decides
    assert!(admits(ignored, &vec![whitelisted, ignored]));
    assert!(!admits(whitelisted, &vec![unmatched, ignored, whitelisted]));

    let config = create_walker(&entries(vec![
        directive("/base", "**/*", false),
        directive("/base", "*.styl", false),
        directive("/base", "src/utils", true),
    ]))
    .unwrap();
    assert!(!config.admits("/base/a.css", false, &vec![]));
    assert!(config.admits("/base/a.css", false, &vec![unmatched, whitelisted]));
    assert!(config.admits("/base/a.styl", false, &vec![]));
    assert!(!config.admits("/base/a.styl", false, &vec![ignored]));
    assert!(!config.admits("/base/src/utils", true, &vec![unmatched]));
    assert!(config.admits("/base/index.html", false, &vec![]));
    assert!(!config.admits("/base/index.html", false, &vec![ignored]));
}

#[test]
fn the_rules_are_checked_before_a_walker_is_made_of_them() {
    let broken = entries(vec![directive("/base", "**/*", false), directive("/base", "{a", true)]);
    assert_eq!(check_sources(&broken).err().map(|refused| refused.line), Some("{a".to_string()));
    assert!(try_create_walker(&broken).is_err());
    let fine = entries(vec![directive("/base", "**/*", false), directive("/base", "a", true)]);
    assert!(check_sources(&fine).is_ok());
    assert!(matches!(try_create_walker(&fine), Ok(Some(_))));
    // nothing to walk: nothing is asked of the rules
    assert!(check_sources(&entries(vec![directive("/base", "{a", true)])).is_ok());
}

#[test]
fn comments_and_blank_lines_give_no_rule_and_lines_are_trimmed() {
    let matcher = build_matcher(
        "./base",
        &lines(&["# *.html", "", "   ", "*.log  ", "\t", "#", "keep\\ "]),
    )
    .ok()
    .unwrap();
    assert_eq!(matcher.len(), 2);
    assert_eq!(matcher.path().to_str(), Some("base"));
    assert!(matcher.matched("base/a.log", false).is_ignore());
    assert!(matcher.matched("base/a.html", false).is_none());
    assert!(matcher.matched("base/keep ", false).is_ignore());
    // a directive may give such a line
    let config = create_walker(&entries(vec![
        directive("/base", "**/*", false),
        directive("/base", "#not-a-rule", true),
        directive("/base", "  ", true),
        directive("/base", "*.html ", true),
    ]))
    .unwrap();
    assert_eq!(config.layers()[0].lines(), &lines(&["  ", "#not-a-rule", "*.html "]));
    assert_eq!(config.layers()[0].matcher().len(), 1);
    assert_eq!(config.verdict("/base/a.html", false), Verdict::Ignore);
    assert_eq!(config.verdict("/base/#not-a-rule", false), Verdict::Unmatched);
}
