use tailwindcss_oxide::debug::{bytes_contain, should_trace};
use tailwindcss_oxide::paths::{
    extension_of, git_marker, git_marker_paths, is_known_extension, known_extensions, parent_path,
};
use tailwindcss_oxide::rules::{default_rules, is_binary_like, matches_default_ignore};
use tailwindcss_oxide::text::{bytes_equal, bytes_less, str_equal, str_less};

#[test]
fn the_extension_follows_the_last_dot_of_the_last_component() {
    assert_eq!(extension_of("/base/index.html"), "html");
    assert_eq!(extension_of("index.angular.html"), "html");
    assert_eq!(extension_of("/base/my-file"), "");
    assert_eq!(extension_of("/base/my-folder.templates/foo"), "");
    assert_eq!(extension_of("/base/.gitignore"), "");
    assert_eq!(extension_of(".gitignore"), "");
    assert_eq!(extension_of("/base/.env.local"), "local");
    assert_eq!(extension_of("/base/trailing."), "");
    assert_eq!(extension_of(""), "");
    assert_eq!(extension_of("/"), "");
    assert_eq!(extension_of("/base/\u{e9}t\u{e9}.\u{3b1}\u{3b2}"), "\u{3b1}\u{3b2}");
}

#[test]
fn the_known_extensions_are_sorted_and_distinct() {
    let table = known_extensions();
    assert_eq!(table.len(), 38);
    let mut sorted = table.clone();
    sorted.sort();
    sorted.dedup();
    assert_eq!(sorted, table);
    assert_eq!(
        table.join(","),
        "aspx,astro,cjs,cts,eex,erb,gjs,gts,haml,handlebars,hbs,heex,html,jade,js,jsx,liquid,md,mdx,mjs,mts,mustache,njk,nunjucks,php,pug,py,razor,rb,rhtml,rs,slim,svelte,tpl,ts,tsx,twig,vue"
    );
    assert!(is_known_extension("html"));
    assert!(is_known_extension("vue"));
    assert!(is_known_extension("aspx"));
    assert!(!is_known_extension("HTML"));
    assert!(!is_known_extension("css"));
    assert!(!is_known_extension(""));
    assert!(!is_known_extension("htm"));
}

#[test]
fn binary_files_are_told_by_their_extension() {
    assert!(is_binary_like("/base/a.mp4"));
    assert!(is_binary_like("b.png"));
    assert!(is_binary_like("/base/archive.tar"));
    assert!(!is_binary_like("/base/index.html"));
    assert!(!is_binary_like("/base/png"));
    assert!(!is_binary_like("/base/dir.png/readme"));
    assert!(!is_binary_like("/base/c.lock"));
}

#[test]
fn the_built_in_rules_hide_lock_files_styles_media_and_build_output() {
    for path in [
        "/base/a.mp4",
        "/base/b.png",
        "/base/c.lock",
        "/base/a.css",
        "/base/b.sass",
        "/base/c.less",
        "/base/deep/down/d.styl",
        "/base/package-lock.json",
        "/base/yarn.lock",
        "/base/sub/pnpm-lock.yaml",
    ] {
        assert_eq!(matches_default_ignore(path, false), Some(true), "{}", path);
    }
    for path in ["/base/node_modules", "/base/.git", "/base/sub/dist", "/base/target"] {
        assert_eq!(matches_default_ignore(path, true), Some(true), "{}", path);
    }
    for path in ["/base/index.html", "/base/src/app.tsx", "/base/my-file", "/base/dist.html"] {
        assert_eq!(matches_default_ignore(path, false), Some(false), "{}", path);
    }
    // the rules for directories speak of directories only
    assert_eq!(matches_default_ignore("/base/node_modules", false), Some(false));
    assert_eq!(matches_default_ignore("/base/src", true), Some(false));
}

#[test]
fn the_built_in_rules_are_gitignore_lines() {
    let rules = default_rules();
    assert!(rules.contains(&".git/".to_string()));
    assert!(rules.contains(&"node_modules/".to_string()));
    assert!(rules.contains(&"*.css".to_string()));
    assert!(rules.contains(&"*.png".to_string()));
    assert!(rules.contains(&"package-lock.json".to_string()));
    assert_eq!(rules.len(), 17 + 7 + 42 + 7);
    assert_eq!(rules[0], ".git/");
    assert_eq!(rules[17], "*.css");
    assert_eq!(rules[24], "*.7z");
    assert_eq!(rules[rules.len() - 1], "yarn.lock");
}

#[test]
fn the_directory_above_a_path() {
    assert_eq!(parent_path("/home/project/apps/web"), Some("/home/project/apps".to_string()));
    assert_eq!(parent_path("/home"), Some("/".to_string()));
    assert_eq!(parent_path("/"), None);
    assert_eq!(parent_path(""), None);
    assert_eq!(parent_path("relative"), Some("".to_string()));
    assert_eq!(parent_path("relative/below"), Some("relative".to_string()));
    assert_eq!(parent_path("/\u{e9}t\u{e9}/\u{3b1}"), Some("/\u{e9}t\u{e9}".to_string()));
}

#[test]
fn a_repository_shows_at_or_above_the_first_base() {
    assert_eq!(
        git_marker_paths("/home/project/apps/web"),
        vec![
            "/home/project/apps/web/.git",
            "/home/project/apps/.git",
            "/home/project/.git",
            "/home/.git",
            "/.git",
        ]
    );
    assert_eq!(git_marker_paths("/"), vec!["/.git"]);
    assert_eq!(git_marker_paths("a/b"), vec!["a/b/.git", "a/.git", ".git"]);
    assert_eq!(git_marker_paths(""), vec![".git"]);
    assert_eq!(git_marker("/base"), "/base/.git");
    assert_eq!(git_marker("/"), "/.git");
}

#[test]
fn bytes_are_ordered_lexicographically() {
    assert!(bytes_less(b"a", b"b"));
    assert!(bytes_less(b"", b"a"));
    assert!(bytes_less(b"ab", b"abc"));
    assert!(bytes_less(b"abc", b"abd"));
    assert!(bytes_less(b"Z", b"a"));
    assert!(bytes_less(b"a\x7f", b"a\x80"));
    assert!(!bytes_less(b"a", b"a"));
    assert!(!bytes_less(b"", b""));
    assert!(!bytes_less(b"b", b"a"));
    assert!(!bytes_less(b"abc", b"ab"));
    assert!(bytes_equal(b"abc", b"abc"));
    assert!(bytes_equal(b"", b""));
    assert!(!bytes_equal(b"abc", b"abd"));
    assert!(!bytes_equal(b"abc", b"ab"));
    assert!(str_equal("\u{e9}", "\u{e9}"));
    assert!(!str_equal("e", "\u{e9}"));
    assert!(str_less("!**/*.html", "src/ignore-me.html"));
    assert!(str_less("z", "\u{e9}"));
    assert!(!str_less("same", "same"));
}

#[test]
fn tracing_is_wanted_by_the_debug_variable() {
    assert!(should_trace(Some("*")));
    assert!(should_trace(Some("tailwindcss:oxide")));
    assert!(should_trace(Some("foo,tailwindcss:oxide,bar")));
    assert!(should_trace(Some("tailwindcss:oxide:scanner")));
    assert!(!should_trace(Some("-tailwindcss:oxide")));
    assert!(!should_trace(Some("tailwindcss:oxide,-tailwindcss:oxide")));
    assert!(!should_trace(Some("**")));
    assert!(!should_trace(Some(" *")));
    assert!(!should_trace(Some("")));
    assert!(!should_trace(Some("tailwindcss")));
    assert!(!should_trace(Some("tailwindcss:oxid")));
    assert!(!should_trace(None));
    assert!(bytes_contain(b"abc", b""));
    assert!(bytes_contain(b"", b""));
    assert!(bytes_contain(b"abc", b"abc"));
    assert!(bytes_contain(b"xabc", b"abc"));
    assert!(bytes_contain(b"aab", b"ab"));
    assert!(!bytes_contain(b"ab", b"abc"));
    assert!(!bytes_contain(b"abab", b"bb"));
}
