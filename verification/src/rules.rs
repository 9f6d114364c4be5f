//! The built-in ignore rules: what the walker leaves out unless a source
//! directive asks for it.

use vstd::prelude::*;
use vstd::string::StringExecFns;
use ignore::gitignore::Gitignore;
use crate::gitignore::{
    build_matcher,
    built_from,
    lines_verdict,
    matcher_verdict,
    rules_valid,
    InvalidPattern,
    Verdict,
};
use crate::paths::{extension_of, extension_text, list_contains, text_views};

verus! {

/// The directories that are never searched: those of version control, of package managers and of build output.
pub open spec fn ignored_directory_list() -> Seq<Seq<char>> {
    seq![
        ".git"@,
        ".hg"@,
        ".svn"@,
        "node_modules"@,
        ".next"@,
        ".nuxt"@,
        ".parcel-cache"@,
        ".pnpm-store"@,
        ".svelte-kit"@,
        ".turbo"@,
        ".venv"@,
        ".vercel"@,
        ".yarn"@,
        "__pycache__"@,
        "venv"@,
        "dist"@,
        "target"@,
    ]
}

/// The directories that are never searched: those of version control, of package managers and of build output.
pub fn ignored_directories() -> (list: Vec<String>)
    ensures
        text_views(list@) == ignored_directory_list(),
{
    let mut list: Vec<String> = Vec::new();
    list.push(String::from_str(".git"));
    list.push(String::from_str(".hg"));
    list.push(String::from_str(".svn"));
    list.push(String::from_str("node_modules"));
    list.push(String::from_str(".next"));
    list.push(String::from_str(".nuxt"));
    list.push(String::from_str(".parcel-cache"));
    list.push(String::from_str(".pnpm-store"));
    list.push(String::from_str(".svelte-kit"));
    list.push(String::from_str(".turbo"));
    list.push(String::from_str(".venv"));
    list.push(String::from_str(".vercel"));
    list.push(String::from_str(".yarn"));
    list.push(String::from_str("__pycache__"));
    list.push(String::from_str("venv"));
    list.push(String::from_str("dist"));
    list.push(String::from_str("target"));
    assert(text_views(list@) =~= ignored_directory_list());
    list
}

/// The extensions of style sheets, lock files and logs.
pub open spec fn ignored_extension_list() -> Seq<Seq<char>> {
    seq![
        "css"@,
        "less"@,
        "lock"@,
        "log"@,
        "sass"@,
        "scss"@,
        "styl"@,
    ]
}

/// The extensions of style sheets, lock files and logs.
pub fn ignored_extensions() -> (list: Vec<String>)
    ensures
        text_views(list@) == ignored_extension_list(),
{
    let mut list: Vec<String> = Vec::new();
    list.push(String::from_str("css"));
    list.push(String::from_str("less"));
    list.push(String::from_str("lock"));
    list.push(String::from_str("log"));
    list.push(String::from_str("sass"));
    list.push(String::from_str("scss"));
    list.push(String::from_str("styl"));
    assert(text_views(list@) =~= ignored_extension_list());
    list
}

/// The extensions of images, video, sound, archives, fonts and compiled artifacts.
pub open spec fn binary_extension_list() -> Seq<Seq<char>> {
    seq![
        "7z"@,
        "a"@,
        "avi"@,
        "avif"@,
        "bin"@,
        "bmp"@,
        "bz2"@,
        "class"@,
        "dll"@,
        "dylib"@,
        "eot"@,
        "exe"@,
        "flac"@,
        "gif"@,
        "gz"@,
        "ico"@,
        "jar"@,
        "jpeg"@,
        "jpg"@,
        "lockb"@,
        "mov"@,
        "mp3"@,
        "mp4"@,
        "o"@,
        "ogg"@,
        "otf"@,
        "pdf"@,
        "png"@,
        "pyc"@,
        "rar"@,
        "so"@,
        "tar"@,
        "tgz"@,
        "tiff"@,
        "ttf"@,
        "wasm"@,
        "wav"@,
        "webm"@,
        "webp"@,
        "woff"@,
        "woff2"@,
        "zip"@,
    ]
}

/// The extensions of images, video, sound, archives, fonts and compiled artifacts.
pub fn binary_extensions() -> (list: Vec<String>)
    ensures
        text_views(list@) == binary_extension_list(),
{
    let mut list: Vec<String> = Vec::new();
    list.push(String::from_str("7z"));
    list.push(String::from_str("a"));
    list.push(String::from_str("avi"));
    list.push(String::from_str("avif"));
    list.push(String::from_str("bin"));
    list.push(String::from_str("bmp"));
    list.push(String::from_str("bz2"));
    list.push(String::from_str("class"));
    list.push(String::from_str("dll"));
    list.push(String::from_str("dylib"));
    list.push(String::from_str("eot"));
    list.push(String::from_str("exe"));
    list.push(String::from_str("flac"));
    list.push(String::from_str("gif"));
    list.push(String::from_str("gz"));
    list.push(String::from_str("ico"));
    list.push(String::from_str("jar"));
    list.push(String::from_str("jpeg"));
    list.push(String::from_str("jpg"));
    list.push(String::from_str("lockb"));
    list.push(String::from_str("mov"));
    list.push(String::from_str("mp3"));
    list.push(String::from_str("mp4"));
    list.push(String::from_str("o"));
    list.push(String::from_str("ogg"));
    list.push(String::from_str("otf"));
    list.push(String::from_str("pdf"));
    list.push(String::from_str("png"));
    list.push(String::from_str("pyc"));
    list.push(String::from_str("rar"));
    list.push(String::from_str("so"));
    list.push(String::from_str("tar"));
    list.push(String::from_str("tgz"));
    list.push(String::from_str("tiff"));
    list.push(String::from_str("ttf"));
    list.push(String::from_str("wasm"));
    list.push(String::from_str("wav"));
    list.push(String::from_str("webm"));
    list.push(String::from_str("webp"));
    list.push(String::from_str("woff"));
    list.push(String::from_str("woff2"));
    list.push(String::from_str("zip"));
    assert(text_views(list@) =~= binary_extension_list());
    list
}

/// The names of lock files and of configuration files.
pub open spec fn ignored_file_list() -> Seq<Seq<char>> {
    seq![
        ".gitignore"@,
        ".npmrc"@,
        "bun.lock"@,
        "package-lock.json"@,
        "pnpm-lock.yaml"@,
        "pnpm-workspace.yaml"@,
        "yarn.lock"@,
    ]
}

/// The names of lock files and of configuration files.
pub fn ignored_files() -> (list: Vec<String>)
    ensures
        text_views(list@) == ignored_file_list(),
{
    let mut list: Vec<String> = Vec::new();
    list.push(String::from_str(".gitignore"));
    list.push(String::from_str(".npmrc"));
    list.push(String::from_str("bun.lock"));
    list.push(String::from_str("package-lock.json"));
    list.push(String::from_str("pnpm-lock.yaml"));
    list.push(String::from_str("pnpm-workspace.yaml"));
    list.push(String::from_str("yarn.lock"));
    assert(text_views(list@) =~= ignored_file_list());
    list
}

/// The rule that excludes the directories named `name`.
pub open spec fn directory_rule(name: Seq<char>) -> Seq<char> {
    name + "/"@
}

/// The rule that excludes the files with extension `extension`.
pub open spec fn extension_rule(extension: Seq<char>) -> Seq<char> {
    "*."@ + extension
}

/// The built-in rules as gitignore lines: one for each ignored directory, one
/// for each ignored extension, one for each binary extension, and the ignored
/// file names as they stand.
pub open spec fn default_rule_list() -> Seq<Seq<char>> {
    ignored_directory_list().map_values(|name: Seq<char>| directory_rule(name))
        + ignored_extension_list().map_values(|extension: Seq<char>| extension_rule(extension))
        + binary_extension_list().map_values(|extension: Seq<char>| extension_rule(extension))
        + ignored_file_list()
}

fn push_directory_rules(names: &Vec<String>, rules: &mut Vec<String>)
    ensures
        text_views(final(rules)@) == text_views(old(rules)@) + text_views(names@).map_values(
            |name: Seq<char>| directory_rule(name),
        ),
{
    let ghost before = text_views(rules@);
    let n: usize = names.len();
    let mut i: usize = 0;
    proof {
        assert(text_views(rules@) =~= before + text_views(names@).take(0).map_values(
            |name: Seq<char>| directory_rule(name),
        ));
    }
    while i < n
        invariant
            n == names@.len(),
            0 <= i <= n,
            text_views(rules@) == before + text_views(names@).take(i as int).map_values(
                |name: Seq<char>| directory_rule(name),
            ),
        decreases n - i,
    {
        let ghost sofar = text_views(rules@);
        let mut rule = names[i].clone();
        rule.append("/");
        rules.push(rule);
        proof {
            assert(text_views(rules@) =~= sofar.push(directory_rule(names@[i as int]@)));
            assert(text_views(rules@) =~= before + text_views(names@).take(
                i as int + 1,
            ).map_values(|name: Seq<char>| directory_rule(name)));
        }
        i = i + 1;
    }
    proof {
        assert(text_views(names@).take(n as int) =~= text_views(names@));
    }
}

fn push_extension_rules(extensions: &Vec<String>, rules: &mut Vec<String>)
    ensures
        text_views(final(rules)@) == text_views(old(rules)@) + text_views(
            extensions@,
        ).map_values(|extension: Seq<char>| extension_rule(extension)),
{
    let ghost before = text_views(rules@);
    let n: usize = extensions.len();
    let mut i: usize = 0;
    proof {
        assert(text_views(rules@) =~= before + text_views(extensions@).take(0).map_values(
            |extension: Seq<char>| extension_rule(extension),
        ));
    }
    while i < n
        invariant
            n == extensions@.len(),
            0 <= i <= n,
            text_views(rules@) == before + text_views(extensions@).take(i as int).map_values(
                |extension: Seq<char>| extension_rule(extension),
            ),
        decreases n - i,
    {
        let ghost sofar = text_views(rules@);
        let mut rule = String::from_str("*.");
        rule.append(extensions[i].as_str());
        rules.push(rule);
        proof {
            assert(text_views(rules@) =~= sofar.push(extension_rule(extensions@[i as int]@)));
            assert(text_views(rules@) =~= before + text_views(extensions@).take(
                i as int + 1,
            ).map_values(|extension: Seq<char>| extension_rule(extension)));
        }
        i = i + 1;
    }
    proof {
        assert(text_views(extensions@).take(n as int) =~= text_views(extensions@));
    }
}

fn push_names(names: &Vec<String>, rules: &mut Vec<String>)
    ensures
        text_views(final(rules)@) == text_views(old(rules)@) + text_views(names@),
{
    let ghost before = text_views(rules@);
    let n: usize = names.len();
    let mut i: usize = 0;
    proof {
        assert(text_views(rules@) =~= before + text_views(names@).take(0));
    }
    while i < n
        invariant
            n == names@.len(),
            0 <= i <= n,
            text_views(rules@) == before + text_views(names@).take(i as int),
        decreases n - i,
    {
        let ghost sofar = text_views(rules@);
        rules.push(names[i].clone());
        proof {
            assert(text_views(rules@) =~= sofar.push(names@[i as int]@));
            assert(text_views(rules@) =~= before + text_views(names@).take(i as int + 1));
        }
        i = i + 1;
    }
    proof {
        assert(text_views(names@).take(n as int) =~= text_views(names@));
    }
}

/// The built-in rules as gitignore lines.
pub fn default_rules() -> (rules: Vec<String>)
    ensures
        text_views(rules@) == default_rule_list(),
{
    let mut rules: Vec<String> = Vec::new();
    assert(text_views(rules@) =~= Seq::<Seq<char>>::empty());
    push_directory_rules(&ignored_directories(), &mut rules);
    push_extension_rules(&ignored_extensions(), &mut rules);
    push_extension_rules(&binary_extensions(), &mut rules);
    push_names(&ignored_files(), &mut rules);
    assert(text_views(rules@) =~= default_rule_list());
    rules
}

/// The matcher of the built-in rules. They are matched against relative
/// paths, so the matcher has the empty directory for its root.
pub fn default_matcher() -> (outcome: Result<Gitignore, InvalidPattern>)
    ensures
        outcome is Ok <==> rules_valid(default_rule_list()),
        match outcome {
            Ok(matcher) => built_from(matcher, Seq::<char>::empty(), default_rule_list()),
            Err(_) => true,
        },
{
    let rules = default_rules();
    let root = String::new();
    build_matcher(root.as_str(), &rules)
}

/// Whether the built-in rules exclude `path`; `None` where the rules could not
/// be compiled.
pub fn matches_default_ignore(path: &str, is_dir: bool) -> (excluded: Option<bool>)
    ensures
        excluded is Some <==> rules_valid(default_rule_list()),
        match excluded {
            Some(verdict) => verdict == (lines_verdict(
                Seq::<char>::empty(),
                default_rule_list(),
                path@,
                is_dir,
            ) == Verdict::Ignore),
            None => true,
        },
{
    match default_matcher() {
        Ok(matcher) => Some(matcher_verdict(&matcher, path, is_dir) == Verdict::Ignore),
        Err(_) => None,
    }
}

/// Whether the extension of `path` marks a binary file.
pub fn is_binary_like(path: &str) -> (binary: bool)
    ensures
        binary == binary_extension_list().contains(extension_text(path@)),
{
    let extension = extension_of(path);
    list_contains(&binary_extensions(), extension.as_str())
}

} // verus!
