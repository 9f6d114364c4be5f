//! The path classifier: the extension of a path, and the table of extensions
//! that are known to hold templates.

use vstd::prelude::*;
use vstd::string::StringExecFns;
use vstd::string::StrSliceExecFns;
use crate::text::str_equal;
pub use crate::text::text_views;

verus! {

/// The extensions of template-bearing files, in alphabetical order.
pub open spec fn known_extension_list() -> Seq<Seq<char>> {
    seq![
        "aspx"@,
        "astro"@,
        "cjs"@,
        "cts"@,
        "eex"@,
        "erb"@,
        "gjs"@,
        "gts"@,
        "haml"@,
        "handlebars"@,
        "hbs"@,
        "heex"@,
        "html"@,
        "jade"@,
        "js"@,
        "jsx"@,
        "liquid"@,
        "md"@,
        "mdx"@,
        "mjs"@,
        "mts"@,
        "mustache"@,
        "njk"@,
        "nunjucks"@,
        "php"@,
        "pug"@,
        "py"@,
        "razor"@,
        "rb"@,
        "rhtml"@,
        "rs"@,
        "slim"@,
        "svelte"@,
        "tpl"@,
        "ts"@,
        "tsx"@,
        "twig"@,
        "vue"@,
    ]
}

/// The table of known extensions.
pub fn known_extensions() -> (list: Vec<String>)
    ensures
        text_views(list@) == known_extension_list(),
{
    let mut list: Vec<String> = Vec::new();
    list.push(String::from_str("aspx"));
    list.push(String::from_str("astro"));
    list.push(String::from_str("cjs"));
    list.push(String::from_str("cts"));
    list.push(String::from_str("eex"));
    list.push(String::from_str("erb"));
    list.push(String::from_str("gjs"));
    list.push(String::from_str("gts"));
    list.push(String::from_str("haml"));
    list.push(String::from_str("handlebars"));
    list.push(String::from_str("hbs"));
    list.push(String::from_str("heex"));
    list.push(String::from_str("html"));
    list.push(String::from_str("jade"));
    list.push(String::from_str("js"));
    list.push(String::from_str("jsx"));
    list.push(String::from_str("liquid"));
    list.push(String::from_str("md"));
    list.push(String::from_str("mdx"));
    list.push(String::from_str("mjs"));
    list.push(String::from_str("mts"));
    list.push(String::from_str("mustache"));
    list.push(String::from_str("njk"));
    list.push(String::from_str("nunjucks"));
    list.push(String::from_str("php"));
    list.push(String::from_str("pug"));
    list.push(String::from_str("py"));
    list.push(String::from_str("razor"));
    list.push(String::from_str("rb"));
    list.push(String::from_str("rhtml"));
    list.push(String::from_str("rs"));
    list.push(String::from_str("slim"));
    list.push(String::from_str("svelte"));
    list.push(String::from_str("tpl"));
    list.push(String::from_str("ts"));
    list.push(String::from_str("tsx"));
    list.push(String::from_str("twig"));
    list.push(String::from_str("vue"));
    assert(text_views(list@) =~= known_extension_list());
    list
}

/// Whether `list` holds a text equal to `wanted`.
pub fn list_contains(list: &Vec<String>, wanted: &str) -> (found: bool)
    ensures
        found == text_views(list@).contains(wanted@),
{
    let n: usize = list.len();
    let mut i: usize = 0;
    while i < n
        invariant
            n == list@.len(),
            0 <= i <= n,
            forall|k: int| 0 <= k < i ==> list@[k]@ != wanted@,
        decreases n - i,
    {
        if str_equal(list[i].as_str(), wanted) {
            assert(text_views(list@)[i as int] == wanted@);
            return true;
        }
        i = i + 1;
    }
    assert forall|k: int| 0 <= k < text_views(list@).len() implies text_views(list@)[k]
        != wanted@ by {
        assert(text_views(list@)[k] == list@[k]@);
    }
    false
}

/// Whether `extension` is in the table of known extensions.
pub fn is_known_extension(extension: &str) -> (known: bool)
    ensures
        known == known_extension_list().contains(extension@),
{
    let table = known_extensions();
    list_contains(&table, extension)
}

/// The greatest position below `k` at which `s` holds `c`, or -1.
pub open spec fn last_index_of(s: Seq<char>, c: char, k: int) -> int
    decreases k,
{
    if k <= 0 || k > s.len() {
        -1
    } else if s[k - 1] == c {
        k - 1
    } else {
        last_index_of(s, c, k - 1)
    }
}

/// The extension of a path: what follows the last `.` of its last component,
/// where that `.` is not the component's first character. A path without such
/// a `.` has the empty extension. Components are separated by `/`.
pub open spec fn extension_text(path: Seq<char>) -> Seq<char> {
    let dot = last_index_of(path, '.', path.len() as int);
    let slash = last_index_of(path, '/', path.len() as int);
    if dot > slash + 1 {
        path.subrange(dot + 1, path.len() as int)
    } else {
        Seq::empty()
    }
}

proof fn lemma_last_index_bounds(s: Seq<char>, c: char, k: int)
    requires
        0 <= k <= s.len(),
    ensures
        -1 <= last_index_of(s, c, k) < k,
        last_index_of(s, c, k) >= 0 ==> s[last_index_of(s, c, k)] == c,
        forall|m: int| last_index_of(s, c, k) < m < k ==> s[m] != c,
    decreases k,
{
    if k > 0 && s[k - 1] != c {
        lemma_last_index_bounds(s, c, k - 1);
    }
}

proof fn lemma_last_index_skip(s: Seq<char>, c: char, i: int, k: int)
    requires
        0 <= i <= k <= s.len(),
        forall|m: int| i <= m < k ==> s[m] != c,
    ensures
        last_index_of(s, c, k) == last_index_of(s, c, i),
    decreases k - i,
{
    if i < k {
        lemma_last_index_skip(s, c, i, k - 1);
    }
}

/// The directory that contains `path`: the text before its last `/`, or `/`
/// itself where that is the only one and stands first, or the empty path where
/// there is none. The root `/` and the empty path are contained in nothing.
pub open spec fn parent_text(path: Seq<char>) -> Option<Seq<char>> {
    let slash = last_index_of(path, '/', path.len() as int);
    if path.len() == 0 {
        None
    } else if slash < 0 {
        Some(Seq::empty())
    } else if slash == 0 {
        if path.len() == 1 {
            None
        } else {
            Some(path.subrange(0, 1))
        }
    } else {
        Some(path.subrange(0, slash))
    }
}

/// The path itself and every directory above it, the nearest first.
pub open spec fn ancestors_of(path: Seq<char>) -> Seq<Seq<char>>
    decreases path.len(),
{
    match parent_text(path) {
        Some(parent) => {
            if parent.len() < path.len() {
                Seq::empty().push(path) + ancestors_of(parent)
            } else {
                Seq::empty().push(path)
            }
        },
        None => Seq::empty().push(path),
    }
}

/// The path of the `.git` entry of a directory.
pub open spec fn git_marker_of(dir: Seq<char>) -> Seq<char> {
    if dir.len() == 0 {
        ".git"@
    } else if dir.last() == '/' {
        dir + ".git"@
    } else {
        dir + "/.git"@
    }
}

/// Where a repository that contains `root` would show: the `.git` entry of
/// `root` and of every directory above it, the nearest first.
pub open spec fn git_marker_list(root: Seq<char>) -> Seq<Seq<char>> {
    ancestors_of(root).map_values(|dir: Seq<char>| git_marker_of(dir))
}

/// The directory that contains `path`.
pub fn parent_path(path: &str) -> (parent: Option<String>)
    ensures
        match parent {
            Some(text) => parent_text(path@) == Some(text@),
            None => parent_text(path@) is None,
        },
        match parent {
            Some(text) => text@.len() < path@.len(),
            None => true,
        },
{
    let n: usize = path.unicode_len();
    if n == 0 {
        return None;
    }
    let mut i: usize = n;
    while i > 0
        invariant
            n == path@.len(),
            0 <= i <= n,
            forall|m: int| i <= m < n ==> path@[m] != '/',
        decreases i,
    {
        let c: char = path.get_char(i - 1);
        if c == '/' {
            proof {
                lemma_last_index_skip(path@, '/', i as int, n as int);
            }
            if i == 1 {
                if n == 1 {
                    return None;
                }
                return Some(path.substring_char(0, 1).to_owned());
            }
            return Some(path.substring_char(0, i - 1).to_owned());
        }
        i = i - 1;
    }
    proof {
        lemma_last_index_skip(path@, '/', 0, n as int);
    }
    Some(String::new())
}

/// The path of the `.git` entry of the directory `dir`.
pub fn git_marker(dir: &str) -> (marker: String)
    ensures
        marker@ == git_marker_of(dir@),
{
    let n: usize = dir.unicode_len();
    if n == 0 {
        return String::from_str(".git");
    }
    let mut marker = dir.to_owned();
    if dir.get_char(n - 1) == '/' {
        marker.append(".git");
    } else {
        marker.append("/.git");
    }
    marker
}

/// Where a repository that contains `root` would show.
pub fn git_marker_paths(root: &str) -> (markers: Vec<String>)
    ensures
        text_views(markers@) == git_marker_list(root@),
{
    let mut markers: Vec<String> = Vec::new();
    let mut current: String = root.to_owned();
    markers.push(git_marker(current.as_str()));
    let ghost mut done: Seq<Seq<char>> = Seq::empty().push(root@);
    proof {
        assert(text_views(markers@) =~= done.map_values(|dir: Seq<char>| git_marker_of(dir)));
    }
    loop
        invariant
            text_views(markers@) == done.map_values(|dir: Seq<char>| git_marker_of(dir)),
            done.len() > 0,
            done.last() == current@,
            done.drop_last() + ancestors_of(current@) == ancestors_of(root@),
        decreases current@.len(),
    {
        match parent_path(current.as_str()) {
            Some(parent) => {
                let ghost before = done;
                let ghost views = text_views(markers@);
                markers.push(git_marker(parent.as_str()));
                proof {
                    done = done.push(parent@);
                    assert(text_views(markers@) =~= views.push(git_marker_of(parent@)));
                    assert(text_views(markers@) =~= done.map_values(
                        |dir: Seq<char>| git_marker_of(dir),
                    ));
                    assert(done.drop_last() =~= before);
                    assert(before =~= before.drop_last().push(current@));
                    assert(done.drop_last() + ancestors_of(parent@) =~= before.drop_last()
                        + ancestors_of(current@));
                }
                current = parent;
            },
            None => {
                proof {
                    assert(done =~= done.drop_last() + ancestors_of(current@));
                }
                return markers;
            },
        }
    }
}

/// The extension of `path`.
pub fn extension_of(path: &str) -> (extension: String)
    ensures
        extension@ == extension_text(path@),
{
    let n: usize = path.unicode_len();
    let mut i: usize = n;
    while i > 0
        invariant
            n == path@.len(),
            0 <= i <= n,
            forall|m: int| i <= m < n ==> path@[m] != '.' && path@[m] != '/',
        decreases i,
    {
        let c: char = path.get_char(i - 1);
        if c == '/' {
            proof {
                lemma_last_index_skip(path@, '.', i as int, n as int);
                lemma_last_index_skip(path@, '/', i as int, n as int);
                lemma_last_index_bounds(path@, '.', i as int - 1);
            }
            return String::new();
        }
        if c == '.' {
            proof {
                lemma_last_index_skip(path@, '.', i as int, n as int);
                lemma_last_index_skip(path@, '/', i as int, n as int);
                lemma_last_index_bounds(path@, '/', i as int - 1);
            }
            if i == 1 {
                return String::new();
            }
            let before: char = path.get_char(i - 2);
            if before == '/' {
                return String::new();
            }
            proof {
                lemma_last_index_bounds(path@, '/', i as int - 2);
            }
            return path.substring_char(i, n).to_owned();
        }
        i = i - 1;
    }
    proof {
        lemma_last_index_skip(path@, '.', 0, n as int);
        lemma_last_index_skip(path@, '/', 0, n as int);
    }
    String::new()
}

} // verus!
