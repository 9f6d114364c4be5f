//! Watch globs: a base directory and a pattern below it.

use vstd::prelude::*;
use vstd::string::StringExecFns;
use crate::paths::{known_extension_list, known_extensions, text_views};

verus! {

/// A glob that a watcher is to follow.
#[derive(Debug, PartialEq, Eq)]
pub struct GlobEntry {
    /// The directory that the pattern is relative to.
    pub base: String,
    /// The pattern.
    pub pattern: String,
}

/// The mathematical value of a [`GlobEntry`].
pub struct GlobEntryView {
    pub base: Seq<char>,
    pub pattern: Seq<char>,
}

impl View for GlobEntry {
    type V = GlobEntryView;

    open spec fn view(&self) -> GlobEntryView {
        GlobEntryView { base: self.base@, pattern: self.pattern@ }
    }
}

impl Clone for GlobEntry {
    fn clone(&self) -> (copy: Self)
        ensures
            copy@ == self@,
    {
        GlobEntry { base: self.base.clone(), pattern: self.pattern.clone() }
    }
}

/// The views of a list of globs.
pub open spec fn glob_views(globs: Seq<GlobEntry>) -> Seq<GlobEntryView> {
    Seq::new(globs.len(), |i: int| globs[i]@)
}

/// The texts of `list` in order, with `separator` between each two.
pub open spec fn joined(list: Seq<Seq<char>>, separator: Seq<char>) -> Seq<char>
    decreases list.len(),
{
    if list.len() == 0 {
        Seq::empty()
    } else if list.len() == 1 {
        list[0]
    } else {
        joined(list.drop_last(), separator) + separator + list.last()
    }
}

/// The known extensions, separated by commas.
pub open spec fn extension_list_text() -> Seq<char> {
    joined(known_extension_list(), ","@)
}

/// The pattern of a deep glob: files with a known extension at any depth.
pub open spec fn deep_pattern_text() -> Seq<char> {
    "**/*.{"@ + extension_list_text() + "}"@
}

/// The pattern of a shallow glob: files with a known extension exactly one
/// directory down.
pub open spec fn shallow_pattern_text() -> Seq<char> {
    "*/*.{"@ + extension_list_text() + "}"@
}

/// The pattern that stands for what lies directly in a base.
pub open spec fn top_level_pattern_text() -> Seq<char> {
    "*"@
}

/// Joins `list` with `separator`.
pub fn join_texts(list: &Vec<String>, separator: &str) -> (text: String)
    ensures
        text@ == joined(text_views(list@), separator@),
{
    let mut text = String::new();
    let n: usize = list.len();
    let mut i: usize = 0;
    while i < n
        invariant
            n == list@.len(),
            0 <= i <= n,
            text@ == joined(text_views(list@).take(i as int), separator@),
        decreases n - i,
    {
        let ghost before = text_views(list@).take(i as int);
        let ghost after = text_views(list@).take(i as int + 1);
        proof {
            assert(after.drop_last() =~= before);
            assert(after.last() == list@[i as int]@);
        }
        if i > 0 {
            text.append(separator);
        }
        text.append(list[i].as_str());
        proof {
            if i == 0 {
                assert(text@ =~= list@[0]@);
            }
        }
        i = i + 1;
    }
    assert(text_views(list@).take(n as int) =~= text_views(list@));
    text
}

/// The pattern of a deep glob.
pub fn deep_pattern() -> (pattern: String)
    ensures
        pattern@ == deep_pattern_text(),
{
    let extensions = join_texts(&known_extensions(), ",");
    let mut pattern = String::from_str("**/*.{");
    pattern.append(extensions.as_str());
    pattern.append("}");
    pattern
}

/// The pattern of a shallow glob.
pub fn shallow_pattern() -> (pattern: String)
    ensures
        pattern@ == shallow_pattern_text(),
{
    let extensions = join_texts(&known_extensions(), ",");
    let mut pattern = String::from_str("*/*.{");
    pattern.append(extensions.as_str());
    pattern.append("}");
    pattern
}

} // verus!
