//! Source directives, and the entries that the walker works from.

use vstd::prelude::*;
use vstd::string::{StrSliceExecFns, StringExecFns};
use crate::paths::last_index_of;
use crate::text::str_equal;

verus! {

/// A source directive as its author wrote it: a pattern below a base
/// directory, which includes what it matches or, where `negated`, excludes it.
#[derive(Debug)]
pub struct PublicSourceEntry {
    /// The absolute path of the directory that the pattern is relative to.
    pub base: String,
    /// The pattern, in gitignore syntax.
    pub pattern: String,
    /// Whether the directive excludes what the pattern matches.
    pub negated: bool,
}

/// The mathematical value of a [`PublicSourceEntry`].
pub struct DirectiveView {
    pub base: Seq<char>,
    pub pattern: Seq<char>,
    pub negated: bool,
}

impl View for PublicSourceEntry {
    type V = DirectiveView;

    open spec fn view(&self) -> DirectiveView {
        DirectiveView { base: self.base@, pattern: self.pattern@, negated: self.negated }
    }
}

/// A directive as the walker sees it.
#[derive(Debug)]
pub enum SourceEntry {
    /// Discover everything reasonable below `base`.
    Auto { base: String },
    /// Besides, include the files below `base` that match `pattern`, even
    /// where the built-in rules would hide them.
    Pattern { base: String, pattern: String },
    /// Leave out everything below `base`.
    IgnoredAuto { base: String },
    /// Leave out the files below `base` that match `pattern`.
    IgnoredPattern { base: String, pattern: String },
}

/// The mathematical value of a [`SourceEntry`].
pub enum SourceEntryView {
    Auto { base: Seq<char> },
    Pattern { base: Seq<char>, pattern: Seq<char> },
    IgnoredAuto { base: Seq<char> },
    IgnoredPattern { base: Seq<char>, pattern: Seq<char> },
}

impl View for SourceEntry {
    type V = SourceEntryView;

    open spec fn view(&self) -> SourceEntryView {
        match self {
            SourceEntry::Auto { base } => SourceEntryView::Auto { base: base@ },
            SourceEntry::Pattern { base, pattern } => SourceEntryView::Pattern {
                base: base@,
                pattern: pattern@,
            },
            SourceEntry::IgnoredAuto { base } => SourceEntryView::IgnoredAuto { base: base@ },
            SourceEntry::IgnoredPattern { base, pattern } => SourceEntryView::IgnoredPattern {
                base: base@,
                pattern: pattern@,
            },
        }
    }
}

impl Clone for SourceEntry {
    fn clone(&self) -> (copy: Self)
        ensures
            copy@ == self@,
    {
        match self {
            SourceEntry::Auto { base } => SourceEntry::Auto { base: base.clone() },
            SourceEntry::Pattern { base, pattern } => SourceEntry::Pattern {
                base: base.clone(),
                pattern: pattern.clone(),
            },
            SourceEntry::IgnoredAuto { base } => SourceEntry::IgnoredAuto { base: base.clone() },
            SourceEntry::IgnoredPattern { base, pattern } => SourceEntry::IgnoredPattern {
                base: base.clone(),
                pattern: pattern.clone(),
            },
        }
    }
}

/// The pattern that stands for a whole directory tree.
pub open spec fn whole_tree_pattern() -> Seq<char> {
    "**/*"@
}

/// The first position at or after `k` at which `pattern` holds a `*`, or its
/// length.
pub open spec fn first_star(pattern: Seq<char>, k: int) -> int
    decreases pattern.len() - k,
{
    if k < 0 || k >= pattern.len() || pattern[k] == '*' {
        k
    } else {
        first_star(pattern, k + 1)
    }
}

/// The first position at or after `k` at which `pattern` holds a `*` or a
/// `!`, where its dynamic part begins, or its length.
pub open spec fn first_dynamic(pattern: Seq<char>, k: int) -> int
    decreases pattern.len() - k,
{
    if k < 0 || k >= pattern.len() || pattern[k] == '*' || pattern[k] == '!' {
        k
    } else {
        first_dynamic(pattern, k + 1)
    }
}

/// The pattern without a leading `./`.
pub open spec fn without_dot_slash(pattern: Seq<char>) -> Seq<char> {
    if pattern.len() >= 2 && pattern[0] == '.' && pattern[1] == '/' {
        pattern.subrange(2, pattern.len() as int)
    } else {
        pattern
    }
}

/// The path `rest` below the directory `base`.
pub open spec fn joined_path(base: Seq<char>, rest: Seq<char>) -> Seq<char> {
    if base.len() > 0 && base.last() == '/' {
        base + rest
    } else {
        base + "/"@ + rest
    }
}

/// The directive with the static part of its pattern moved into its base. A
/// leading `./` of the pattern is dropped. Where the pattern holds a `*`, the
/// directories that it names before its first `*` or `!` are read as they
/// stand, not as a pattern, and become part of the base; the rest stays the
/// pattern. A pattern without a `*`, or without a directory before its dynamic
/// part, stays as it is.
pub open spec fn hoisted(directive: DirectiveView) -> DirectiveView {
    let pattern = without_dot_slash(directive.pattern);
    let slash = last_index_of(pattern, '/', first_dynamic(pattern, 0));
    if first_star(pattern, 0) >= pattern.len() || slash <= 0 {
        DirectiveView { base: directive.base, pattern: pattern, negated: directive.negated }
    } else {
        DirectiveView {
            base: joined_path(directive.base, pattern.subrange(0, slash)),
            pattern: pattern.subrange(slash + 1, pattern.len() as int),
            negated: directive.negated,
        }
    }
}

/// The entry that a directive becomes once the static part of its pattern was
/// moved into its base. A directive for a whole tree turns discovery on, or
/// off, below its base; any other includes or excludes what its pattern
/// matches.
pub open spec fn resolved_entry(directive: DirectiveView) -> SourceEntryView {
    let moved = hoisted(directive);
    if moved.pattern == whole_tree_pattern() {
        if moved.negated {
            SourceEntryView::IgnoredAuto { base: moved.base }
        } else {
            SourceEntryView::Auto { base: moved.base }
        }
    } else {
        if moved.negated {
            SourceEntryView::IgnoredPattern { base: moved.base, pattern: moved.pattern }
        } else {
            SourceEntryView::Pattern { base: moved.base, pattern: moved.pattern }
        }
    }
}

proof fn lemma_first_star_skip(pattern: Seq<char>, i: int, k: int)
    requires
        0 <= i <= k <= pattern.len(),
        forall|m: int| i <= m < k ==> pattern[m] != '*',
    ensures
        first_star(pattern, i) == first_star(pattern, k),
    decreases k - i,
{
    if i < k {
        lemma_first_star_skip(pattern, i + 1, k);
    }
}

proof fn lemma_first_dynamic_skip(pattern: Seq<char>, i: int, k: int)
    requires
        0 <= i <= k <= pattern.len(),
        forall|m: int| i <= m < k ==> pattern[m] != '*' && pattern[m] != '!',
    ensures
        first_dynamic(pattern, i) == first_dynamic(pattern, k),
    decreases k - i,
{
    if i < k {
        lemma_first_dynamic_skip(pattern, i + 1, k);
    }
}

impl PublicSourceEntry {
    /// The directive with the static part of its pattern moved into its base.
    pub fn hoist(&self) -> (moved: PublicSourceEntry)
        ensures
            moved@ == hoisted(self@),
    {
        let whole: &str = self.pattern.as_str();
        let length: usize = whole.unicode_len();
        let start: usize = if length >= 2 && whole.get_char(0) == '.' && whole.get_char(1) == '/' {
            2
        } else {
            0
        };
        let pattern: &str = whole.substring_char(start, length);
        assert(pattern@ =~= without_dot_slash(self.pattern@));
        let n: usize = pattern.unicode_len();
        // where the dynamic part begins, and the last `/` before it
        let mut stop: usize = 0;
        let mut slash: Option<usize> = None;
        while stop < n && pattern.get_char(stop) != '*' && pattern.get_char(stop) != '!'
            invariant
                n == pattern@.len(),
                0 <= stop <= n,
                forall|m: int| 0 <= m < stop ==> pattern@[m] != '*' && pattern@[m] != '!',
                match slash {
                    Some(at) => at < stop && last_index_of(pattern@, '/', stop as int) == at,
                    None => last_index_of(pattern@, '/', stop as int) == -1,
                },
            decreases n - stop,
        {
            if pattern.get_char(stop) == '/' {
                slash = Some(stop);
            }
            stop = stop + 1;
        }
        let mut star: usize = stop;
        while star < n && pattern.get_char(star) != '*'
            invariant
                n == pattern@.len(),
                stop <= star <= n,
                forall|m: int| 0 <= m < star ==> pattern@[m] != '*',
            decreases n - star,
        {
            star = star + 1;
        }
        proof {
            lemma_first_dynamic_skip(pattern@, 0, stop as int);
            lemma_first_star_skip(pattern@, 0, star as int);
        }
        match slash {
            Some(at) => {
                if star < n && at > 0 {
                    let mut base = self.base.clone();
                    let filled: usize = self.base.as_str().unicode_len();
                    if filled == 0 || self.base.as_str().get_char(filled - 1) != '/' {
                        base.append("/");
                    }
                    base.append(pattern.substring_char(0, at));
                    return PublicSourceEntry {
                        base,
                        pattern: pattern.substring_char(at + 1, n).to_owned(),
                        negated: self.negated,
                    };
                }
            },
            None => {},
        }
        PublicSourceEntry {
            base: self.base.clone(),
            pattern: pattern.to_owned(),
            negated: self.negated,
        }
    }
}

/// The views of a list of directives.
pub open spec fn directive_views(sources: Seq<PublicSourceEntry>) -> Seq<DirectiveView> {
    Seq::new(sources.len(), |i: int| sources[i]@)
}

/// The views of a list of entries.
pub open spec fn entry_views(entries: Seq<SourceEntry>) -> Seq<SourceEntryView> {
    Seq::new(entries.len(), |i: int| entries[i]@)
}

impl SourceEntry {
    /// The entry that `directive` becomes.
    pub fn from_directive(directive: &PublicSourceEntry) -> (entry: SourceEntry)
        ensures
            entry@ == resolved_entry(directive@),
    {
        let moved = directive.hoist();
        let directive = &moved;
        let whole_tree = str_equal(directive.pattern.as_str(), "**/*");
        if whole_tree {
            if directive.negated {
                SourceEntry::IgnoredAuto { base: directive.base.clone() }
            } else {
                SourceEntry::Auto { base: directive.base.clone() }
            }
        } else {
            if directive.negated {
                SourceEntry::IgnoredPattern {
                    base: directive.base.clone(),
                    pattern: directive.pattern.clone(),
                }
            } else {
                SourceEntry::Pattern {
                    base: directive.base.clone(),
                    pattern: directive.pattern.clone(),
                }
            }
        }
    }
}

/// The entries that the directives become, one for each and in their order.
pub fn public_source_entries_to_private_source_entries(sources: &Vec<PublicSourceEntry>) -> (entries:
    Vec<SourceEntry>)
    ensures
        entry_views(entries@) == directive_views(sources@).map_values(
            |directive: DirectiveView| resolved_entry(directive),
        ),
{
    let mut entries: Vec<SourceEntry> = Vec::new();
    let n: usize = sources.len();
    let mut i: usize = 0;
    while i < n
        invariant
            n == sources@.len(),
            0 <= i <= n,
            entries@.len() == i,
            forall|k: int| 0 <= k < i ==> (#[trigger] entries@[k])@ == resolved_entry(sources@[k]@),
        decreases n - i,
    {
        entries.push(SourceEntry::from_directive(&sources[i]));
        i = i + 1;
    }
    assert(entry_views(entries@) =~= directive_views(sources@).map_values(
        |directive: DirectiveView| resolved_entry(directive),
    ));
    entries
}

} // verus!
