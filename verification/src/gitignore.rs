//! The gitignore matcher of the `ignore` crate: building one from rule lines,
//! and asking it about a path.

use vstd::prelude::*;
use ignore::gitignore::{Gitignore, GitignoreBuilder};
use ignore::Match;
use crate::text::text_views;

verus! {

/// `ignore::gitignore::Gitignore`, a matcher; what it was built from is named
/// by [`matcher_root`] and [`matcher_rules`].
#[verifier::external_type_specification]
#[verifier::external_body]
pub struct ExGitignore(Gitignore);

/// `ignore::gitignore::GitignoreBuilder`; what it has taken is named by
/// [`builder_root`] and [`builder_rules`].
#[verifier::external_type_specification]
#[verifier::external_body]
pub struct ExGitignoreBuilder(GitignoreBuilder);

/// `ignore::Error`, with which a line or a set of lines is refused; nothing is
/// said of what it holds.
#[verifier::external_type_specification]
#[verifier::external_body]
pub struct ExIgnoreError(ignore::Error);

/// What a set of rules says of a path.
#[derive(Clone, Copy, Debug, PartialEq, Eq, Structural)]
pub enum Verdict {
    /// No rule matches the path.
    Unmatched,
    /// The last rule that matches excludes the path.
    Ignore,
    /// The last rule that matches includes the path again.
    Whitelist,
}

/// The directory that a builder holds: the one it was made for, without a
/// leading `./`.
pub uninterp spec fn builder_root(builder: GitignoreBuilder) -> Seq<char>;

/// The rules that a builder holds, each as the text it keeps of the line, in
/// the order in which they came.
pub uninterp spec fn builder_rules(builder: GitignoreBuilder) -> Seq<Seq<char>>;

/// The directory that a matcher holds.
pub uninterp spec fn matcher_root(matcher: Gitignore) -> Seq<char>;

/// The rules that a matcher holds, each as the text kept of its line.
pub uninterp spec fn matcher_rules(matcher: Gitignore) -> Seq<Seq<char>>;

/// Whether a builder takes the line: whether it parses as a gitignore rule.
pub uninterp spec fn rule_accepted(line: Seq<char>) -> bool;

/// Whether a matcher can be built from the lines.
pub uninterp spec fn rules_compile(rules: Seq<Seq<char>>) -> bool;

/// What a matcher built for `root` from `rules` says of `path`, the paths read
/// with `/` between their components.
pub uninterp spec fn rules_verdict(
    root: Seq<char>,
    rules: Seq<Seq<char>>,
    path: Seq<char>,
    is_dir: bool,
) -> Verdict;

/// The directory that a builder keeps for `root`: `root` without a leading
/// `./`.
pub open spec fn kept_root(root: Seq<char>) -> Seq<char> {
    if root.len() >= 2 && root[0] == '.' && root[1] == '/' {
        root.subrange(2, root.len() as int)
    } else {
        root
    }
}

/// The white space that is trimmed from the end of a line.
pub open spec fn is_white_space(c: char) -> bool {
    ||| '\u{9}' <= c <= '\u{d}'
    ||| c == ' '
    ||| c == '\u{85}'
    ||| c == '\u{a0}'
    ||| c == '\u{1680}'
    ||| '\u{2000}' <= c <= '\u{200a}'
    ||| c == '\u{2028}'
    ||| c == '\u{2029}'
    ||| c == '\u{202f}'
    ||| c == '\u{205f}'
    ||| c == '\u{3000}'
}

/// The line without the white space at its end.
pub open spec fn trimmed_end(line: Seq<char>) -> Seq<char>
    decreases line.len(),
{
    if line.len() == 0 || !is_white_space(line.last()) {
        line
    } else {
        trimmed_end(line.drop_last())
    }
}

/// The line ends in an escaped blank, which is not trimmed.
pub open spec fn ends_in_escaped_blank(line: Seq<char>) -> bool {
    line.len() >= 2 && line[line.len() - 2] == '\\' && line[line.len() - 1] == ' '
}

/// What a builder keeps of a line that it takes: nothing of a comment, which
/// starts with `#`, nor of a line that is blank once trimmed; of any other line
/// the text without the white space at its end.
pub open spec fn kept_line(line: Seq<char>) -> Option<Seq<char>> {
    let text = if ends_in_escaped_blank(line) {
        line
    } else {
        trimmed_end(line)
    };
    if (line.len() > 0 && line[0] == '#') || text.len() == 0 {
        None
    } else {
        Some(text)
    }
}

/// What a builder keeps of the lines `lines`, taken in their order.
pub open spec fn kept_rules(lines: Seq<Seq<char>>) -> Seq<Seq<char>>
    decreases lines.len(),
{
    if lines.len() == 0 {
        Seq::empty()
    } else {
        match kept_line(lines.last()) {
            Some(text) => kept_rules(lines.drop_last()).push(text),
            None => kept_rules(lines.drop_last()),
        }
    }
}

/// The matcher is the one built for `root` from `lines`.
pub open spec fn built_from(matcher: Gitignore, root: Seq<char>, lines: Seq<Seq<char>>) -> bool {
    matcher_root(matcher) == kept_root(root) && matcher_rules(matcher) == kept_rules(lines)
}

/// What the matcher built for `root` from `lines` says of `path`.
pub open spec fn lines_verdict(
    root: Seq<char>,
    lines: Seq<Seq<char>>,
    path: Seq<char>,
    is_dir: bool,
) -> Verdict {
    rules_verdict(kept_root(root), kept_rules(lines), path, is_dir)
}

/// `GitignoreBuilder::new`: a builder that has taken no line yet, for `root`
/// without a leading `./`.
#[verifier::external_body]
pub(crate) fn builder_new(root: &str) -> (builder: GitignoreBuilder)
    ensures
        builder_root(builder) == kept_root(root@),
        builder_rules(builder) == Seq::<Seq<char>>::empty(),
{
    GitignoreBuilder::new(root)
}

/// `GitignoreBuilder::add_line`: the builder takes the line if it parses, and
/// is left as it was, with the error returned, if it does not. Of a line that
/// it takes it keeps the trimmed text, and nothing of a comment or a blank
/// line.
#[verifier::external_body]
pub(crate) fn builder_add_line(builder: &mut GitignoreBuilder, line: &str) -> (outcome: Result<
    (),
    ignore::Error,
>)
    ensures
        outcome is Ok <==> rule_accepted(line@),
        builder_root(*final(builder)) == builder_root(*old(builder)),
        builder_rules(*final(builder)) == if rule_accepted(line@) && kept_line(line@) is Some {
            builder_rules(*old(builder)).push(kept_line(line@)->0)
        } else {
            builder_rules(*old(builder))
        },
{
    match builder.add_line(None, line) {
        Ok(_) => Ok(()),
        Err(error) => Err(error),
    }
}

/// `GitignoreBuilder::build`: a matcher for the builder's directory and lines,
/// or the error with which the lines failed to compile.
#[verifier::external_body]
pub(crate) fn builder_build(builder: &GitignoreBuilder) -> (outcome: Result<
    Gitignore,
    ignore::Error,
>)
    ensures
        outcome is Ok <==> rules_compile(builder_rules(*builder)),
        match outcome {
            Ok(matcher) => matcher_root(matcher) == builder_root(*builder) && matcher_rules(
                matcher,
            ) == builder_rules(*builder),
            Err(_) => true,
        },
{
    builder.build()
}

/// `Gitignore::matched`: what the matcher says of the path.
#[verifier::external_body]
pub(crate) fn matcher_verdict(matcher: &Gitignore, path: &str, is_dir: bool) -> (verdict: Verdict)
    ensures
        verdict == rules_verdict(matcher_root(*matcher), matcher_rules(*matcher), path@, is_dir),
{
    match matcher.matched(path, is_dir) {
        Match::None => Verdict::Unmatched,
        Match::Ignore(_) => Verdict::Ignore,
        Match::Whitelist(_) => Verdict::Whitelist,
    }
}

/// A directive's pattern that the matcher does not take.
#[derive(Debug)]
pub struct InvalidPattern {
    /// The rule line that was refused.
    pub line: String,
}

/// All of the lines `rules` parse, and a matcher can be built from what is
/// kept of them.
pub open spec fn rules_valid(rules: Seq<Seq<char>>) -> bool {
    &&& forall|k: int| 0 <= k < rules.len() ==> rule_accepted(#[trigger] rules[k])
    &&& rules_compile(kept_rules(rules))
}

/// Builds the matcher for `root` from `lines`. Where a line does not parse,
/// or the lines do not compile, the line at fault is returned: the first that
/// does not parse, or else the empty line.
pub fn build_matcher(root: &str, lines: &Vec<String>) -> (outcome: Result<Gitignore, InvalidPattern>)
    ensures
        outcome is Ok <==> rules_valid(text_views(lines@)),
        match outcome {
            Ok(matcher) => built_from(matcher, root@, text_views(lines@)),
            Err(refused) => {
                ||| exists|k: int|
                    0 <= k < lines@.len() && refused.line@ == lines@[k]@ && !rule_accepted(
                        lines@[k]@,
                    ) && forall|m: int| 0 <= m < k ==> rule_accepted(#[trigger] lines@[m]@)
                ||| refused.line@.len() == 0 && !rules_compile(kept_rules(text_views(lines@)))
            },
        },
{
    let mut builder = builder_new(root);
    let n: usize = lines.len();
    let mut i: usize = 0;
    while i < n
        invariant
            n == lines@.len(),
            0 <= i <= n,
            builder_root(builder) == kept_root(root@),
            builder_rules(builder) == kept_rules(text_views(lines@).take(i as int)),
            forall|m: int| 0 <= m < i ==> rule_accepted(#[trigger] lines@[m]@),
        decreases n - i,
    {
        match builder_add_line(&mut builder, lines[i].as_str()) {
            Ok(_) => {},
            Err(_) => {
                proof {
                    assert(text_views(lines@)[i as int] == lines@[i as int]@);
                }
                return Err(InvalidPattern { line: lines[i].clone() });
            },
        }
        proof {
            let longer = text_views(lines@).take(i as int + 1);
            assert(longer.drop_last() =~= text_views(lines@).take(i as int));
            assert(longer.last() == lines@[i as int]@);
        }
        i = i + 1;
    }
    proof {
        assert(text_views(lines@).take(n as int) =~= text_views(lines@));
        assert forall|k: int| 0 <= k < text_views(lines@).len() implies rule_accepted(
            #[trigger] text_views(lines@)[k],
        ) by {
            assert(text_views(lines@)[k] == lines@[k]@);
        }
    }
    match builder_build(&builder) {
        Ok(matcher) => Ok(matcher),
        Err(_) => Err(InvalidPattern { line: String::new() }),
    }
}

} // verus!
