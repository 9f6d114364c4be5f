//! What holds of every classification that the glob resolver makes.

use vstd::prelude::*;
use crate::detect_sources::{
    class_of,
    classification,
    globs_of_class,
    is_admitted_dir,
    is_forced_static,
    is_pruned,
    is_public_root,
    is_reached,
    is_rejected_dir,
    is_spoiled,
    resolved_globs,
    spoiled_from,
    DirClass,
};
use crate::glob::{deep_pattern_text, shallow_pattern_text};
use crate::tree::{
    is_ancestor,
    lemma_nearest_shallower,
    lemma_parent_precedes,
    nearest_shallower,
    parent_of,
    well_formed,
    EntryKind,
    EntryView,
};

verus! {

/// Entry `i` is a directory named `.git`.
pub open spec fn is_git_dir(tree: Seq<EntryView>, i: int) -> bool {
    0 <= i < tree.len() && tree[i].kind == EntryKind::Directory && tree[i].name == ".git"@
}

/// Entry `i` lies in a directory named `.git`, at any depth.
pub open spec fn inside_git(tree: Seq<EntryView>, i: int) -> bool
    decreases i + 1,
{
    match parent_of(tree, i) {
        None => false,
        Some(p) => 0 <= p < i && (is_git_dir(tree, p) || inside_git(tree, p)),
    }
}

/// In a well-formed listing the base is the only entry that nothing contains,
/// and every other entry lies one level below the directory that contains it.
pub proof fn lemma_parent_in_listing(tree: Seq<EntryView>, i: int)
    requires
        well_formed(tree),
        0 <= i < tree.len(),
    ensures
        i == 0 ==> parent_of(tree, i) is None,
        i > 0 ==> match parent_of(tree, i) {
            Some(p) => 0 <= p < i && tree[p].depth + 1 == tree[i].depth && tree[p].kind
                == EntryKind::Directory,
            None => false,
        },
{
    if i > 0 {
        lemma_nearest_shallower(tree, i, i - 1);
        match nearest_shallower(tree, i, i - 1) {
            Some(p) => {
                assert(tree[p + 1].depth >= tree[i].depth);
                assert(tree[p + 1].depth <= tree[p].depth + 1);
            },
            None => {
                assert(tree[0].depth >= tree[i].depth);
                assert(tree[i].depth >= 1);
            },
        }
    }
}

/// A directory named `.git` is never traversed: the traversal reaches nothing
/// that lies in one.
pub proof fn lemma_git_never_traversed(tree: Seq<EntryView>, allowed: Set<Seq<char>>, i: int)
    requires
        0 <= i < tree.len(),
        inside_git(tree, i),
    ensures
        !is_reached(tree, allowed, i),
    decreases i,
{
    lemma_parent_precedes(tree, i);
    match parent_of(tree, i) {
        Some(p) => {
            if !is_git_dir(tree, p) {
                lemma_git_never_traversed(tree, allowed, p);
            }
        },
        None => {},
    }
}

/// A directory that contains `x`, directly or not, precedes or is the one that
/// contains `x` directly.
pub proof fn lemma_ancestor_precedes(tree: Seq<EntryView>, a: int, x: int)
    requires
        0 <= x < tree.len(),
        is_ancestor(tree, a, x),
    ensures
        match parent_of(tree, x) {
            Some(p) => a <= p < x,
            None => false,
        },
    decreases x,
{
    match parent_of(tree, x) {
        Some(p) => {
            if p != a {
                lemma_ancestor_precedes(tree, a, p);
            }
        },
        None => {},
    }
}

/// What contains what contains `c` contains `c`.
pub proof fn lemma_ancestor_transitive(tree: Seq<EntryView>, a: int, b: int, c: int)
    requires
        0 <= c < tree.len(),
        is_ancestor(tree, a, b),
        is_ancestor(tree, b, c),
    ensures
        is_ancestor(tree, a, c),
    decreases c,
{
    match parent_of(tree, c) {
        Some(q) => {
            if q != b {
                lemma_ancestor_transitive(tree, a, b, q);
            }
        },
        None => {},
    }
}

/// A directory between the base and entry `i`, the base left out, is deep.
pub open spec fn has_deep_ancestor(tree: Seq<EntryView>, classes: Seq<DirClass>, i: int) -> bool
    decreases i + 1,
{
    match parent_of(tree, i) {
        None => false,
        Some(p) => 0 <= p < i && p < classes.len() && parent_of(tree, p) is Some && (classes[p]
            == DirClass::Deep || has_deep_ancestor(tree, classes, p)),
    }
}

/// The nearest deep directory above entry `i`, where there is one.
pub open spec fn deep_above(tree: Seq<EntryView>, classes: Seq<DirClass>, i: int) -> int
    decreases i + 1,
{
    match parent_of(tree, i) {
        None => -1,
        Some(p) => {
            if 0 <= p < i && p < classes.len() && classes[p] == DirClass::Deep {
                p
            } else if 0 <= p < i {
                deep_above(tree, classes, p)
            } else {
                -1
            }
        },
    }
}

proof fn lemma_deep_above(tree: Seq<EntryView>, classes: Seq<DirClass>, i: int)
    requires
        0 <= i < tree.len(),
        has_deep_ancestor(tree, classes, i),
    ensures
        0 <= deep_above(tree, classes, i) < classes.len(),
        classes[deep_above(tree, classes, i)] == DirClass::Deep,
        is_ancestor(tree, deep_above(tree, classes, i), i),
    decreases i,
{
    match parent_of(tree, i) {
        Some(p) => {
            if classes[p] != DirClass::Deep {
                lemma_deep_above(tree, classes, p);
            }
        },
        None => {},
    }
}

/// Neither `x` nor a directory above it is deep.
pub open spec fn clear_above(tree: Seq<EntryView>, classes: Seq<DirClass>, x: int) -> bool {
    &&& 0 <= x < classes.len()
    &&& classes[x] != DirClass::Deep
    &&& !has_deep_ancestor(tree, classes, x)
}

proof fn lemma_spoiled_from_hit(
    tree: Seq<EntryView>,
    allowed: Set<Seq<char>>,
    a: int,
    from: int,
    k: int,
)
    requires
        0 <= a < from <= k < tree.len(),
        parent_of(tree, k) == Some(a),
        is_rejected_dir(tree, allowed, k) || is_spoiled(tree, allowed, k),
    ensures
        spoiled_from(tree, allowed, a, from),
    decreases k - from,
{
    if from < k {
        lemma_spoiled_from_hit(tree, allowed, a, from + 1, k);
    }
}

/// A rejected directory spoils every directory above it.
pub proof fn lemma_spoils_above(tree: Seq<EntryView>, allowed: Set<Seq<char>>, a: int, r: int)
    requires
        0 <= r < tree.len(),
        is_ancestor(tree, a, r),
        is_rejected_dir(tree, allowed, r) || is_spoiled(tree, allowed, r),
    ensures
        is_spoiled(tree, allowed, a),
    decreases r,
{
    lemma_parent_precedes(tree, r);
    match parent_of(tree, r) {
        Some(p) => {
            lemma_spoiled_from_hit(tree, allowed, p, p + 1, r);
            if p != a {
                lemma_spoils_above(tree, allowed, a, p);
            }
        },
        None => {},
    }
}

/// A rejected directory below `a` among the entries from `k` on, where there
/// is one.
pub open spec fn rejected_below(tree: Seq<EntryView>, allowed: Set<Seq<char>>, a: int, k: int) -> int
    decreases tree.len() - a, tree.len() - k,
{
    if !(0 <= a < k) || k >= tree.len() {
        -1
    } else if parent_of(tree, k) == Some(a) && is_rejected_dir(tree, allowed, k) {
        k
    } else if parent_of(tree, k) == Some(a) && spoiled_from(tree, allowed, k, k + 1) {
        rejected_below(tree, allowed, k, k + 1)
    } else {
        rejected_below(tree, allowed, a, k + 1)
    }
}

/// Below a spoiled directory lies a rejected one.
pub proof fn lemma_rejected_below(tree: Seq<EntryView>, allowed: Set<Seq<char>>, a: int, k: int)
    requires
        spoiled_from(tree, allowed, a, k),
    ensures
        is_rejected_dir(tree, allowed, rejected_below(tree, allowed, a, k)),
        is_ancestor(tree, a, rejected_below(tree, allowed, a, k)),
    decreases tree.len() - a, tree.len() - k,
{
    if parent_of(tree, k) == Some(a) && is_rejected_dir(tree, allowed, k) {
        assert(is_ancestor(tree, a, k));
    } else if parent_of(tree, k) == Some(a) && spoiled_from(tree, allowed, k, k + 1) {
        lemma_rejected_below(tree, allowed, k, k + 1);
        assert(is_ancestor(tree, a, k));
        lemma_ancestor_transitive(tree, a, k, rejected_below(tree, allowed, k, k + 1));
    } else {
        lemma_rejected_below(tree, allowed, a, k + 1);
    }
}

/// The base of every glob is a directory below the base that the walker
/// admitted and the traversal reached: only such a directory is deep or
/// shallow.
pub proof fn lemma_glob_bases_are_admitted(tree: Seq<EntryView>, allowed: Set<Seq<char>>, i: int)
    requires
        0 <= i < tree.len(),
        classification(tree, allowed)[i] == DirClass::Deep || classification(tree, allowed)[i]
            == DirClass::Shallow,
    ensures
        is_admitted_dir(tree, allowed, i),
        parent_of(tree, i) is Some,
{
}

/// The base is never classified.
pub proof fn lemma_base_unclassified(tree: Seq<EntryView>, allowed: Set<Seq<char>>, i: int)
    requires
        0 <= i < tree.len(),
        parent_of(tree, i) is None,
    ensures
        classification(tree, allowed)[i] == DirClass::Unclassified,
{
}

/// A directory named `.git` is never classified, nor is anything in one.
pub proof fn lemma_git_unclassified(tree: Seq<EntryView>, allowed: Set<Seq<char>>, i: int)
    requires
        0 <= i < tree.len(),
        is_git_dir(tree, i) || inside_git(tree, i),
    ensures
        classification(tree, allowed)[i] == DirClass::Unclassified,
{
    if inside_git(tree, i) {
        lemma_git_never_traversed(tree, allowed, i);
    }
}

/// The directory `public` below the base is forced-static, and so is every
/// directory below it: forced-static are just the directories at and below
/// `public` that the traversal reaches and that are not named `.git`; none of
/// them is deep or shallow.
pub proof fn lemma_public_is_forced_static(tree: Seq<EntryView>, allowed: Set<Seq<char>>, i: int)
    requires
        0 <= i < tree.len(),
    ensures
        classification(tree, allowed)[i] == DirClass::ForcedStatic <==> is_forced_static(tree, i)
            && is_reached(tree, allowed, i) && tree[i].name != ".git"@,
        is_forced_static(tree, i) ==> classification(tree, allowed)[i] != DirClass::Deep
            && classification(tree, allowed)[i] != DirClass::Shallow,
{
}

proof fn lemma_unreached_below(tree: Seq<EntryView>, allowed: Set<Seq<char>>, x: int, e: int)
    requires
        0 <= e < tree.len(),
        is_ancestor(tree, x, e),
        !is_reached(tree, allowed, x) || is_pruned(tree, allowed, x),
    ensures
        !is_reached(tree, allowed, e),
    decreases e,
{
    match parent_of(tree, e) {
        Some(p) => {
            if p != x {
                lemma_unreached_below(tree, allowed, x, p);
            }
        },
        None => {},
    }
}

/// Nothing below a deep directory has a class of its own, is rejected, or is
/// forced-static: the deep glob is the only one that reaches there.
pub proof fn lemma_below_deep(tree: Seq<EntryView>, allowed: Set<Seq<char>>, a: int, e: int)
    requires
        well_formed(tree),
        0 <= a < tree.len(),
        0 <= e < tree.len(),
        classification(tree, allowed)[a] == DirClass::Deep,
        is_ancestor(tree, a, e),
    ensures
        !is_forced_static(tree, e),
        !is_rejected_dir(tree, allowed, e),
        inside_git(tree, e) || is_reached(tree, allowed, e),
        classification(tree, allowed)[e] == DirClass::Unclassified,
    decreases e,
{
    lemma_parent_in_listing(tree, e);
    lemma_parent_in_listing(tree, a);
    assert(classification(tree, allowed)[a] == class_of(tree, allowed, a));
    assert(classification(tree, allowed)[e] == class_of(tree, allowed, e));
    assert(is_admitted_dir(tree, allowed, a));
    assert(parent_of(tree, a) is Some);
    assert(!is_spoiled(tree, allowed, a));
    match parent_of(tree, e) {
        Some(p) => {
            lemma_parent_in_listing(tree, p);
            assert(classification(tree, allowed)[p] == class_of(tree, allowed, p));
            if p != a {
                lemma_below_deep(tree, allowed, a, p);
                lemma_ancestor_precedes(tree, a, p);
            }
            assert(parent_of(tree, p) is Some);
            assert(!is_forced_static(tree, p));
            assert(!is_public_root(tree, e));
            assert(!is_forced_static(tree, e));
            if inside_git(tree, e) {
                lemma_git_never_traversed(tree, allowed, e);
            } else {
                assert(!is_git_dir(tree, p));
                assert(!inside_git(tree, p));
                assert(is_reached(tree, allowed, p));
                assert(!is_rejected_dir(tree, allowed, p));
                assert(allowed.contains(tree[p].path));
                assert(!is_pruned(tree, allowed, p));
                assert(is_reached(tree, allowed, e));
            }
            if is_rejected_dir(tree, allowed, e) || is_spoiled(tree, allowed, e) {
                lemma_spoils_above(tree, allowed, a, e);
            }
            if is_spoiled(tree, allowed, p) {
                if p != a {
                    lemma_spoils_above(tree, allowed, a, p);
                }
            }
        },
        None => {},
    }
}

/// No deep glob reaches a directory that the walker did not admit, and no glob
/// has its base there or below: a directory that is missing from the admitted
/// ones, and lies neither in the forced-static subtree nor in a directory named
/// `.git`, is not deep, has no deep directory above it, and nothing at or below
/// it has a class.
pub proof fn lemma_no_glob_over_rejected(tree: Seq<EntryView>, allowed: Set<Seq<char>>, x: int)
    requires
        well_formed(tree),
        0 <= x < tree.len(),
        tree[x].kind == EntryKind::Directory,
        !allowed.contains(tree[x].path),
        !is_forced_static(tree, x),
        !is_git_dir(tree, x),
        !inside_git(tree, x),
    ensures
        classification(tree, allowed)[x] == DirClass::Unclassified,
        clear_above(tree, classification(tree, allowed), x),
        forall|a: int|
            0 <= a < tree.len() && is_ancestor(tree, a, x) ==> #[trigger] classification(
                tree,
                allowed,
            )[a] != DirClass::Deep,
        forall|e: int|
            0 <= e < tree.len() && is_ancestor(tree, x, e) ==> #[trigger] classification(
                tree,
                allowed,
            )[e] == DirClass::Unclassified,
{
    let classes = classification(tree, allowed);
    assert forall|a: int| 0 <= a < tree.len() && is_ancestor(tree, a, x) implies #[trigger] classes[a]
        != DirClass::Deep by {
        if classes[a] == DirClass::Deep {
            lemma_below_deep(tree, allowed, a, x);
        }
    }
    if has_deep_ancestor(tree, classes, x) {
        lemma_deep_above(tree, classes, x);
    }
    assert forall|e: int| 0 <= e < tree.len() && is_ancestor(tree, x, e) implies #[trigger] classes[e]
        == DirClass::Unclassified by {
        lemma_unreached_below(tree, allowed, x, e);
    }
}

/// No directory is deep below a deep directory.
pub proof fn lemma_no_deep_below_deep(tree: Seq<EntryView>, allowed: Set<Seq<char>>, x: int)
    requires
        well_formed(tree),
        0 <= x < tree.len(),
        classification(tree, allowed)[x] == DirClass::Deep,
    ensures
        !has_deep_ancestor(tree, classification(tree, allowed), x),
{
    let classes = classification(tree, allowed);
    if has_deep_ancestor(tree, classes, x) {
        lemma_deep_above(tree, classes, x);
        lemma_below_deep(tree, allowed, deep_above(tree, classes, x), x);
    }
}

/// A rejected directory demotes what contains it and promotes its peers: the
/// directory `p` below the base in which a rejected directory `d` lies is
/// shallow, `d` has no class, and every admitted directory directly in `p`
/// below which nothing is rejected is deep, whether it comes before `d` or
/// after it.
pub proof fn lemma_rejected_child_demotes_parent(
    tree: Seq<EntryView>,
    allowed: Set<Seq<char>>,
    d: int,
    p: int,
)
    requires
        well_formed(tree),
        is_rejected_dir(tree, allowed, d),
        parent_of(tree, d) == Some(p),
        parent_of(tree, p) is Some,
    ensures
        classification(tree, allowed)[p] == DirClass::Shallow,
        classification(tree, allowed)[d] == DirClass::Unclassified,
        forall|s: int|
            parent_of(tree, s) == Some(p) && is_admitted_dir(tree, allowed, s) && !is_spoiled(
                tree,
                allowed,
                s,
            ) ==> #[trigger] classification(tree, allowed)[s] == DirClass::Deep,
{
    lemma_parent_in_listing(tree, d);
    lemma_spoiled_from_hit(tree, allowed, p, p + 1, d);
}

/// Every directory above a rejected one, the base left out, is shallow.
pub proof fn lemma_shallow_above_rejected(
    tree: Seq<EntryView>,
    allowed: Set<Seq<char>>,
    d: int,
    a: int,
)
    requires
        well_formed(tree),
        is_rejected_dir(tree, allowed, d),
        is_ancestor(tree, a, d),
        0 <= a < tree.len(),
        parent_of(tree, a) is Some,
    ensures
        classification(tree, allowed)[a] == DirClass::Shallow,
{
    lemma_spoils_above(tree, allowed, a, d);
    lemma_reached_above(tree, allowed, a, d);
    lemma_parent_in_listing(tree, a);
}

proof fn lemma_reached_above(tree: Seq<EntryView>, allowed: Set<Seq<char>>, a: int, e: int)
    requires
        well_formed(tree),
        0 <= e < tree.len(),
        is_ancestor(tree, a, e),
        is_reached(tree, allowed, e),
        tree[e].kind == EntryKind::Directory,
        !is_forced_static(tree, e),
    ensures
        is_reached(tree, allowed, a),
        !is_pruned(tree, allowed, a),
        tree[a].kind == EntryKind::Directory,
        !is_forced_static(tree, a),
    decreases e,
{
    lemma_parent_in_listing(tree, e);
    match parent_of(tree, e) {
        Some(p) => {
            if p != a {
                lemma_parent_in_listing(tree, p);
                lemma_reached_above(tree, allowed, a, p);
            }
        },
        None => {},
    }
}

/// One rejected directory in a directory of the base: where the walker
/// admitted the base, a directory `p` directly in it and every directory below
/// `p` but the one directory `d` directly in `p`, and none of them is named
/// `.git` or is the base's `public`, `p` is shallow, `d` has no class, and every
/// other directory directly in `p` is deep.
pub proof fn lemma_single_rejected_child(
    tree: Seq<EntryView>,
    allowed: Set<Seq<char>>,
    p: int,
    d: int,
)
    requires
        well_formed(tree),
        0 < p < d < tree.len(),
        allowed.contains(tree[0].path),
        tree[0].name != ".git"@,
        parent_of(tree, p) == Some(0int),
        tree[p].kind == EntryKind::Directory,
        tree[p].name != ".git"@,
        tree[p].name != "public"@,
        allowed.contains(tree[p].path),
        parent_of(tree, d) == Some(p),
        tree[d].kind == EntryKind::Directory,
        tree[d].name != ".git"@,
        !allowed.contains(tree[d].path),
        forall|e: int|
            0 <= e < tree.len() && e != d && is_ancestor(tree, p, e) && (#[trigger] tree[e]).kind
                == EntryKind::Directory ==> allowed.contains(tree[e].path) && tree[e].name
                != ".git"@,
    ensures
        classification(tree, allowed)[p] == DirClass::Shallow,
        classification(tree, allowed)[d] == DirClass::Unclassified,
        forall|s: int|
            0 <= s < tree.len() && s != d && parent_of(tree, s) == Some(p) && tree[s].kind
                == EntryKind::Directory ==> #[trigger] classification(tree, allowed)[s]
                == DirClass::Deep,
{
    lemma_parent_in_listing(tree, 0);
    lemma_parent_in_listing(tree, p);
    lemma_parent_in_listing(tree, d);
    assert(!is_forced_static(tree, 0));
    assert(is_reached(tree, allowed, 0));
    assert(!is_pruned(tree, allowed, 0));
    assert(!is_public_root(tree, p));
    assert(!is_forced_static(tree, p));
    assert(is_reached(tree, allowed, p));
    assert(!is_pruned(tree, allowed, p));
    assert(!is_public_root(tree, d));
    assert(is_rejected_dir(tree, allowed, d));
    lemma_rejected_child_demotes_parent(tree, allowed, d, p);
    assert forall|s: int|
        0 <= s < tree.len() && s != d && parent_of(tree, s) == Some(p) && tree[s].kind
            == EntryKind::Directory implies #[trigger] classification(tree, allowed)[s]
        == DirClass::Deep by {
        lemma_parent_precedes(tree, s);
        assert(is_ancestor(tree, p, s));
        assert(!is_public_root(tree, s));
        assert(is_admitted_dir(tree, allowed, s));
        if is_spoiled(tree, allowed, s) {
            lemma_rejected_below(tree, allowed, s, s + 1);
            let w = rejected_below(tree, allowed, s, s + 1);
            lemma_ancestor_transitive(tree, p, s, w);
            if w == d {
                lemma_ancestor_precedes(tree, s, d);
            }
        }
    }
}

/// The base of every resolved glob is among the admitted directories, and its
/// pattern is the shallow or the deep one.
pub proof fn lemma_resolved_globs_admitted(tree: Seq<EntryView>, allowed: Set<Seq<char>>, m: int)
    requires
        0 <= m < resolved_globs(tree, allowed).len(),
    ensures
        allowed.contains(resolved_globs(tree, allowed)[m].base),
        resolved_globs(tree, allowed)[m].pattern == shallow_pattern_text() || resolved_globs(
            tree,
            allowed,
        )[m].pattern == deep_pattern_text(),
{
    let classes = classification(tree, allowed);
    let n = tree.len() as int;
    let shallow = globs_of_class(tree, classes, DirClass::Shallow, shallow_pattern_text(), n);
    if m < shallow.len() {
        lemma_glob_source(tree, classes, DirClass::Shallow, shallow_pattern_text(), n, m);
        lemma_glob_bases_are_admitted(
            tree,
            allowed,
            glob_source(classes, DirClass::Shallow, n, m),
        );
    } else {
        let at = m - shallow.len();
        lemma_glob_source(tree, classes, DirClass::Deep, deep_pattern_text(), n, at);
        lemma_glob_bases_are_admitted(tree, allowed, glob_source(classes, DirClass::Deep, n, at));
    }
}

/// The shallow pattern is not the deep one.
pub proof fn lemma_patterns_differ()
    ensures
        shallow_pattern_text() != deep_pattern_text(),
{
    reveal_strlit("*/*.{");
    reveal_strlit("**/*.{");
    let shallow = shallow_pattern_text();
    let deep = deep_pattern_text();
    assert(shallow[1] == '/');
    assert(deep[1] == '*');
}

/// No deep glob is over a directory that the walker did not admit: where `x`
/// is a directory that is missing from the admitted ones, and lies neither in
/// the forced-static subtree nor in a directory named `.git`, no glob has its
/// base at `x`, and no glob with the deep pattern has its base at a directory
/// above `x`.
pub proof fn lemma_no_deep_glob_over_rejected(
    tree: Seq<EntryView>,
    allowed: Set<Seq<char>>,
    x: int,
    m: int,
)
    requires
        well_formed(tree),
        0 <= x < tree.len(),
        tree[x].kind == EntryKind::Directory,
        !allowed.contains(tree[x].path),
        !is_forced_static(tree, x),
        !is_git_dir(tree, x),
        !inside_git(tree, x),
        0 <= m < resolved_globs(tree, allowed).len(),
    ensures
        resolved_globs(tree, allowed)[m].base != tree[x].path,
        resolved_globs(tree, allowed)[m].pattern == deep_pattern_text() ==> forall|a: int|
            0 <= a < tree.len() && is_ancestor(tree, a, x) ==> resolved_globs(tree, allowed)[m].base
                != (#[trigger] tree[a]).path,
{
    let classes = classification(tree, allowed);
    let n = tree.len() as int;
    let glob = resolved_globs(tree, allowed)[m];
    let shallow = globs_of_class(tree, classes, DirClass::Shallow, shallow_pattern_text(), n);
    lemma_patterns_differ();
    lemma_resolved_globs_admitted(tree, allowed, m);
    lemma_no_glob_over_rejected(tree, allowed, x);
    if m >= shallow.len() {
        let at = m - shallow.len();
        lemma_glob_source(tree, classes, DirClass::Deep, deep_pattern_text(), n, at);
        let source = glob_source(classes, DirClass::Deep, n, at);
        assert forall|a: int| 0 <= a < tree.len() && is_ancestor(tree, a, x) implies glob.base != (
        #[trigger] tree[a]).path by {
            assert(classes[a] != DirClass::Deep);
            if a < source {
                assert(tree[a].path != tree[source].path);
            } else if source < a {
                assert(tree[source].path != tree[a].path);
            }
        }
    } else {
        lemma_glob_source(tree, classes, DirClass::Shallow, shallow_pattern_text(), n, m);
    }
}

/// The directory has a glob of its own or lies below a deep directory.
pub open spec fn watched(tree: Seq<EntryView>, classes: Seq<DirClass>, d: int) -> bool {
    &&& 0 <= d < classes.len()
    &&& (classes[d] == DirClass::Deep || classes[d] == DirClass::Shallow || has_deep_ancestor(
        tree,
        classes,
        d,
    ))
}

/// Every admitted directory below the base is watched.
pub proof fn lemma_admitted_is_watched(tree: Seq<EntryView>, allowed: Set<Seq<char>>, d: int)
    requires
        well_formed(tree),
        is_admitted_dir(tree, allowed, d),
        parent_of(tree, d) is Some,
    ensures
        watched(tree, classification(tree, allowed), d),
    decreases d,
{
    lemma_parent_in_listing(tree, d);
    match parent_of(tree, d) {
        Some(p) => {
            if !is_spoiled(tree, allowed, d) && parent_of(tree, p) is Some && !is_spoiled(
                tree,
                allowed,
                p,
            ) {
                lemma_parent_in_listing(tree, p);
                assert(is_admitted_dir(tree, allowed, p));
                lemma_admitted_is_watched(tree, allowed, p);
            }
        },
        None => {},
    }
}

/// Where the walker admitted the base, and the base is not named `.git`, the
/// traversal reaches every directory at or below `public` that does not lie in
/// a directory named `.git`: whether the walker admitted it does not count.
pub proof fn lemma_public_is_reached(tree: Seq<EntryView>, allowed: Set<Seq<char>>, i: int)
    requires
        well_formed(tree),
        0 <= i < tree.len(),
        allowed.contains(tree[0].path),
        tree[0].name != ".git"@,
        is_forced_static(tree, i),
        !inside_git(tree, i),
    ensures
        is_reached(tree, allowed, i),
    decreases i,
{
    lemma_parent_in_listing(tree, i);
    match parent_of(tree, i) {
        Some(p) => {
            lemma_parent_in_listing(tree, p);
            if is_public_root(tree, i) {
                assert(p == 0);
                assert(!is_forced_static(tree, 0));
                assert(is_reached(tree, allowed, 0));
            } else {
                lemma_public_is_reached(tree, allowed, p);
            }
        },
        None => {},
    }
}

/// The entry that the `m`-th of the globs of class `class` among the first `k`
/// entries is made for.
pub open spec fn glob_source(classes: Seq<DirClass>, class: DirClass, k: int, m: int) -> int
    decreases k,
{
    if k <= 0 || k > classes.len() {
        -1
    } else if classes[k - 1] == class && m == class_count(classes, class, k - 1) {
        k - 1
    } else {
        glob_source(classes, class, k - 1, m)
    }
}

/// How many of the first `k` entries have class `class`.
pub open spec fn class_count(classes: Seq<DirClass>, class: DirClass, k: int) -> int
    decreases k,
{
    if k <= 0 || k > classes.len() {
        0
    } else if classes[k - 1] == class {
        class_count(classes, class, k - 1) + 1
    } else {
        class_count(classes, class, k - 1)
    }
}

proof fn lemma_glob_source(
    tree: Seq<EntryView>,
    classes: Seq<DirClass>,
    class: DirClass,
    pattern: Seq<char>,
    k: int,
    m: int,
)
    requires
        classes.len() == tree.len(),
        0 <= k <= tree.len(),
        0 <= m < globs_of_class(tree, classes, class, pattern, k).len(),
    ensures
        globs_of_class(tree, classes, class, pattern, k).len() == class_count(classes, class, k),
        0 <= glob_source(classes, class, k, m) < k,
        classes[glob_source(classes, class, k, m)] == class,
        globs_of_class(tree, classes, class, pattern, k)[m].base == tree[glob_source(
            classes,
            class,
            k,
            m,
        )].path,
        globs_of_class(tree, classes, class, pattern, k)[m].pattern == pattern,
    decreases k,
{
    lemma_glob_count(tree, classes, class, pattern, k);
    if k > 0 {
        lemma_glob_count(tree, classes, class, pattern, k - 1);
        if !(classes[k - 1] == class && m == class_count(classes, class, k - 1)) {
            lemma_glob_source(tree, classes, class, pattern, k - 1, m);
        }
    }
}

proof fn lemma_glob_count(
    tree: Seq<EntryView>,
    classes: Seq<DirClass>,
    class: DirClass,
    pattern: Seq<char>,
    k: int,
)
    requires
        classes.len() == tree.len(),
        0 <= k <= tree.len(),
    ensures
        globs_of_class(tree, classes, class, pattern, k).len() == class_count(classes, class, k),
    decreases k,
{
    if k > 0 {
        lemma_glob_count(tree, classes, class, pattern, k - 1);
    }
}

proof fn lemma_glob_source_order(
    classes: Seq<DirClass>,
    class: DirClass,
    k: int,
    a: int,
    b: int,
)
    requires
        0 <= k <= classes.len(),
        0 <= a < b < class_count(classes, class, k),
    ensures
        glob_source(classes, class, k, a) < glob_source(classes, class, k, b),
    decreases k,
{
    if k > 0 {
        if classes[k - 1] == class && b == class_count(classes, class, k - 1) {
            lemma_glob_source_bound(classes, class, k - 1, a);
        } else {
            lemma_glob_source_order(classes, class, k - 1, a, b);
        }
    }
}

proof fn lemma_glob_source_bound(classes: Seq<DirClass>, class: DirClass, k: int, m: int)
    requires
        0 <= k <= classes.len(),
        0 <= m < class_count(classes, class, k),
    ensures
        0 <= glob_source(classes, class, k, m) < k,
    decreases k,
{
    if k > 0 {
        if !(classes[k - 1] == class && m == class_count(classes, class, k - 1)) {
            lemma_glob_source_bound(classes, class, k - 1, m);
        }
    }
}

/// Every directory is watched in one way at most: no two of the resolved
/// globs have the same base, and each has its base in a directory that is
/// shallow, with the shallow pattern, or deep, with the deep pattern.
pub proof fn lemma_one_glob_per_directory(
    tree: Seq<EntryView>,
    allowed: Set<Seq<char>>,
    a: int,
    b: int,
)
    requires
        well_formed(tree),
        0 <= a < b < resolved_globs(tree, allowed).len(),
    ensures
        resolved_globs(tree, allowed)[a].base != resolved_globs(tree, allowed)[b].base,
{
    let classes = classification(tree, allowed);
    let n = tree.len() as int;
    let shallow = globs_of_class(tree, classes, DirClass::Shallow, shallow_pattern_text(), n);
    let deep = globs_of_class(tree, classes, DirClass::Deep, deep_pattern_text(), n);
    lemma_glob_count(tree, classes, DirClass::Shallow, shallow_pattern_text(), n);
    lemma_glob_count(tree, classes, DirClass::Deep, deep_pattern_text(), n);
    let source_a = if a < shallow.len() {
        lemma_glob_source(tree, classes, DirClass::Shallow, shallow_pattern_text(), n, a);
        glob_source(classes, DirClass::Shallow, n, a)
    } else {
        lemma_glob_source(tree, classes, DirClass::Deep, deep_pattern_text(), n, a - shallow.len());
        glob_source(classes, DirClass::Deep, n, a - shallow.len())
    };
    let source_b = if b < shallow.len() {
        lemma_glob_source(tree, classes, DirClass::Shallow, shallow_pattern_text(), n, b);
        glob_source(classes, DirClass::Shallow, n, b)
    } else {
        lemma_glob_source(tree, classes, DirClass::Deep, deep_pattern_text(), n, b - shallow.len());
        glob_source(classes, DirClass::Deep, n, b - shallow.len())
    };
    if b < shallow.len() {
        lemma_glob_source_order(classes, DirClass::Shallow, n, a, b);
    } else if a >= shallow.len() {
        lemma_glob_source_order(classes, DirClass::Deep, n, a - shallow.len(), b - shallow.len());
    }
    assert(source_a != source_b);
    assert(resolved_globs(tree, allowed)[a].base == tree[source_a].path);
    assert(resolved_globs(tree, allowed)[b].base == tree[source_b].path);
    if source_a < source_b {
        assert(tree[source_a].path != tree[source_b].path);
    } else {
        assert(tree[source_b].path != tree[source_a].path);
    }
}

/// Entry `f` lies directly in the base, where the pattern for what lies
/// directly in a base watches it.
pub open spec fn directly_in_base(tree: Seq<EntryView>, f: int) -> bool {
    match parent_of(tree, f) {
        Some(d) => parent_of(tree, d) is None,
        None => false,
    }
}

/// Entry `f` lies exactly one directory below a shallow directory, where that
/// directory's glob reaches it.
pub open spec fn below_shallow(tree: Seq<EntryView>, classes: Seq<DirClass>, f: int) -> bool {
    match parent_of(tree, f) {
        Some(d) => match parent_of(tree, d) {
            Some(e) => 0 <= e < classes.len() && classes[e] == DirClass::Shallow,
            None => false,
        },
        None => false,
    }
}

/// Entry `f` lies directly in a shallow directory that lies directly in the
/// base: no glob reaches there.
pub open spec fn in_shallow_below_base(tree: Seq<EntryView>, classes: Seq<DirClass>, f: int) -> bool {
    match parent_of(tree, f) {
        Some(d) => 0 <= d < classes.len() && classes[d] == DirClass::Shallow && directly_in_base(
            tree,
            d,
        ),
        None => false,
    }
}

/// Every entry that the traversal reaches outside the forced-static subtree
/// is within reach of a glob: it lies directly in the base, or below a deep
/// directory, or one directory below a shallow one. The one exception is what
/// lies directly in a shallow directory that lies directly in the base.
pub proof fn lemma_reached_entries_are_watched(
    tree: Seq<EntryView>,
    allowed: Set<Seq<char>>,
    f: int,
    d: int,
)
    requires
        well_formed(tree),
        0 <= f < tree.len(),
        is_reached(tree, allowed, f),
        parent_of(tree, f) == Some(d),
        !is_forced_static(tree, d),
    ensures
        directly_in_base(tree, f) || has_deep_ancestor(tree, classification(tree, allowed), f)
            || below_shallow(tree, classification(tree, allowed), f) || in_shallow_below_base(
            tree,
            classification(tree, allowed),
            f,
        ),
{
    let classes = classification(tree, allowed);
    lemma_parent_in_listing(tree, f);
    lemma_parent_in_listing(tree, d);
    if d > 0 {
        assert(is_admitted_dir(tree, allowed, d));
        lemma_admitted_is_watched(tree, allowed, d);
        match parent_of(tree, d) {
            Some(e) => {
                lemma_parent_in_listing(tree, e);
                if classes[d] == DirClass::Shallow && !has_deep_ancestor(tree, classes, d) && e > 0 {
                    assert(is_admitted_dir(tree, allowed, e));
                    lemma_admitted_is_watched(tree, allowed, e);
                }
            },
            None => {},
        }
    }
}

} // verus!
