//! The glob resolver: from the listing of a base directory and the directories
//! that the source walker admitted, the deep and shallow globs that a watcher
//! needs.

use vstd::prelude::*;
use vstd::string::StringExecFns;
use fxhash::FxHashSet;
use crate::collections::{path_set_contains, path_set_insert, path_set_items, path_set_new};
use crate::glob::{
    deep_pattern,
    deep_pattern_text,
    glob_views,
    shallow_pattern,
    shallow_pattern_text,
    GlobEntry,
    GlobEntryView,
};
use crate::paths::text_views;
use crate::tree::{
    holds_parents,
    lemma_parent_slot,
    parent_of,
    DirectoryTree,
    EntryKind,
    EntryView,
};

verus! {

/// How a directory of the listing is watched.
#[derive(Clone, Copy, Debug, PartialEq, Eq, Structural)]
pub enum DirClass {
    /// Not watched by a glob of its own.
    Unclassified,
    /// Watched by a glob that reaches exactly one directory down.
    Shallow,
    /// Watched by a glob that reaches any depth.
    Deep,
    /// Watched file by file.
    ForcedStatic,
}

/// Entry `i` is the directory `public` directly below the base.
pub open spec fn is_public_root(tree: Seq<EntryView>, i: int) -> bool {
    &&& 0 <= i < tree.len()
    &&& tree[i].kind == EntryKind::Directory
    &&& tree[i].name == "public"@
    &&& match parent_of(tree, i) {
        Some(p) => parent_of(tree, p) is None,
        None => false,
    }
}

/// Entry `i` is a directory that is watched file by file: the directory `public`
/// directly below the base, or a directory anywhere below it.
pub open spec fn is_forced_static(tree: Seq<EntryView>, i: int) -> bool
    decreases i + 1,
{
    &&& 0 <= i < tree.len()
    &&& tree[i].kind == EntryKind::Directory
    &&& (is_public_root(tree, i) || match parent_of(tree, i) {
        Some(p) => 0 <= p < i && is_forced_static(tree, p),
        None => false,
    })
}

/// The traversal does not descend into entry `i`: it is a directory named
/// `.git`, or a directory outside the forced-static subtree that the walker did
/// not admit.
pub open spec fn is_pruned(tree: Seq<EntryView>, allowed: Set<Seq<char>>, i: int) -> bool {
    &&& 0 <= i < tree.len()
    &&& tree[i].kind == EntryKind::Directory
    &&& (tree[i].name == ".git"@ || (!is_forced_static(tree, i) && !allowed.contains(
        tree[i].path,
    )))
}

/// The traversal comes to entry `i`: it descends into every directory that
/// contains it.
pub open spec fn is_reached(tree: Seq<EntryView>, allowed: Set<Seq<char>>, i: int) -> bool
    decreases i + 1,
{
    &&& 0 <= i < tree.len()
    &&& match parent_of(tree, i) {
        None => true,
        Some(p) => 0 <= p < i && is_reached(tree, allowed, p) && !is_pruned(tree, allowed, p),
    }
}

/// Entry `i` is a directory that the traversal reaches and the walker
/// admitted: it is neither named `.git` nor in the forced-static subtree.
pub open spec fn is_admitted_dir(tree: Seq<EntryView>, allowed: Set<Seq<char>>, i: int) -> bool {
    &&& 0 <= i < tree.len()
    &&& tree[i].kind == EntryKind::Directory
    &&& tree[i].name != ".git"@
    &&& is_reached(tree, allowed, i)
    &&& !is_forced_static(tree, i)
    &&& allowed.contains(tree[i].path)
}

/// Entry `i` is a directory that the traversal reaches and the walker did not
/// admit: it is neither named `.git` nor in the forced-static subtree.
pub open spec fn is_rejected_dir(tree: Seq<EntryView>, allowed: Set<Seq<char>>, i: int) -> bool {
    &&& 0 <= i < tree.len()
    &&& tree[i].kind == EntryKind::Directory
    &&& tree[i].name != ".git"@
    &&& is_reached(tree, allowed, i)
    &&& !is_forced_static(tree, i)
    &&& !allowed.contains(tree[i].path)
}

/// Among the entries from `k` on, one that lies directly in `a` is a rejected
/// directory or has one below it.
pub open spec fn spoiled_from(tree: Seq<EntryView>, allowed: Set<Seq<char>>, a: int, k: int) -> bool
    decreases tree.len() - a, tree.len() - k,
{
    if !(0 <= a < k) || k >= tree.len() {
        false
    } else {
        ||| parent_of(tree, k) == Some(a) && (is_rejected_dir(tree, allowed, k) || spoiled_from(
            tree,
            allowed,
            k,
            k + 1,
        ))
        ||| spoiled_from(tree, allowed, a, k + 1)
    }
}

/// A rejected directory lies below entry `a`, at any depth: a deep glob at `a`
/// would reach into it.
pub open spec fn is_spoiled(tree: Seq<EntryView>, allowed: Set<Seq<char>>, a: int) -> bool {
    spoiled_from(tree, allowed, a, a + 1)
}

/// How entry `i` is watched.
///
/// Only a directory that the traversal reaches, and that is not named `.git`,
/// has a class. In the forced-static subtree it is forced-static. One that the
/// walker rejected has none, nor has the base. An admitted directory with a
/// rejected one below it is shallow. Any other admitted directory is deep
/// where the directory that contains it is the base or is shallow, and has no
/// class where a deep glob above reaches it already.
pub open spec fn class_of(tree: Seq<EntryView>, allowed: Set<Seq<char>>, i: int) -> DirClass {
    if !(0 <= i < tree.len()) || tree[i].kind != EntryKind::Directory || !is_reached(
        tree,
        allowed,
        i,
    ) || tree[i].name == ".git"@ {
        DirClass::Unclassified
    } else if is_forced_static(tree, i) {
        DirClass::ForcedStatic
    } else if !allowed.contains(tree[i].path) {
        DirClass::Unclassified
    } else {
        match parent_of(tree, i) {
            None => DirClass::Unclassified,
            Some(p) => {
                if is_spoiled(tree, allowed, i) {
                    DirClass::Shallow
                } else if parent_of(tree, p) is None || is_spoiled(tree, allowed, p) {
                    DirClass::Deep
                } else {
                    DirClass::Unclassified
                }
            },
        }
    }
}

/// The class of every entry of the listing.
pub open spec fn classification(tree: Seq<EntryView>, allowed: Set<Seq<char>>) -> Seq<DirClass> {
    Seq::new(tree.len(), |i: int| class_of(tree, allowed, i))
}

/// One glob with `pattern` for each of the first `k` entries that has class
/// `class`, in the order of the listing.
pub open spec fn globs_of_class(
    tree: Seq<EntryView>,
    classes: Seq<DirClass>,
    class: DirClass,
    pattern: Seq<char>,
    k: int,
) -> Seq<GlobEntryView>
    decreases k,
{
    if k <= 0 || k > tree.len() || k > classes.len() {
        Seq::empty()
    } else {
        let before = globs_of_class(tree, classes, class, pattern, k - 1);
        if classes[k - 1] == class {
            before.push(GlobEntryView { base: tree[k - 1].path, pattern: pattern })
        } else {
            before
        }
    }
}

/// The globs of a listing: a shallow glob for each shallow directory, then a
/// deep glob for each deep directory.
pub open spec fn resolved_globs(tree: Seq<EntryView>, allowed: Set<Seq<char>>) -> Seq<
    GlobEntryView,
> {
    let classes = classification(tree, allowed);
    globs_of_class(tree, classes, DirClass::Shallow, shallow_pattern_text(), tree.len() as int)
        + globs_of_class(tree, classes, DirClass::Deep, deep_pattern_text(), tree.len() as int)
}

/// Resolves the globs of one base directory.
pub struct GlobResolver {
    tree: DirectoryTree,
    allowed_paths: FxHashSet<String>,
}

impl GlobResolver {
    /// The listing of the base directory.
    pub closed spec fn tree(&self) -> Seq<EntryView> {
        self.tree@
    }

    /// The paths of the directories that the walker admitted.
    pub closed spec fn allowed(&self) -> Set<Seq<char>> {
        path_set_items(self.allowed_paths)
    }

    /// A resolver for the listing `tree`, where the walker admitted `dirs`.
    pub fn new(tree: DirectoryTree, dirs: &Vec<String>) -> (resolver: Self)
        ensures
            resolver.tree() == tree@,
            resolver.allowed() == text_views(dirs@).to_set(),
    {
        let mut allowed_paths = path_set_new();
        let n: usize = dirs.len();
        let mut i: usize = 0;
        while i < n
            invariant
                n == dirs@.len(),
                0 <= i <= n,
                path_set_items(allowed_paths) == text_views(dirs@).take(i as int).to_set(),
            decreases n - i,
        {
            let ghost before = text_views(dirs@).take(i as int);
            let ghost after = text_views(dirs@).take(i as int + 1);
            let _ = path_set_insert(&mut allowed_paths, dirs[i].clone());
            proof {
                assert(after =~= before.push(dirs@[i as int]@));
                assert(after.to_set() =~= before.to_set().insert(dirs@[i as int]@)) by {
                    assert forall|x: Seq<char>| after.to_set().contains(x) <==> before.to_set().insert(
                        dirs@[i as int]@,
                    ).contains(x) by {
                        if after.to_set().contains(x) {
                            let k = choose|k: int| 0 <= k < after.len() && after[k] == x;
                            if k < i {
                                assert(before[k] == x);
                            }
                        }
                        if before.to_set().contains(x) {
                            let k = choose|k: int| 0 <= k < before.len() && before[k] == x;
                            assert(after[k] == x);
                        }
                        if x == dirs@[i as int]@ {
                            assert(after[i as int] == x);
                        }
                    }
                }
            }
            i = i + 1;
        }
        proof {
            assert(text_views(dirs@).take(n as int) =~= text_views(dirs@));
            assert(Seq::<Seq<char>>::empty().to_set() =~= Set::<Seq<char>>::empty());
        }
        GlobResolver { tree, allowed_paths }
    }

    /// The class of every entry of the listing.
    pub fn classify(&self) -> (classes: Vec<DirClass>)
        ensures
            classes@ == classification(self.tree(), self.allowed()),
            classes@.len() == self.tree().len(),
    {
        let tree = &self.tree;
        let ghost allowed = path_set_items(self.allowed_paths);
        let n: usize = tree.entries.len();
        let parents = tree.parent_indices();
        let git = String::from_str(".git");
        let public = String::from_str("public");
        // what the traversal reaches, and what it finds there
        let mut reached: Vec<bool> = Vec::new();
        let mut forced: Vec<bool> = Vec::new();
        let mut pruned: Vec<bool> = Vec::new();
        let mut admitted: Vec<bool> = Vec::new();
        let mut rejected: Vec<bool> = Vec::new();
        let mut i: usize = 0;
        while i < n
            invariant
                n == tree@.len(),
                holds_parents(tree@, parents@),
                git@ == ".git"@,
                public@ == "public"@,
                allowed == path_set_items(self.allowed_paths),
                0 <= i <= n,
                reached@.len() == i,
                forced@.len() == i,
                pruned@.len() == i,
                admitted@.len() == i,
                rejected@.len() == i,
                forall|k: int| 0 <= k < i ==> #[trigger] reached@[k] == is_reached(tree@, allowed, k),
                forall|k: int| 0 <= k < i ==> #[trigger] forced@[k] == is_forced_static(tree@, k),
                forall|k: int| 0 <= k < i ==> #[trigger] pruned@[k] == is_pruned(tree@, allowed, k),
                forall|k: int|
                    0 <= k < i ==> #[trigger] admitted@[k] == is_admitted_dir(tree@, allowed, k),
                forall|k: int|
                    0 <= k < i ==> #[trigger] rejected@[k] == is_rejected_dir(tree@, allowed, k),
            decreases n - i,
        {
            let entry = &tree.entries[i];
            proof {
                assert(tree@[i as int] == entry@);
                lemma_parent_slot(tree@, i as int);
                match parents@[i as int] {
                    Some(p) => {
                        lemma_parent_slot(tree@, p as int);
                    },
                    None => {},
                }
            }
            let is_dir: bool = entry.kind == EntryKind::Directory;
            let named_git: bool = entry.name == git;
            let mut reached_here: bool = true;
            let mut below_forced: bool = false;
            let mut below_base: bool = false;
            match parents[i] {
                None => {},
                Some(p) => {
                    reached_here = reached[p] && !pruned[p];
                    below_forced = forced[p];
                    below_base = parents[p].is_none();
                },
            }
            let public_root: bool = is_dir && entry.name == public && below_base;
            let forced_here: bool = is_dir && (public_root || below_forced);
            let in_dirs: bool = path_set_contains(&self.allowed_paths, &entry.path);
            let pruned_here: bool = is_dir && (named_git || (!forced_here && !in_dirs));
            let plain: bool = is_dir && !named_git && reached_here && !forced_here;
            proof {
                assert(public_root == is_public_root(tree@, i as int));
                assert(forced_here == is_forced_static(tree@, i as int));
                assert(reached_here == is_reached(tree@, allowed, i as int));
                assert(pruned_here == is_pruned(tree@, allowed, i as int));
            }
            reached.push(reached_here);
            forced.push(forced_here);
            pruned.push(pruned_here);
            admitted.push(plain && in_dirs);
            rejected.push(plain && !in_dirs);
            i = i + 1;
        }
        // below which directories a rejected one lies
        let mut spoiled: Vec<bool> = Vec::new();
        let mut filled: usize = 0;
        while filled < n
            invariant
                0 <= filled <= n,
                spoiled@.len() == filled,
                forall|k: int| 0 <= k < filled ==> !spoiled@[k],
            decreases n - filled,
        {
            spoiled.push(false);
            filled = filled + 1;
        }
        let mut left: usize = n;
        while left > 0
            invariant
                n == tree@.len(),
                holds_parents(tree@, parents@),
                0 <= left <= n,
                spoiled@.len() == n,
                rejected@.len() == n,
                forall|k: int|
                    0 <= k < n ==> #[trigger] rejected@[k] == is_rejected_dir(tree@, allowed, k),
                forall|a: int|
                    0 <= a < n ==> #[trigger] spoiled@[a] == spoiled_from(
                        tree@,
                        allowed,
                        a,
                        if a + 1 > left {
                            a + 1
                        } else {
                            left as int
                        },
                    ),
            decreases left,
        {
            let at: usize = left - 1;
            proof {
                lemma_parent_slot(tree@, at as int);
            }
            let ghost before = spoiled@;
            if rejected[at] || spoiled[at] {
                match parents[at] {
                    Some(p) => {
                        spoiled.set(p, true);
                    },
                    None => {},
                }
            }
            proof {
                assert forall|a: int| 0 <= a < n implies #[trigger] spoiled@[a] == spoiled_from(
                    tree@,
                    allowed,
                    a,
                    if a + 1 > at {
                        a + 1
                    } else {
                        at as int
                    },
                ) by {
                    if a < at {
                        assert(before[a] == spoiled_from(tree@, allowed, a, at as int + 1));
                        assert(before[at as int] == spoiled_from(
                            tree@,
                            allowed,
                            at as int,
                            at as int + 1,
                        ));
                    } else {
                        assert(spoiled@[a] == before[a]);
                    }
                }
            }
            left = at;
        }
        // the classes
        let mut classes: Vec<DirClass> = Vec::new();
        let mut j: usize = 0;
        while j < n
            invariant
                n == tree@.len(),
                holds_parents(tree@, parents@),
                git@ == ".git"@,
                allowed == path_set_items(self.allowed_paths),
                0 <= j <= n,
                classes@.len() == j,
                reached@.len() == n,
                forced@.len() == n,
                admitted@.len() == n,
                spoiled@.len() == n,
                forall|k: int| 0 <= k < n ==> #[trigger] reached@[k] == is_reached(tree@, allowed, k),
                forall|k: int| 0 <= k < n ==> #[trigger] forced@[k] == is_forced_static(tree@, k),
                forall|k: int|
                    0 <= k < n ==> #[trigger] admitted@[k] == is_admitted_dir(tree@, allowed, k),
                forall|k: int| 0 <= k < n ==> #[trigger] spoiled@[k] == is_spoiled(tree@, allowed, k),
                forall|k: int| 0 <= k < j ==> #[trigger] classes@[k] == class_of(tree@, allowed, k),
            decreases n - j,
        {
            let entry = &tree.entries[j];
            proof {
                assert(tree@[j as int] == entry@);
                lemma_parent_slot(tree@, j as int);
                match parents@[j as int] {
                    Some(p) => {
                        lemma_parent_slot(tree@, p as int);
                    },
                    None => {},
                }
            }
            let is_dir: bool = entry.kind == EntryKind::Directory;
            let named_git: bool = entry.name == git;
            let mut class = DirClass::Unclassified;
            if is_dir && reached[j] && !named_git {
                if forced[j] {
                    class = DirClass::ForcedStatic;
                } else if admitted[j] {
                    match parents[j] {
                        None => {},
                        Some(p) => {
                            if spoiled[j] {
                                class = DirClass::Shallow;
                            } else if parents[p].is_none() || spoiled[p] {
                                class = DirClass::Deep;
                            }
                        },
                    }
                }
            }
            classes.push(class);
            j = j + 1;
        }
        assert(classes@ =~= classification(tree@, allowed));
        classes
    }

    /// The globs of the listing.
    pub fn resolve(&mut self) -> (globs: Vec<GlobEntry>)
        ensures
            final(self).tree() == old(self).tree(),
            final(self).allowed() == old(self).allowed(),
            glob_views(globs@) == resolved_globs(old(self).tree(), old(self).allowed()),
            forall|m: int|
                0 <= m < globs@.len() ==> old(self).allowed().contains((#[trigger] globs@[m]).base@),
    {
        let classes = self.classify();
        let shallow = shallow_pattern();
        let deep = deep_pattern();
        let mut globs: Vec<GlobEntry> = Vec::new();
        push_globs_of_class(&self.tree, &classes, DirClass::Shallow, &shallow, &mut globs);
        push_globs_of_class(&self.tree, &classes, DirClass::Deep, &deep, &mut globs);
        proof {
            assert(Seq::<GlobEntryView>::empty() + globs_of_class(
                self.tree@,
                classes@,
                DirClass::Shallow,
                shallow@,
                self.tree@.len() as int,
            ) =~= globs_of_class(
                self.tree@,
                classes@,
                DirClass::Shallow,
                shallow@,
                self.tree@.len() as int,
            ));
            assert forall|m: int| 0 <= m < globs@.len() implies self.allowed().contains(
                (#[trigger] globs@[m]).base@,
            ) by {
                crate::invariants::lemma_resolved_globs_admitted(self.tree(), self.allowed(), m);
                assert(glob_views(globs@)[m].base == globs@[m].base@);
            }
        }
        globs
    }
}

fn push_globs_of_class(
    tree: &DirectoryTree,
    classes: &Vec<DirClass>,
    class: DirClass,
    pattern: &String,
    globs: &mut Vec<GlobEntry>,
)
    requires
        classes@.len() == tree@.len(),
    ensures
        glob_views(final(globs)@) == glob_views(old(globs)@) + globs_of_class(
            tree@,
            classes@,
            class,
            pattern@,
            tree@.len() as int,
        ),
{
    let n: usize = tree.entries.len();
    let ghost before = glob_views(globs@);
    let mut i: usize = 0;
    proof {
        assert(glob_views(globs@) =~= before + globs_of_class(tree@, classes@, class, pattern@, 0));
    }
    while i < n
        invariant
            n == tree@.len(),
            classes@.len() == n,
            0 <= i <= n,
            glob_views(globs@) == before + globs_of_class(
                tree@,
                classes@,
                class,
                pattern@,
                i as int,
            ),
        decreases n - i,
    {
        let ghost sofar = glob_views(globs@);
        if classes[i] == class {
            let entry = GlobEntry { base: tree.entries[i].path.clone(), pattern: pattern.clone() };
            globs.push(entry);
            proof {
                assert(tree@[i as int] == tree.entries@[i as int]@);
                assert(glob_views(globs@) =~= sofar.push(
                    GlobEntryView { base: tree@[i as int].path, pattern: pattern@ },
                ));
                assert(glob_views(globs@) =~= before + globs_of_class(
                    tree@,
                    classes@,
                    class,
                    pattern@,
                    i as int + 1,
                ));
            }
        }
        i = i + 1;
    }
}

/// The globs that watch the base directory listed in `tree`, where the walker
/// admitted the directories `dirs`.
pub fn resolve_globs(tree: DirectoryTree, dirs: &Vec<String>) -> (globs: Vec<GlobEntry>)
    ensures
        glob_views(globs@) == resolved_globs(tree@, text_views(dirs@).to_set()),
        forall|m: int|
            0 <= m < globs@.len() ==> text_views(dirs@).to_set().contains(
                (#[trigger] globs@[m]).base@,
            ),
{
    let mut resolver = GlobResolver::new(tree, dirs);
    resolver.resolve()
}

} // verus!
