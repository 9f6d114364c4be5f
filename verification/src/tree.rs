//! A directory tree held in memory: the listing that a depth-first walk of a
//! base directory yields, children sorted with directories before files and
//! then by name.

use vstd::prelude::*;

verus! {

/// What a listed entry is.
#[derive(Clone, Copy, Debug, PartialEq, Eq, Structural)]
pub enum EntryKind {
    /// A directory.
    Directory,
    /// A regular file, or a link that leads to one.
    File,
    /// Anything else.
    Other,
}

/// One entry of a listing.
#[derive(Debug)]
pub struct TreeEntry {
    /// The full path of the entry.
    pub path: String,
    /// The last component of the path.
    pub name: String,
    /// How far below the base the entry lies; the base itself has depth 0.
    pub depth: usize,
    /// What the entry is.
    pub kind: EntryKind,
}

/// The mathematical value of a [`TreeEntry`].
pub struct EntryView {
    pub path: Seq<char>,
    pub name: Seq<char>,
    pub depth: nat,
    pub kind: EntryKind,
}

impl View for TreeEntry {
    type V = EntryView;

    open spec fn view(&self) -> EntryView {
        EntryView { path: self.path@, name: self.name@, depth: self.depth as nat, kind: self.kind }
    }
}

/// A depth-first, pre-order listing of a base directory.
#[derive(Debug)]
pub struct DirectoryTree {
    /// The entries in the order of the walk; the first one is the base.
    pub entries: Vec<TreeEntry>,
}

impl View for DirectoryTree {
    type V = Seq<EntryView>;

    open spec fn view(&self) -> Seq<EntryView> {
        Seq::new(self.entries@.len(), |i: int| self.entries@[i]@)
    }
}

/// The nearest entry at or before `j` that lies less deep than entry `i`.
pub open spec fn nearest_shallower(tree: Seq<EntryView>, i: int, j: int) -> Option<int>
    decreases j + 1,
{
    if j < 0 || j >= tree.len() || !(0 <= i < tree.len()) {
        None
    } else if tree[j].depth < tree[i].depth {
        Some(j)
    } else {
        nearest_shallower(tree, i, j - 1)
    }
}

/// The entry that contains entry `i`: the nearest earlier entry that lies less
/// deep. The base, and any entry that no earlier one can contain, has none.
pub open spec fn parent_of(tree: Seq<EntryView>, i: int) -> Option<int> {
    nearest_shallower(tree, i, i - 1)
}

/// `a` contains `i`, directly or through further directories.
pub open spec fn is_ancestor(tree: Seq<EntryView>, a: int, i: int) -> bool
    decreases i + 1,
{
    match parent_of(tree, i) {
        None => false,
        Some(p) => 0 <= p < i && (p == a || is_ancestor(tree, a, p)),
    }
}

/// A listing as a walk yields it: it starts at the base, every later entry lies
/// exactly one level below the entry that contains it, only directories contain
/// anything, and no path occurs twice.
pub open spec fn well_formed(tree: Seq<EntryView>) -> bool {
    &&& tree.len() > 0 ==> tree[0].depth == 0
    &&& forall|i: int|
        1 <= i < tree.len() ==> {
            &&& 1 <= #[trigger] tree[i].depth <= tree[i - 1].depth + 1
            &&& tree[i].depth == tree[i - 1].depth + 1 ==> tree[i - 1].kind == EntryKind::Directory
        }
    &&& forall|i: int, j: int|
        0 <= i < j < tree.len() ==> #[trigger] tree[i].path != #[trigger] tree[j].path
}

/// What `nearest_shallower` finds lies before `j`, is less deep than `i`, and
/// nothing between it and `j` is.
pub proof fn lemma_nearest_shallower(tree: Seq<EntryView>, i: int, j: int)
    requires
        0 <= i < tree.len(),
        j < i,
    ensures
        match nearest_shallower(tree, i, j) {
            Some(p) => {
                &&& 0 <= p <= j
                &&& tree[p].depth < tree[i].depth
                &&& forall|k: int| p < k <= j ==> tree[k].depth >= tree[i].depth
            },
            None => forall|k: int| 0 <= k <= j ==> tree[k].depth >= tree[i].depth,
        },
    decreases j + 1,
{
    if j >= 0 && tree[j].depth >= tree[i].depth {
        lemma_nearest_shallower(tree, i, j - 1);
    }
}

/// The search for a parent may start at any `j` below which nothing was left out.
pub proof fn lemma_nearest_shallower_skip(tree: Seq<EntryView>, i: int, j: int, k: int)
    requires
        0 <= i < tree.len(),
        -1 <= j <= k < i,
        forall|m: int| j < m <= k ==> tree[m].depth >= tree[i].depth,
    ensures
        nearest_shallower(tree, i, k) == nearest_shallower(tree, i, j),
    decreases k - j,
{
    if j < k {
        lemma_nearest_shallower_skip(tree, i, j, k - 1);
    }
}

/// The parent of every entry precedes it.
pub proof fn lemma_parent_precedes(tree: Seq<EntryView>, i: int)
    requires
        0 <= i < tree.len(),
    ensures
        match parent_of(tree, i) {
            Some(p) => 0 <= p < i && tree[p].depth < tree[i].depth,
            None => true,
        },
{
    lemma_nearest_shallower(tree, i, i - 1);
}

/// The parent of entry `i` as an index of the machine.
pub open spec fn parent_slot(tree: Seq<EntryView>, i: int) -> Option<usize> {
    match parent_of(tree, i) {
        Some(p) => Some(p as usize),
        None => None,
    }
}

/// `parents` holds, for each entry of the listing, the entry that contains it.
pub open spec fn holds_parents(tree: Seq<EntryView>, parents: Seq<Option<usize>>) -> bool {
    &&& parents.len() == tree.len()
    &&& forall|i: int| 0 <= i < tree.len() ==> (#[trigger] parents[i]) == parent_slot(tree, i)
}

/// A parent held as an index of the machine is the parent.
pub proof fn lemma_parent_slot(tree: Seq<EntryView>, i: int)
    requires
        0 <= i < tree.len(),
        tree.len() <= usize::MAX,
    ensures
        match parent_slot(tree, i) {
            Some(p) => parent_of(tree, i) == Some(p as int) && p < i,
            None => parent_of(tree, i) is None,
        },
{
    lemma_parent_precedes(tree, i);
}

impl DirectoryTree {
    /// For each entry the index of the entry that contains it.
    pub fn parent_indices(&self) -> (parents: Vec<Option<usize>>)
        ensures
            holds_parents(self@, parents@),
    {
        let n: usize = self.entries.len();
        let mut parents: Vec<Option<usize>> = Vec::new();
        let mut i: usize = 0;
        while i < n
            invariant
                n == self.entries@.len(),
                0 <= i <= n,
                parents@.len() == i,
                forall|k: int| 0 <= k < i ==> (#[trigger] parents@[k]) == parent_slot(self@, k),
            decreases n - i,
        {
            let depth: usize = self.entries[i].depth;
            let mut found: Option<usize> = None;
            let mut candidate: Option<usize> = if i == 0 {
                None
            } else {
                Some(i - 1)
            };
            let mut searching: bool = true;
            while searching
                invariant
                    n == self.entries@.len(),
                    0 <= i < n,
                    parents@.len() == i,
                    depth == self@[i as int].depth,
                    forall|k: int| 0 <= k < i ==> (#[trigger] parents@[k]) == parent_slot(self@, k),
                    match candidate {
                        Some(c) => c < i,
                        None => true,
                    },
                    searching ==> parent_of(self@, i as int) == nearest_shallower(
                        self@,
                        i as int,
                        match candidate {
                            Some(c) => c as int,
                            None => -1,
                        },
                    ),
                    !searching ==> found == parent_slot(self@, i as int),
                decreases
                    if searching { 1int } else { 0int },
                    match candidate {
                        Some(c) => c + 1,
                        None => 0,
                    },
            {
                match candidate {
                    None => {
                        found = None;
                        searching = false;
                    },
                    Some(c) => {
                        if self.entries[c].depth < depth {
                            found = Some(c);
                            searching = false;
                        } else {
                            proof {
                                lemma_nearest_shallower(self@, c as int, c as int - 1);
                                lemma_parent_slot(self@, c as int);
                                let next: int = match parents@[c as int] {
                                    Some(p) => p as int,
                                    None => -1,
                                };
                                assert forall|m: int| next < m <= c implies self@[m].depth
                                    >= self@[i as int].depth by {
                                    if m < c {
                                        assert(self@[m].depth >= self@[c as int].depth);
                                    }
                                }
                                lemma_nearest_shallower_skip(self@, i as int, next, c as int);
                            }
                            candidate = parents[c];
                        }
                    },
                }
            }
            parents.push(found);
            i = i + 1;
        }
        parents
    }
}

} // verus!
