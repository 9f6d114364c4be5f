//! The scan orchestrator: it keeps what the walker found and the candidates
//! seen so far, and drives content through the pre-processors and the
//! extractor.

use vstd::prelude::*;
use vstd::string::{StrSliceExecFns, StringExecFns};
use vstd::utf8::encode_utf8;
use fxhash::FxHashSet;
use crate::collections::{token_set_insert, token_set_items, token_set_new, token_set_to_vec};
use crate::content::{
    all_lines,
    all_tokens,
    byte_views,
    collect_tokens,
    copy_bytes,
    extract_all,
    extracted_by,
    mask_empty_brackets,
    masked_text,
    position_views,
    positioned,
    pre_process_input,
    pre_processor_of,
    restore_positions,
    sort_distinct,
    span_views,
    split_blobs,
    Extracted,
    PreProcessor,
};
use crate::detect_sources::{resolve_globs, resolved_globs};
use crate::gitignore::InvalidPattern;
use crate::glob::{glob_views, top_level_pattern_text, GlobEntry, GlobEntryView};
use crate::paths::{extension_of, extension_text, text_views};
use crate::sources::{
    directive_views,
    entry_views,
    public_source_entries_to_private_source_entries,
    resolved_entry,
    DirectiveView,
    PublicSourceEntry,
    SourceEntry,
    SourceEntryView,
};
use crate::text::{lemma_strictly_sorted_unique, sort_texts, sorted_texts, strictly_sorted};
use crate::tree::{DirectoryTree, EntryKind, EntryView};
use crate::walker::{
    create_walker,
    ignore_layers,
    root_list,
    check_sources,
    sources_valid,
    WalkerConfig,
};

verus! {

/// Content that has changed: a file to be read, or content given directly.
#[derive(Debug)]
pub enum ChangedContent {
    /// The path of a file, and its extension.
    File(String, String),
    /// The content itself, and the extension that tells its kind.
    Content(String, String),
}

/// The mathematical value of a [`ChangedContent`].
pub enum ChangedContentView {
    File(Seq<char>, Seq<char>),
    Content(Seq<char>, Seq<char>),
}

impl View for ChangedContent {
    type V = ChangedContentView;

    open spec fn view(&self) -> ChangedContentView {
        match self {
            ChangedContent::File(path, extension) => ChangedContentView::File(path@, extension@),
            ChangedContent::Content(text, extension) => ChangedContentView::Content(
                text@,
                extension@,
            ),
        }
    }
}

/// The views of a list of changed content.
pub open spec fn changed_views(changed: Seq<ChangedContent>) -> Seq<ChangedContentView> {
    Seq::new(changed.len(), |i: int| changed[i]@)
}

/// What a scan is asked to do.
#[derive(Debug)]
pub struct ScanOptions {
    /// The base path to start scanning from.
    pub base: Option<String>,
    /// The glob sources.
    pub sources: Vec<GlobEntry>,
}

/// What a scan has found.
#[derive(Debug)]
pub struct ScanResult {
    pub candidates: Vec<Vec<u8>>,
    pub files: Vec<String>,
    pub globs: Vec<GlobEntry>,
}

/// An entry that the walker admitted.
#[derive(Debug)]
pub struct WalkedEntry {
    /// The path of the entry.
    pub path: String,
    /// What the entry is, links followed.
    pub kind: EntryKind,
}

/// The mathematical value of a [`WalkedEntry`].
pub struct WalkedView {
    pub path: Seq<char>,
    pub kind: EntryKind,
}

impl View for WalkedEntry {
    type V = WalkedView;

    open spec fn view(&self) -> WalkedView {
        WalkedView { path: self.path@, kind: self.kind }
    }
}

/// The views of a list of walked entries.
pub open spec fn walked_views(walked: Seq<WalkedEntry>) -> Seq<WalkedView> {
    Seq::new(walked.len(), |i: int| walked[i]@)
}

/// The paths of the directories among the first `k` walked entries.
pub open spec fn walked_dirs(walked: Seq<WalkedView>, k: int) -> Seq<Seq<char>>
    decreases k,
{
    if k <= 0 || k > walked.len() {
        Seq::empty()
    } else if walked[k - 1].kind == EntryKind::Directory {
        walked_dirs(walked, k - 1).push(walked[k - 1].path)
    } else {
        walked_dirs(walked, k - 1)
    }
}

/// The paths of the files among the first `k` walked entries.
pub open spec fn walked_files(walked: Seq<WalkedView>, k: int) -> Seq<Seq<char>>
    decreases k,
{
    if k <= 0 || k > walked.len() {
        Seq::empty()
    } else if walked[k - 1].kind == EntryKind::File {
        walked_files(walked, k - 1).push(walked[k - 1].path)
    } else {
        walked_files(walked, k - 1)
    }
}

/// The content to read for the files at `paths`: each file with its extension.
pub open spec fn file_contents(paths: Seq<Seq<char>>) -> Seq<ChangedContentView> {
    Seq::new(paths.len(), |i: int| ChangedContentView::File(paths[i], extension_text(paths[i])))
}

/// The globs that a call for the globs adds: for each base in which everything
/// is discovered, the pattern for what lies directly in it, and then the globs
/// resolved from the base's listing. The listings are taken in the order of
/// these bases; a base without a listing adds its first pattern only.
pub open spec fn globs_for(
    sources: Seq<SourceEntryView>,
    trees: Seq<Seq<EntryView>>,
    allowed: Set<Seq<char>>,
) -> Seq<GlobEntryView>
    decreases sources.len(),
{
    if sources.len() == 0 {
        Seq::empty()
    } else {
        match sources[0] {
            SourceEntryView::Auto { base } => {
                let first = Seq::empty().push(
                    GlobEntryView { base: base, pattern: top_level_pattern_text() },
                );
                if trees.len() > 0 {
                    first + resolved_globs(trees[0], allowed) + globs_for(
                        sources.drop_first(),
                        trees.drop_first(),
                        allowed,
                    )
                } else {
                    first + globs_for(sources.drop_first(), trees, allowed)
                }
            },
            _ => globs_for(sources.drop_first(), trees, allowed),
        }
    }
}

/// The views of a list of listings.
pub open spec fn tree_views(trees: Seq<DirectoryTree>) -> Seq<Seq<EntryView>> {
    Seq::new(trees.len(), |i: int| trees[i]@)
}

/// The scanner.
pub struct Scanner {
    sources: Vec<SourceEntry>,
    walker: Option<WalkerConfig>,
    changed_content: Vec<ChangedContent>,
    files: Vec<String>,
    dirs: Vec<String>,
    globs: Vec<GlobEntry>,
    candidates: FxHashSet<Vec<u8>>,
}

impl Scanner {
    /// The source entries.
    pub closed spec fn sources(&self) -> Seq<SourceEntryView> {
        entry_views(self.sources@)
    }

    /// Whether there is anything to walk.
    pub closed spec fn armed(&self) -> bool {
        self.walker is Some
    }

    /// Whether the walker is to heed `.gitignore` files only inside a
    /// repository.
    pub closed spec fn git_required(&self) -> bool {
        match self.walker {
            Some(config) => config.git_required(),
            None => false,
        }
    }

    /// The walker's configuration is sound and is the one for the sources.
    pub closed spec fn well_formed(&self) -> bool {
        match self.walker {
            Some(config) => {
                &&& config.well_formed()
                &&& config.root_texts() == root_list(entry_views(self.sources@))
                &&& config.layer_texts() == ignore_layers(entry_views(self.sources@))
            },
            None => root_list(entry_views(self.sources@)).len() == 0,
        }
    }

    /// The content that was found and is still to be read.
    pub closed spec fn pending(&self) -> Seq<ChangedContentView> {
        changed_views(self.changed_content@)
    }

    /// The files that the walker admitted, in the order in which they came.
    pub closed spec fn files(&self) -> Seq<Seq<char>> {
        text_views(self.files@)
    }

    /// The directories that the walker admitted.
    pub closed spec fn dirs(&self) -> Seq<Seq<char>> {
        text_views(self.dirs@)
    }

    /// The globs that were handed out last.
    pub closed spec fn globs(&self) -> Seq<GlobEntryView> {
        glob_views(self.globs@)
    }

    /// The candidates seen so far.
    pub closed spec fn candidates(&self) -> Set<Seq<u8>> {
        token_set_items(self.candidates)
    }

    fn assemble(sources: Vec<SourceEntry>, walker: Option<WalkerConfig>) -> (scanner: Scanner)
        ensures
            scanner.sources == sources,
            scanner.walker == walker,
            scanner.pending() == Seq::<ChangedContentView>::empty(),
            scanner.files() == Seq::<Seq<char>>::empty(),
            scanner.dirs() == Seq::<Seq<char>>::empty(),
            scanner.globs() == Seq::<GlobEntryView>::empty(),
            scanner.candidates() == Set::<Seq<u8>>::empty(),
    {
        let scanner = Scanner {
            sources,
            walker,
            changed_content: Vec::new(),
            files: Vec::new(),
            dirs: Vec::new(),
            globs: Vec::new(),
            candidates: token_set_new(),
        };
        assert(scanner.pending() =~= Seq::<ChangedContentView>::empty());
        assert(scanner.files() =~= Seq::<Seq<char>>::empty());
        assert(scanner.dirs() =~= Seq::<Seq<char>>::empty());
        assert(scanner.globs() =~= Seq::<GlobEntryView>::empty());
        scanner
    }

    /// A scanner for the directives `sources`. Where none of them includes
    /// anything the scanner is disarmed: it finds nothing, without an error.
    pub fn new(sources: Vec<PublicSourceEntry>) -> (scanner: Scanner)
        requires
            root_list(
                directive_views(sources@).map_values(
                    |directive: DirectiveView| resolved_entry(directive),
                ),
            ).len() > 0 ==> sources_valid(
                directive_views(sources@).map_values(
                    |directive: DirectiveView| resolved_entry(directive),
                ),
            ),
        ensures
            scanner.well_formed(),
            scanner.sources() == directive_views(sources@).map_values(
                |directive: DirectiveView| resolved_entry(directive),
            ),
            scanner.armed() <==> root_list(scanner.sources()).len() > 0,
            !scanner.git_required(),
            scanner.pending() == Seq::<ChangedContentView>::empty(),
            scanner.files() == Seq::<Seq<char>>::empty(),
            scanner.dirs() == Seq::<Seq<char>>::empty(),
            scanner.globs() == Seq::<GlobEntryView>::empty(),
            scanner.candidates() == Set::<Seq<u8>>::empty(),
    {
        let entries = public_source_entries_to_private_source_entries(&sources);
        let walker = create_walker(&entries);
        Scanner::assemble(entries, walker)
    }

    /// A scanner for the directives `sources`, or the rule line that the
    /// matcher does not take.
    pub fn try_new(sources: Vec<PublicSourceEntry>) -> (outcome: Result<Scanner, InvalidPattern>)
        ensures
            outcome is Err <==> {
                let entries = directive_views(sources@).map_values(
                    |directive: DirectiveView| resolved_entry(directive),
                );
                root_list(entries).len() > 0 && !sources_valid(entries)
            },
            match outcome {
                Ok(scanner) => {
                    &&& scanner.well_formed()
                    &&& scanner.sources() == directive_views(sources@).map_values(
                        |directive: DirectiveView| resolved_entry(directive),
                    )
                    &&& (scanner.armed() <==> root_list(scanner.sources()).len() > 0)
                    &&& !scanner.git_required()
                    &&& scanner.pending() == Seq::<ChangedContentView>::empty()
                    &&& scanner.files() == Seq::<Seq<char>>::empty()
                    &&& scanner.dirs() == Seq::<Seq<char>>::empty()
                    &&& scanner.globs() == Seq::<GlobEntryView>::empty()
                    &&& scanner.candidates() == Set::<Seq<u8>>::empty()
                },
                Err(_) => true,
            },
    {
        let entries = public_source_entries_to_private_source_entries(&sources);
        match check_sources(&entries) {
            Ok(_) => Ok(Scanner::new(sources)),
            Err(refused) => Err(refused),
        }
    }

    /// The walker's configuration, unless the scanner is disarmed.
    pub fn walker(&self) -> (walker: &Option<WalkerConfig>)
        ensures
            walker is Some <==> self.armed(),
            match *walker {
                Some(config) => config.git_required() == self.git_required(),
                None => !self.git_required(),
            },
            self.well_formed() ==> match *walker {
                Some(config) => {
                    &&& config.well_formed()
                    &&& config.root_texts() == root_list(self.sources())
                    &&& config.layer_texts() == ignore_layers(self.sources())
                },
                None => true,
            },
    {
        &self.walker
    }

    /// Records what the search for a repository found at and above the first
    /// base; see [`WalkerConfig::record_git_markers`].
    pub fn record_git_markers(&mut self, markers: &Vec<bool>)
        ensures
            final(self).sources() == old(self).sources(),
            final(self).armed() == old(self).armed(),
            final(self).git_required() == (old(self).armed() && markers@.contains(true)),
            old(self).well_formed() ==> final(self).well_formed(),
            final(self).pending() == old(self).pending(),
            final(self).files() == old(self).files(),
            final(self).dirs() == old(self).dirs(),
            final(self).globs() == old(self).globs(),
            final(self).candidates() == old(self).candidates(),
    {
        match &mut self.walker {
            Some(config) => {
                config.record_git_markers(markers);
            },
            None => {},
        }
    }

    /// Takes in what the walker admitted: the directories are remembered for
    /// the glob resolver, the files are remembered and queued to be read, each
    /// with its extension. A disarmed scanner takes nothing in.
    pub fn scan_sources(&mut self, walked: &Vec<WalkedEntry>)
        ensures
            final(self).sources() == old(self).sources(),
            final(self).armed() == old(self).armed(),
            final(self).git_required() == old(self).git_required(),
            final(self).well_formed() == old(self).well_formed(),
            final(self).globs() == old(self).globs(),
            final(self).candidates() == old(self).candidates(),
            final(self).dirs() == if old(self).armed() {
                old(self).dirs() + walked_dirs(walked_views(walked@), walked@.len() as int)
            } else {
                old(self).dirs()
            },
            final(self).files() == if old(self).armed() {
                old(self).files() + walked_files(walked_views(walked@), walked@.len() as int)
            } else {
                old(self).files()
            },
            final(self).pending() == if old(self).armed() {
                old(self).pending() + file_contents(
                    walked_files(walked_views(walked@), walked@.len() as int),
                )
            } else {
                old(self).pending()
            },
    {
        if self.walker.is_none() {
            return ;
        }
        let ghost dirs_before = self.dirs();
        let ghost files_before = self.files();
        let ghost pending_before = self.pending();
        let ghost views = walked_views(walked@);
        let n: usize = walked.len();
        let mut i: usize = 0;
        proof {
            assert(self.dirs() =~= dirs_before + walked_dirs(views, 0));
            assert(self.files() =~= files_before + walked_files(views, 0));
            assert(self.pending() =~= pending_before + file_contents(walked_files(views, 0)));
        }
        while i < n
            invariant
                n == walked@.len(),
                views == walked_views(walked@),
                0 <= i <= n,
                self.sources == old(self).sources,
                self.walker == old(self).walker,
                self.globs == old(self).globs,
                self.candidates == old(self).candidates,
                self.dirs() == dirs_before + walked_dirs(views, i as int),
                self.files() == files_before + walked_files(views, i as int),
                self.pending() == pending_before + file_contents(walked_files(views, i as int)),
            decreases n - i,
        {
            let entry = &walked[i];
            let ghost dirs_sofar = self.dirs();
            let ghost files_sofar = self.files();
            let ghost pending_sofar = self.pending();
            proof {
                assert(views[i as int] == entry@);
            }
            if entry.kind == EntryKind::Directory {
                self.dirs.push(entry.path.clone());
                proof {
                    assert(self.dirs() =~= dirs_sofar.push(entry.path@));
                    assert(self.files() =~= files_sofar);
                    assert(self.pending() =~= pending_sofar);
                }
            } else if entry.kind == EntryKind::File {
                let extension = extension_of(entry.path.as_str());
                self.changed_content.push(ChangedContent::File(entry.path.clone(), extension));
                self.files.push(entry.path.clone());
                proof {
                    assert(self.dirs() =~= dirs_sofar);
                    assert(self.files() =~= files_sofar.push(entry.path@));
                    assert(self.pending() =~= pending_sofar.push(
                        ChangedContentView::File(entry.path@, extension_text(entry.path@)),
                    ));
                    assert(file_contents(walked_files(views, i as int + 1)) =~= file_contents(
                        walked_files(views, i as int),
                    ).push(ChangedContentView::File(entry.path@, extension_text(entry.path@))));
                }
            } else {
                proof {
                    assert(self.dirs() =~= dirs_sofar);
                    assert(self.files() =~= files_sofar);
                    assert(self.pending() =~= pending_sofar);
                }
            }
            i = i + 1;
        }
    }

    /// Hands out the content that is queued to be read, and empties the queue.
    pub fn take_changed_content(&mut self) -> (changed: Vec<ChangedContent>)
        ensures
            changed_views(changed@) == old(self).pending(),
            final(self).pending() == Seq::<ChangedContentView>::empty(),
            final(self).sources() == old(self).sources(),
            final(self).armed() == old(self).armed(),
            final(self).git_required() == old(self).git_required(),
            final(self).well_formed() == old(self).well_formed(),
            final(self).files() == old(self).files(),
            final(self).dirs() == old(self).dirs(),
            final(self).globs() == old(self).globs(),
            final(self).candidates() == old(self).candidates(),
    {
        let mut changed: Vec<ChangedContent> = Vec::new();
        core::mem::swap(&mut changed, &mut self.changed_content);
        assert(self.pending() =~= Seq::<ChangedContentView>::empty());
        changed
    }

    /// Takes the candidates `tokens` in. Returned are those that were not
    /// known before, each once, in byte-wise order.
    pub fn merge_candidates(&mut self, tokens: &Vec<Vec<u8>>) -> (fresh: Vec<Vec<u8>>)
        ensures
            final(self).candidates() == old(self).candidates().union(byte_views(tokens@).to_set()),
            strictly_sorted(byte_views(fresh@)),
            byte_views(fresh@).to_set() == byte_views(tokens@).to_set().difference(
                old(self).candidates(),
            ),
            final(self).sources() == old(self).sources(),
            final(self).armed() == old(self).armed(),
            final(self).git_required() == old(self).git_required(),
            final(self).well_formed() == old(self).well_formed(),
            final(self).pending() == old(self).pending(),
            final(self).files() == old(self).files(),
            final(self).dirs() == old(self).dirs(),
            final(self).globs() == old(self).globs(),
    {
        let ghost known = self.candidates();
        let ghost given = byte_views(tokens@);
        let mut fresh: Vec<Vec<u8>> = Vec::new();
        let n: usize = tokens.len();
        let mut i: usize = 0;
        proof {
            assert(self.candidates() =~= known.union(given.take(0).to_set()));
            assert(byte_views(fresh@).to_set() =~= given.take(0).to_set().difference(known));
        }
        while i < n
            invariant
                n == tokens@.len(),
                given == byte_views(tokens@),
                0 <= i <= n,
                self.sources == old(self).sources,
                self.walker == old(self).walker,
                self.changed_content == old(self).changed_content,
                self.files == old(self).files,
                self.dirs == old(self).dirs,
                self.globs == old(self).globs,
                self.candidates() == known.union(given.take(i as int).to_set()),
                byte_views(fresh@).no_duplicates(),
                byte_views(fresh@).to_set() == given.take(i as int).to_set().difference(known),
            decreases n - i,
        {
            let ghost shorter = given.take(i as int);
            let ghost longer = given.take(i as int + 1);
            let ghost fresh_before = byte_views(fresh@);
            let token = copy_bytes(&tokens[i]);
            proof {
                assert(longer =~= shorter.push(token@));
                assert(longer.to_set() =~= shorter.to_set().insert(token@)) by {
                    assert forall|x: Seq<u8>| longer.to_set().contains(x) <==> shorter.to_set().insert(
                        token@,
                    ).contains(x) by {
                        if longer.to_set().contains(x) {
                            let m = choose|m: int| 0 <= m < longer.len() && longer[m] == x;
                            if m < i {
                                assert(shorter[m] == x);
                            }
                        }
                        if shorter.to_set().contains(x) {
                            let m = choose|m: int| 0 <= m < shorter.len() && shorter[m] == x;
                            assert(longer[m] == x);
                        }
                        if x == token@ {
                            assert(longer[i as int] == x);
                        }
                    }
                }
            }
            let is_new = token_set_insert(&mut self.candidates, copy_bytes(&token));
            if is_new {
                fresh.push(token);
                proof {
                    let fresh_after = byte_views(fresh@);
                    assert(fresh_after =~= fresh_before.push(token@));
                    assert(!fresh_before.to_set().contains(token@));
                    assert(fresh_after.no_duplicates()) by {
                        assert forall|a: int, b: int|
                            0 <= a < fresh_after.len() && 0 <= b < fresh_after.len() && a
                                != b implies fresh_after[a] != fresh_after[b] by {
                            if a < fresh_before.len() && b < fresh_before.len() {
                                assert(fresh_before[a] != fresh_before[b]);
                            } else if a < fresh_before.len() {
                                assert(fresh_before.to_set().contains(fresh_before[a]));
                            } else {
                                assert(fresh_before.to_set().contains(fresh_before[b]));
                            }
                        }
                    }
                    assert(fresh_after.to_set() =~= longer.to_set().difference(known)) by {
                        assert forall|x: Seq<u8>| fresh_after.to_set().contains(x)
                            <==> longer.to_set().difference(known).contains(x) by {
                            if fresh_after.to_set().contains(x) {
                                let m = choose|m: int|
                                    0 <= m < fresh_after.len() && fresh_after[m] == x;
                                if m < fresh_before.len() {
                                    assert(fresh_before[m] == x);
                                    assert(fresh_before.to_set().contains(x));
                                }
                            }
                            if fresh_before.to_set().contains(x) {
                                let m = choose|m: int|
                                    0 <= m < fresh_before.len() && fresh_before[m] == x;
                                assert(fresh_after[m] == x);
                            }
                            if x == token@ {
                                assert(fresh_after[fresh_before.len() as int] == x);
                            }
                        }
                    }
                }
            } else {
                proof {
                    assert(byte_views(fresh@).to_set() =~= longer.to_set().difference(known));
                }
            }
            proof {
                assert(self.candidates() =~= known.union(longer.to_set()));
            }
            i = i + 1;
        }
        proof {
            assert(given.take(n as int) =~= given);
        }
        sort_distinct(&mut fresh);
        fresh
    }

    /// All candidates seen so far, each once, in byte-wise order.
    pub fn all_candidates(&self) -> (candidates: Vec<Vec<u8>>)
        ensures
            strictly_sorted(byte_views(candidates@)),
            byte_views(candidates@).to_set() == self.candidates(),
    {
        let mut candidates = token_set_to_vec(&self.candidates);
        proof {
            let views = byte_views(candidates@);
            assert(views.no_duplicates()) by {
                assert forall|a: int, b: int| 0 <= a < views.len() && 0 <= b < views.len() && a
                    != b implies views[a] != views[b] by {
                    if a < b {
                        assert(candidates@[a]@ != candidates@[b]@);
                    } else {
                        assert(candidates@[b]@ != candidates@[a]@);
                    }
                }
            }
            assert(views.to_set() =~= self.candidates()) by {
                assert forall|t: Seq<u8>| views.to_set().contains(t) <==> self.candidates().contains(
                    t,
                ) by {
                    if views.to_set().contains(t) {
                        let m = choose|m: int| 0 <= m < views.len() && views[m] == t;
                        assert(candidates@[m]@ == t);
                    }
                    if self.candidates().contains(t) {
                        let m = choose|m: int|
                            0 <= m < candidates@.len() && (#[trigger] candidates@[m])@ == t;
                        assert(views[m] == t);
                    }
                }
            }
        }
        sort_distinct(&mut candidates);
        candidates
    }

    /// The bases in which everything is discovered, in the order of the
    /// sources: the listings for the globs are wanted in this order.
    pub fn auto_bases(&self) -> (bases: Vec<String>)
        ensures
            text_views(bases@) == auto_base_list(self.sources()),
    {
        let mut bases: Vec<String> = Vec::new();
        let n: usize = self.sources.len();
        let ghost views = entry_views(self.sources@);
        let mut i: usize = 0;
        proof {
            assert(text_views(bases@) =~= auto_base_list(views.take(0)));
        }
        while i < n
            invariant
                n == self.sources@.len(),
                views == entry_views(self.sources@),
                0 <= i <= n,
                text_views(bases@) == auto_base_list(views.take(i as int)),
            decreases n - i,
        {
            let ghost sofar = text_views(bases@);
            proof {
                let prefix = views.take(i as int + 1);
                assert(prefix.drop_last() =~= views.take(i as int));
                assert(prefix.last() == self.sources@[i as int]@);
            }
            match &self.sources[i] {
                SourceEntry::Auto { base } => {
                    bases.push(base.clone());
                    proof {
                        assert(text_views(bases@) =~= sofar.push(base@));
                    }
                },
                _ => {},
            }
            i = i + 1;
        }
        proof {
            assert(views.take(n as int) =~= views);
        }
        bases
    }
}

/// `processed` is what pre-processing makes of `content`: the result of
/// `transform` where the extension has a pre-processor, and else the content.
pub open spec fn processed_by<T: Fn(PreProcessor, &Vec<u8>) -> Vec<u8>>(
    transform: T,
    content: Vec<u8>,
    extension: Seq<char>,
    processed: Vec<u8>,
) -> bool {
    match pre_processor_of(extension) {
        Some(kind) => call_ensures(transform, (kind, &content), processed),
        None => processed@ == content@,
    }
}

/// `outcome` is what loading `changed` gives: for a file what `read` returns
/// for its path, pre-processed, or nothing where `read` returns nothing; for
/// content given directly its bytes, pre-processed.
pub open spec fn loaded_by<
    R: Fn(&String) -> Option<Vec<u8>>,
    T: Fn(PreProcessor, &Vec<u8>) -> Vec<u8>,
>(read: R, transform: T, changed: ChangedContent, outcome: Option<Vec<u8>>) -> bool {
    match changed {
        ChangedContent::File(path, extension) => exists|raw: Option<Vec<u8>>|
            {
                &&& #[trigger] call_ensures(read, (&path,), raw)
                &&& match raw {
                    Some(content) => outcome is Some && processed_by(
                        transform,
                        content,
                        extension@,
                        outcome->0,
                    ),
                    None => outcome is None,
                }
            },
        ChangedContent::Content(text, extension) => exists|content: Vec<u8>|
            {
                &&& content@ == encode_utf8(text@)
                &&& outcome is Some
                &&& #[trigger] processed_by(transform, content, extension@, outcome->0)
            },
    }
}

/// `outcomes` holds, for each of `changed`, what loading it gives.
pub open spec fn loaded_all<
    R: Fn(&String) -> Option<Vec<u8>>,
    T: Fn(PreProcessor, &Vec<u8>) -> Vec<u8>,
>(read: R, transform: T, changed: Seq<ChangedContent>, outcomes: Seq<Option<Vec<u8>>>) -> bool {
    &&& outcomes.len() == changed.len()
    &&& forall|i: int|
        0 <= i < changed.len() ==> loaded_by(read, transform, changed[i], #[trigger] outcomes[i])
}

/// The blobs among the first `k` outcomes: those that were loaded.
pub open spec fn present(outcomes: Seq<Option<Vec<u8>>>, k: int) -> Seq<Vec<u8>>
    decreases k,
{
    if k <= 0 || k > outcomes.len() {
        Seq::empty()
    } else {
        match outcomes[k - 1] {
            Some(blob) => present(outcomes, k - 1).push(blob),
            None => present(outcomes, k - 1),
        }
    }
}

/// `tokens` are the candidates that `changed` holds: each item is loaded, the
/// blobs are split into lines, the extractor is run over each line that is not
/// empty, and `tokens` is what its spans stand for.
pub open spec fn found_in<
    R: Fn(&String) -> Option<Vec<u8>>,
    T: Fn(PreProcessor, &Vec<u8>) -> Vec<u8>,
    E: Fn(&Vec<u8>) -> Vec<Extracted>,
>(read: R, transform: T, extract: E, changed: Seq<ChangedContent>, tokens: Set<Seq<u8>>) -> bool {
    exists|outcomes: Seq<Option<Vec<u8>>>, lines: Seq<Vec<u8>>, spans: Seq<Vec<Extracted>>|
        {
            &&& #[trigger] loaded_all(read, transform, changed, outcomes)
            &&& byte_views(lines) == all_lines(
                byte_views(present(outcomes, outcomes.len() as int)),
            )
            &&& #[trigger] extracted_by(extract, lines, spans)
            &&& tokens == all_tokens(byte_views(lines), span_views(spans))
        }
}

/// Where nothing has changed no candidate is found.
pub proof fn lemma_nothing_changed<
    R: Fn(&String) -> Option<Vec<u8>>,
    T: Fn(PreProcessor, &Vec<u8>) -> Vec<u8>,
    E: Fn(&Vec<u8>) -> Vec<Extracted>,
>(read: R, transform: T, extract: E, changed: Seq<ChangedContent>, tokens: Set<Seq<u8>>)
    requires
        changed.len() == 0,
        found_in(read, transform, extract, changed, tokens),
    ensures
        tokens == Set::<Seq<u8>>::empty(),
{
    let (outcomes, lines, spans) = choose|
        outcomes: Seq<Option<Vec<u8>>>,
        lines: Seq<Vec<u8>>,
        spans: Seq<Vec<Extracted>>,
    |
        {
            &&& #[trigger] loaded_all(read, transform, changed, outcomes)
            &&& byte_views(lines) == all_lines(
                byte_views(present(outcomes, outcomes.len() as int)),
            )
            &&& #[trigger] extracted_by(extract, lines, spans)
            &&& tokens == all_tokens(byte_views(lines), span_views(spans))
        };
    assert(byte_views(present(outcomes, 0)) =~= Seq::<Seq<u8>>::empty());
    assert(byte_views(lines).len() == 0);
    assert(tokens =~= Set::<Seq<u8>>::empty());
}

/// Loads one item of changed content.
pub fn read_changed_content<
    R: Fn(&String) -> Option<Vec<u8>>,
    T: Fn(PreProcessor, &Vec<u8>) -> Vec<u8>,
>(changed: &ChangedContent, read: &R, transform: &T) -> (outcome: Option<Vec<u8>>)
    requires
        forall|path: &String| call_requires(*read, (path,)),
        forall|kind: PreProcessor, bytes: &Vec<u8>| call_requires(*transform, (kind, bytes)),
    ensures
        loaded_by(*read, *transform, *changed, outcome),
{
    match changed {
        ChangedContent::File(path, extension) => {
            let raw = read(path);
            match raw {
                Some(content) => {
                    let processed = pre_process_input(&content, extension.as_str(), transform);
                    proof {
                        assert(processed_by(*transform, content, extension@, processed));
                        assert(call_ensures(*read, (path,), raw));
                        assert(loaded_by(*read, *transform, *changed, Some(processed)));
                    }
                    Some(processed)
                },
                None => {
                    proof {
                        assert(call_ensures(*read, (path,), raw));
                        assert(loaded_by(*read, *transform, *changed, None));
                    }
                    None
                },
            }
        },
        ChangedContent::Content(text, extension) => {
            let content = text.as_str().as_bytes_vec();
            let processed = pre_process_input(&content, extension.as_str(), transform);
            proof {
                assert(content@ == encode_utf8(text@));
                assert(processed_by(*transform, content, extension@, processed));
                assert(Some(processed)->0 == processed);
                assert(loaded_by(*read, *transform, *changed, Some(processed)));
            }
            Some(processed)
        },
    }
}

/// Loads every item of changed content; what cannot be read is left out.
pub fn read_all_files<
    R: Fn(&String) -> Option<Vec<u8>>,
    T: Fn(PreProcessor, &Vec<u8>) -> Vec<u8>,
>(changed: &Vec<ChangedContent>, read: &R, transform: &T) -> (blobs: Vec<Vec<u8>>)
    requires
        forall|path: &String| call_requires(*read, (path,)),
        forall|kind: PreProcessor, bytes: &Vec<u8>| call_requires(*transform, (kind, bytes)),
    ensures
        exists|outcomes: Seq<Option<Vec<u8>>>|
            {
                &&& #[trigger] loaded_all(*read, *transform, changed@, outcomes)
                &&& blobs@ == present(outcomes, outcomes.len() as int)
            },
{
    let mut blobs: Vec<Vec<u8>> = Vec::new();
    let ghost mut outcomes: Seq<Option<Vec<u8>>> = Seq::empty();
    let n: usize = changed.len();
    let mut i: usize = 0;
    proof {
        assert(blobs@ =~= present(outcomes, 0));
    }
    while i < n
        invariant
            n == changed@.len(),
            0 <= i <= n,
            forall|path: &String| call_requires(*read, (path,)),
            forall|kind: PreProcessor, bytes: &Vec<u8>| call_requires(*transform, (kind, bytes)),
            outcomes.len() == i,
            forall|k: int|
                0 <= k < i ==> loaded_by(*read, *transform, changed@[k], #[trigger] outcomes[k]),
            blobs@ == present(outcomes, i as int),
        decreases n - i,
    {
        let outcome = read_changed_content(&changed[i], read, transform);
        let ghost before = outcomes;
        proof {
            outcomes = outcomes.push(outcome);
            lemma_present_prefix(before, outcomes, i as int);
        }
        match outcome {
            Some(blob) => {
                blobs.push(blob);
            },
            None => {},
        }
        i = i + 1;
    }
    proof {
        assert(loaded_all(*read, *transform, changed@, outcomes));
    }
    blobs
}

/// The blobs among the first `k` outcomes depend on those outcomes only.
pub proof fn lemma_present_prefix(
    shorter: Seq<Option<Vec<u8>>>,
    longer: Seq<Option<Vec<u8>>>,
    k: int,
)
    requires
        0 <= k <= shorter.len(),
        k <= longer.len(),
        forall|m: int| 0 <= m < k ==> shorter[m] == longer[m],
    ensures
        present(shorter, k) == present(longer, k),
    decreases k,
{
    if k > 0 {
        lemma_present_prefix(shorter, longer, k - 1);
    }
}

/// Every glob that a call for the globs adds is the pattern for what lies
/// directly in a base, or has its base among the admitted directories.
pub proof fn lemma_added_globs(
    sources: Seq<SourceEntryView>,
    trees: Seq<Seq<EntryView>>,
    allowed: Set<Seq<char>>,
    m: int,
)
    requires
        0 <= m < globs_for(sources, trees, allowed).len(),
    ensures
        globs_for(sources, trees, allowed)[m].pattern == top_level_pattern_text()
            || allowed.contains(globs_for(sources, trees, allowed)[m].base),
    decreases sources.len(),
{
    if sources.len() > 0 {
        match sources[0] {
            SourceEntryView::Auto { base } => {
                if trees.len() > 0 {
                    let resolved = resolved_globs(trees[0], allowed);
                    if 1 <= m && m < 1 + resolved.len() {
                        crate::invariants::lemma_resolved_globs_admitted(trees[0], allowed, m - 1);
                    } else if m >= 1 + resolved.len() {
                        lemma_added_globs(
                            sources.drop_first(),
                            trees.drop_first(),
                            allowed,
                            m - 1 - resolved.len(),
                        );
                    }
                } else if m >= 1 {
                    lemma_added_globs(sources.drop_first(), trees, allowed, m - 1);
                }
            },
            _ => {
                lemma_added_globs(sources.drop_first(), trees, allowed, m);
            },
        }
    }
}

/// A copy of a list of globs.
pub fn clone_globs(globs: &Vec<GlobEntry>) -> (copy: Vec<GlobEntry>)
    ensures
        glob_views(copy@) == glob_views(globs@),
{
    let mut copy: Vec<GlobEntry> = Vec::new();
    let n: usize = globs.len();
    let mut i: usize = 0;
    while i < n
        invariant
            n == globs@.len(),
            0 <= i <= n,
            copy@.len() == i,
            forall|k: int| 0 <= k < i ==> (#[trigger] copy@[k])@ == globs@[k]@,
        decreases n - i,
    {
        copy.push(globs[i].clone());
        i = i + 1;
    }
    assert(glob_views(copy@) =~= glob_views(globs@));
    copy
}

/// The bytes of what was loaded, or none where nothing was.
pub open spec fn content_of(outcome: Option<Vec<u8>>) -> Seq<u8> {
    match outcome {
        Some(content) => content@,
        None => Seq::empty(),
    }
}

impl Scanner {
    /// Loads the changed content, extracts its candidates and takes them in.
    /// Returned are the candidates that were not known before, each once, in
    /// byte-wise order.
    pub fn scan_content<
        R: Fn(&String) -> Option<Vec<u8>>,
        T: Fn(PreProcessor, &Vec<u8>) -> Vec<u8>,
        E: Fn(&Vec<u8>) -> Vec<Extracted>,
    >(&mut self, changed_content: Vec<ChangedContent>, read: &R, transform: &T, extract: &E) -> (fresh:
        Vec<Vec<u8>>)
        requires
            forall|path: &String| call_requires(*read, (path,)),
            forall|kind: PreProcessor, bytes: &Vec<u8>| call_requires(*transform, (kind, bytes)),
            forall|bytes: &Vec<u8>| call_requires(*extract, (bytes,)),
        ensures
            strictly_sorted(byte_views(fresh@)),
            exists|tokens: Set<Seq<u8>>|
                {
                    &&& #[trigger] found_in(*read, *transform, *extract, changed_content@, tokens)
                    &&& final(self).candidates() == old(self).candidates().union(tokens)
                    &&& byte_views(fresh@).to_set() == tokens.difference(old(self).candidates())
                },
            final(self).sources() == old(self).sources(),
            final(self).armed() == old(self).armed(),
            final(self).git_required() == old(self).git_required(),
            final(self).well_formed() == old(self).well_formed(),
            final(self).pending() == old(self).pending(),
            final(self).files() == old(self).files(),
            final(self).dirs() == old(self).dirs(),
            final(self).globs() == old(self).globs(),
    {
        let blobs = read_all_files(&changed_content, read, transform);
        let lines = split_blobs(&blobs);
        let spans = extract_all(&lines, extract);
        let tokens = collect_tokens(&lines, &spans);
        let fresh = self.merge_candidates(&tokens);
        proof {
            let found = all_tokens(byte_views(lines@), span_views(spans@));
            let outcomes = choose|outcomes: Seq<Option<Vec<u8>>>|
                {
                    &&& #[trigger] loaded_all(*read, *transform, changed_content@, outcomes)
                    &&& blobs@ == present(outcomes, outcomes.len() as int)
                };
            assert(loaded_all(*read, *transform, changed_content@, outcomes));
            assert(extracted_by(*extract, lines@, spans@));
            assert(found_in(*read, *transform, *extract, changed_content@, found));
        }
        fresh
    }

    /// Takes in what the walker admitted, reads the files that it found,
    /// extracts their candidates and returns all candidates seen so far, each
    /// once, in byte-wise order.
    pub fn scan<
        R: Fn(&String) -> Option<Vec<u8>>,
        T: Fn(PreProcessor, &Vec<u8>) -> Vec<u8>,
        E: Fn(&Vec<u8>) -> Vec<Extracted>,
    >(&mut self, walked: &Vec<WalkedEntry>, read: &R, transform: &T, extract: &E) -> (candidates:
        Vec<Vec<u8>>)
        requires
            forall|path: &String| call_requires(*read, (path,)),
            forall|kind: PreProcessor, bytes: &Vec<u8>| call_requires(*transform, (kind, bytes)),
            forall|bytes: &Vec<u8>| call_requires(*extract, (bytes,)),
        ensures
            strictly_sorted(byte_views(candidates@)),
            byte_views(candidates@).to_set() == final(self).candidates(),
            old(self).candidates().subset_of(final(self).candidates()),
            exists|changed: Seq<ChangedContent>, tokens: Set<Seq<u8>>|
                {
                    &&& changed_views(changed) == if old(self).armed() {
                        old(self).pending() + file_contents(
                            walked_files(walked_views(walked@), walked@.len() as int),
                        )
                    } else {
                        old(self).pending()
                    }
                    &&& #[trigger] found_in(*read, *transform, *extract, changed, tokens)
                    &&& final(self).candidates() == old(self).candidates().union(tokens)
                },
            final(self).pending() == Seq::<ChangedContentView>::empty(),
            final(self).sources() == old(self).sources(),
            final(self).armed() == old(self).armed(),
            final(self).git_required() == old(self).git_required(),
            final(self).well_formed() == old(self).well_formed(),
            final(self).globs() == old(self).globs(),
            final(self).dirs() == if old(self).armed() {
                old(self).dirs() + walked_dirs(walked_views(walked@), walked@.len() as int)
            } else {
                old(self).dirs()
            },
            final(self).files() == if old(self).armed() {
                old(self).files() + walked_files(walked_views(walked@), walked@.len() as int)
            } else {
                old(self).files()
            },
    {
        self.scan_sources(walked);
        let changed_content = self.take_changed_content();
        let ghost changed = changed_content@;
        let ghost known = self.candidates();
        let _ = self.scan_content(changed_content, read, transform, extract);
        proof {
            let tokens = choose|tokens: Set<Seq<u8>>|
                {
                    &&& #[trigger] found_in(*read, *transform, *extract, changed, tokens)
                    &&& self.candidates() == known.union(tokens)
                };
            assert(found_in(*read, *transform, *extract, changed, tokens));
        }
        self.all_candidates()
    }

    /// Takes in what the walker admitted and returns the files it has admitted
    /// so far, in the order of their bytes.
    pub fn get_files(&mut self, walked: &Vec<WalkedEntry>) -> (files: Vec<String>)
        ensures
            text_views(files@) == sorted_texts(final(self).files()),
            final(self).files() == if old(self).armed() {
                old(self).files() + walked_files(walked_views(walked@), walked@.len() as int)
            } else {
                old(self).files()
            },
            final(self).dirs() == if old(self).armed() {
                old(self).dirs() + walked_dirs(walked_views(walked@), walked@.len() as int)
            } else {
                old(self).dirs()
            },
            final(self).pending() == if old(self).armed() {
                old(self).pending() + file_contents(
                    walked_files(walked_views(walked@), walked@.len() as int),
                )
            } else {
                old(self).pending()
            },
            final(self).sources() == old(self).sources(),
            final(self).armed() == old(self).armed(),
            final(self).git_required() == old(self).git_required(),
            final(self).well_formed() == old(self).well_formed(),
            final(self).globs() == old(self).globs(),
            final(self).candidates() == old(self).candidates(),
    {
        self.scan_sources(walked);
        sort_texts(&self.files)
    }

    /// Takes in what the walker admitted and returns the globs to watch: the
    /// globs handed out before, then for each base in which everything is
    /// discovered the pattern for what lies directly in it and the globs
    /// resolved from its listing, all of it passed through `optimize`.
    pub fn get_globs<O: Fn(&Vec<GlobEntry>) -> Vec<GlobEntry>>(
        &mut self,
        walked: &Vec<WalkedEntry>,
        trees: Vec<DirectoryTree>,
        optimize: &O,
    ) -> (globs: Vec<GlobEntry>)
        requires
            forall|given: &Vec<GlobEntry>| call_requires(*optimize, (given,)),
        ensures
            glob_views(globs@) == final(self).globs(),
            exists|given: Vec<GlobEntry>, optimized: Vec<GlobEntry>|
                {
                    &&& glob_views(given@) == old(self).globs() + globs_for(
                        old(self).sources(),
                        tree_views(trees@),
                        final(self).dirs().to_set(),
                    )
                    &&& #[trigger] call_ensures(*optimize, (&given,), optimized)
                    &&& final(self).globs() == glob_views(optimized@)
                    &&& forall|m: int|
                        old(self).globs().len() <= m < given@.len() ==> (#[trigger] glob_views(
                            given@,
                        )[m]).pattern == top_level_pattern_text()
                            || final(self).dirs().to_set().contains(glob_views(given@)[m].base)
                },
            final(self).files() == if old(self).armed() {
                old(self).files() + walked_files(walked_views(walked@), walked@.len() as int)
            } else {
                old(self).files()
            },
            final(self).dirs() == if old(self).armed() {
                old(self).dirs() + walked_dirs(walked_views(walked@), walked@.len() as int)
            } else {
                old(self).dirs()
            },
            final(self).pending() == if old(self).armed() {
                old(self).pending() + file_contents(
                    walked_files(walked_views(walked@), walked@.len() as int),
                )
            } else {
                old(self).pending()
            },
            final(self).sources() == old(self).sources(),
            final(self).armed() == old(self).armed(),
            final(self).git_required() == old(self).git_required(),
            final(self).well_formed() == old(self).well_formed(),
            final(self).candidates() == old(self).candidates(),
    {
        self.scan_sources(walked);
        let ghost globs_before = self.globs();
        let ghost all_sources = self.sources();
        let ghost all_trees = tree_views(trees@);
        let ghost allowed = self.dirs().to_set();
        let mut remaining = trees;
        let n: usize = self.sources.len();
        let mut i: usize = 0;
        proof {
            assert(all_sources.skip(0) =~= all_sources);
        }
        while i < n
            invariant
                n == self.sources@.len(),
                0 <= i <= n,
                all_sources == entry_views(self.sources@),
                allowed == text_views(self.dirs@).to_set(),
                self.sources() == old(self).sources(),
                self.armed() == old(self).armed(),
                self.git_required() == old(self).git_required(),
                self.well_formed() == old(self).well_formed(),
                self.candidates() == old(self).candidates(),
                self.files() == if old(self).armed() {
                    old(self).files() + walked_files(walked_views(walked@), walked@.len() as int)
                } else {
                    old(self).files()
                },
                self.dirs() == if old(self).armed() {
                    old(self).dirs() + walked_dirs(walked_views(walked@), walked@.len() as int)
                } else {
                    old(self).dirs()
                },
                self.pending() == if old(self).armed() {
                    old(self).pending() + file_contents(
                        walked_files(walked_views(walked@), walked@.len() as int),
                    )
                } else {
                    old(self).pending()
                },
                glob_views(self.globs@) + globs_for(
                    all_sources.skip(i as int),
                    tree_views(remaining@),
                    allowed,
                ) == globs_before + globs_for(all_sources, all_trees, allowed),
            decreases n - i,
        {
            let ghost rest = all_sources.skip(i as int);
            let ghost sofar = glob_views(self.globs@);
            let ghost trees_before = tree_views(remaining@);
            proof {
                assert(rest[0] == self.sources@[i as int]@);
                assert(rest.drop_first() =~= all_sources.skip(i as int + 1));
            }
            match &self.sources[i] {
                SourceEntry::Auto { base } => {
                    let top = GlobEntry { base: base.clone(), pattern: String::from_str("*") };
                    self.globs.push(top);
                    if remaining.len() > 0 {
                        let tree = remaining.remove(0);
                        let mut resolved = resolve_globs(tree, &self.dirs);
                        let ghost resolved_views = glob_views(resolved@);
                        let ghost pushed = glob_views(self.globs@);
                        self.globs.append(&mut resolved);
                        proof {
                            assert(tree_views(remaining@) =~= trees_before.drop_first());
                            assert(pushed =~= sofar.push(
                                GlobEntryView { base: base@, pattern: top_level_pattern_text() },
                            ));
                            assert(glob_views(self.globs@) =~= pushed + resolved_views);
                            assert(glob_views(self.globs@) + globs_for(
                                rest.drop_first(),
                                trees_before.drop_first(),
                                allowed,
                            ) =~= sofar + globs_for(rest, trees_before, allowed));
                        }
                    } else {
                        proof {
                            assert(glob_views(self.globs@) =~= sofar.push(
                                GlobEntryView { base: base@, pattern: top_level_pattern_text() },
                            ));
                            assert(glob_views(self.globs@) + globs_for(
                                rest.drop_first(),
                                trees_before,
                                allowed,
                            ) =~= sofar + globs_for(rest, trees_before, allowed));
                        }
                    }
                },
                _ => {},
            }
            i = i + 1;
        }
        proof {
            assert(all_sources.skip(n as int) =~= Seq::<SourceEntryView>::empty());
            assert(glob_views(self.globs@) + Seq::<GlobEntryView>::empty() =~= glob_views(
                self.globs@,
            ));
        }
        let given = clone_globs(&self.globs);
        let optimized = optimize(&given);
        let globs = clone_globs(&optimized);
        proof {
            assert(call_ensures(*optimize, (&given,), optimized));
            assert forall|m: int| globs_before.len() <= m < given@.len() implies (
            #[trigger] glob_views(given@)[m]).pattern == top_level_pattern_text()
                || allowed.contains(glob_views(given@)[m].base) by {
                lemma_added_globs(all_sources, all_trees, allowed, m - globs_before.len());
            }
        }
        self.globs = optimized;
        globs
    }

    /// The candidates of one item of changed content, with the positions at
    /// which they stand in it: in the bytes of the content that was given, or
    /// in the bytes that `read` returns for the file. The content is not
    /// pre-processed here, so that every position is one in the input. A file
    /// that cannot be read counts as empty.
    pub fn get_candidates_with_positions<
        R: Fn(&String) -> Option<Vec<u8>>,
        E: Fn(&Vec<u8>) -> Vec<Extracted>,
    >(&mut self, changed_content: ChangedContent, read: &R, extract: &E) -> (found: Vec<
        (Vec<u8>, usize),
    >)
        requires
            forall|path: &String| call_requires(*read, (path,)),
            forall|bytes: &Vec<u8>| call_requires(*extract, (bytes,)),
        ensures
            *final(self) == *old(self),
            exists|content: Seq<u8>, masked: Vec<u8>, spans: Vec<Extracted>|
                {
                    &&& #[trigger] given_bytes(*read, changed_content, content)
                    &&& masked@ == masked_text(content)
                    &&& #[trigger] call_ensures(*extract, (&masked,), spans)
                    &&& position_views(found@) == positioned(content, spans@, spans@.len() as int)
                    &&& forall|i: int|
                        0 <= i < found@.len() ==> {
                            &&& (#[trigger] found@[i]).1 + found@[i].0@.len() <= content.len()
                            &&& content.subrange(
                                found@[i].1 as int,
                                found@[i].1 + found@[i].0@.len(),
                            ) == found@[i].0@
                        }
                },
            match changed_content {
                ChangedContent::Content(text, _) => forall|i: int|
                    0 <= i < found@.len() ==> {
                        &&& (#[trigger] found@[i]).1 + found@[i].0@.len() <= encode_utf8(
                            text@,
                        ).len()
                        &&& encode_utf8(text@).subrange(
                            found@[i].1 as int,
                            found@[i].1 + found@[i].0@.len(),
                        ) == found@[i].0@
                    },
                ChangedContent::File(_, _) => true,
            },
    {
        let content = match &changed_content {
            ChangedContent::File(path, _) => {
                let raw = read(path);
                proof {
                    assert(call_ensures(*read, (path,), raw));
                    assert(given_bytes(*read, changed_content, content_of(raw)));
                }
                match raw {
                    Some(bytes) => bytes,
                    None => Vec::new(),
                }
            },
            ChangedContent::Content(text, _) => text.as_str().as_bytes_vec(),
        };
        assert(given_bytes(*read, changed_content, content@));
        let masked = mask_empty_brackets(&content);
        let spans = extract(&masked);
        let found = restore_positions(&content, &spans);
        proof {
            assert(call_ensures(*extract, (&masked,), spans));
        }
        found
    }
}

/// `content` holds the bytes of `changed` as they were given: for content
/// given directly its own bytes, for a file what `read` returns for its path,
/// or nothing where `read` returns nothing.
pub open spec fn given_bytes<R: Fn(&String) -> Option<Vec<u8>>>(
    read: R,
    changed: ChangedContent,
    content: Seq<u8>,
) -> bool {
    match changed {
        ChangedContent::File(path, _) => exists|raw: Option<Vec<u8>>|
            #[trigger] call_ensures(read, (&path,), raw) && content == content_of(raw),
        ChangedContent::Content(text, _) => content == encode_utf8(text@),
    }
}

/// The bytes that were read, if any were.
pub open spec fn read_view(raw: Option<Vec<u8>>) -> Option<Seq<u8>> {
    match raw {
        Some(content) => Some(content@),
        None => None,
    }
}

/// The collaborators are functions of what they are given: for the same path
/// `read` returns the same bytes, for the same content `transform` returns the
/// same content, and for the same bytes `extract` returns the same spans.
pub open spec fn collaborators_are_functions<
    R: Fn(&String) -> Option<Vec<u8>>,
    T: Fn(PreProcessor, &Vec<u8>) -> Vec<u8>,
    E: Fn(&Vec<u8>) -> Vec<Extracted>,
>(read: R, transform: T, extract: E) -> bool {
    &&& forall|a: &String, b: &String, x: Option<Vec<u8>>, y: Option<Vec<u8>>|
        a@ == b@ && #[trigger] call_ensures(read, (a,), x) && #[trigger] call_ensures(
            read,
            (b,),
            y,
        ) ==> read_view(x) == read_view(y)
    &&& forall|kind: PreProcessor, a: &Vec<u8>, b: &Vec<u8>, x: Vec<u8>, y: Vec<u8>|
        a@ == b@ && #[trigger] call_ensures(transform, (kind, a), x) && #[trigger] call_ensures(
            transform,
            (kind, b),
            y,
        ) ==> x@ == y@
    &&& forall|a: &Vec<u8>, b: &Vec<u8>, x: Vec<Extracted>, y: Vec<Extracted>|
        a@ == b@ && #[trigger] call_ensures(extract, (a,), x) && #[trigger] call_ensures(
            extract,
            (b,),
            y,
        ) ==> x@ == y@
}

proof fn lemma_processed_alike<T: Fn(PreProcessor, &Vec<u8>) -> Vec<u8>>(
    transform: T,
    a: Vec<u8>,
    b: Vec<u8>,
    extension: Seq<char>,
    x: Vec<u8>,
    y: Vec<u8>,
)
    requires
        forall|kind: PreProcessor, a: &Vec<u8>, b: &Vec<u8>, x: Vec<u8>, y: Vec<u8>|
            a@ == b@ && #[trigger] call_ensures(transform, (kind, a), x) && #[trigger] call_ensures(
                transform,
                (kind, b),
                y,
            ) ==> x@ == y@,
        a@ == b@,
        processed_by(transform, a, extension, x),
        processed_by(transform, b, extension, y),
    ensures
        x@ == y@,
{
}

proof fn lemma_loaded_alike<
    R: Fn(&String) -> Option<Vec<u8>>,
    T: Fn(PreProcessor, &Vec<u8>) -> Vec<u8>,
    E: Fn(&Vec<u8>) -> Vec<Extracted>,
>(read: R, transform: T, extract: E, changed: ChangedContent, x: Option<Vec<u8>>, y: Option<Vec<u8>>)
    requires
        collaborators_are_functions(read, transform, extract),
        loaded_by(read, transform, changed, x),
        loaded_by(read, transform, changed, y),
    ensures
        read_view(x) == read_view(y),
{
    match changed {
        ChangedContent::File(path, extension) => {
            let raw_x = choose|raw: Option<Vec<u8>>|
                {
                    &&& #[trigger] call_ensures(read, (&path,), raw)
                    &&& match raw {
                        Some(content) => x is Some && processed_by(
                            transform,
                            content,
                            extension@,
                            x->0,
                        ),
                        None => x is None,
                    }
                };
            let raw_y = choose|raw: Option<Vec<u8>>|
                {
                    &&& #[trigger] call_ensures(read, (&path,), raw)
                    &&& match raw {
                        Some(content) => y is Some && processed_by(
                            transform,
                            content,
                            extension@,
                            y->0,
                        ),
                        None => y is None,
                    }
                };
            assert(read_view(raw_x) == read_view(raw_y));
            if raw_x is Some {
                lemma_processed_alike(transform, raw_x->0, raw_y->0, extension@, x->0, y->0);
            }
        },
        ChangedContent::Content(text, extension) => {
            let content_x = choose|content: Vec<u8>|
                {
                    &&& content@ == encode_utf8(text@)
                    &&& x is Some
                    &&& #[trigger] processed_by(transform, content, extension@, x->0)
                };
            let content_y = choose|content: Vec<u8>|
                {
                    &&& content@ == encode_utf8(text@)
                    &&& y is Some
                    &&& #[trigger] processed_by(transform, content, extension@, y->0)
                };
            lemma_processed_alike(transform, content_x, content_y, extension@, x->0, y->0);
        },
    }
}

proof fn lemma_present_alike(x: Seq<Option<Vec<u8>>>, y: Seq<Option<Vec<u8>>>, k: int)
    requires
        0 <= k <= x.len(),
        x.len() == y.len(),
        forall|i: int| 0 <= i < x.len() ==> read_view(#[trigger] x[i]) == read_view(y[i]),
    ensures
        byte_views(present(x, k)) == byte_views(present(y, k)),
    decreases k,
{
    if k > 0 {
        lemma_present_alike(x, y, k - 1);
        assert(read_view(x[k - 1]) == read_view(y[k - 1]));
        match x[k - 1] {
            Some(blob) => {
                assert(byte_views(present(x, k)) =~= byte_views(present(x, k - 1)).push(blob@));
                assert(byte_views(present(y, k)) =~= byte_views(present(y, k - 1)).push(
                    (y[k - 1]->0)@,
                ));
            },
            None => {},
        }
    } else {
        assert(byte_views(present(x, k)) =~= byte_views(present(y, k)));
    }
}

/// Where the collaborators are functions of what they are given, the
/// candidates that changed content holds are fixed by that content.
pub proof fn lemma_found_in_unique<
    R: Fn(&String) -> Option<Vec<u8>>,
    T: Fn(PreProcessor, &Vec<u8>) -> Vec<u8>,
    E: Fn(&Vec<u8>) -> Vec<Extracted>,
>(
    read: R,
    transform: T,
    extract: E,
    changed: Seq<ChangedContent>,
    first: Set<Seq<u8>>,
    second: Set<Seq<u8>>,
)
    requires
        collaborators_are_functions(read, transform, extract),
        found_in(read, transform, extract, changed, first),
        found_in(read, transform, extract, changed, second),
    ensures
        first == second,
{
    let (outcomes_x, lines_x, spans_x) = choose|
        outcomes: Seq<Option<Vec<u8>>>,
        lines: Seq<Vec<u8>>,
        spans: Seq<Vec<Extracted>>,
    |
        {
            &&& #[trigger] loaded_all(read, transform, changed, outcomes)
            &&& byte_views(lines) == all_lines(
                byte_views(present(outcomes, outcomes.len() as int)),
            )
            &&& #[trigger] extracted_by(extract, lines, spans)
            &&& first == all_tokens(byte_views(lines), span_views(spans))
        };
    let (outcomes_y, lines_y, spans_y) = choose|
        outcomes: Seq<Option<Vec<u8>>>,
        lines: Seq<Vec<u8>>,
        spans: Seq<Vec<Extracted>>,
    |
        {
            &&& #[trigger] loaded_all(read, transform, changed, outcomes)
            &&& byte_views(lines) == all_lines(
                byte_views(present(outcomes, outcomes.len() as int)),
            )
            &&& #[trigger] extracted_by(extract, lines, spans)
            &&& second == all_tokens(byte_views(lines), span_views(spans))
        };
    assert forall|i: int| 0 <= i < outcomes_x.len() implies read_view(#[trigger] outcomes_x[i])
        == read_view(outcomes_y[i]) by {
        lemma_loaded_alike(read, transform, extract, changed[i], outcomes_x[i], outcomes_y[i]);
    }
    lemma_present_alike(outcomes_x, outcomes_y, outcomes_x.len() as int);
    assert(byte_views(lines_x) == byte_views(lines_y));
    assert(lines_x.len() == lines_y.len());
    assert forall|i: int| 0 <= i < spans_x.len() implies (#[trigger] spans_x[i])@ == spans_y[i]@ by {
        assert(byte_views(lines_x)[i] == byte_views(lines_y)[i]);
        assert(lines_x[i]@ == lines_y[i]@);
        assert(call_ensures(extract, (&lines_x[i],), spans_x[i]));
        assert(call_ensures(extract, (&lines_y[i],), spans_y[i]));
    }
    assert(span_views(spans_x) =~= span_views(spans_y));
}

/// Scanning the same content again finds nothing new: `fresh` is what the
/// second of two calls of `scan_content` with the same content returns, where
/// the first found `first` and the scanner knew `known` before it.
pub proof fn lemma_same_content_adds_nothing<
    R: Fn(&String) -> Option<Vec<u8>>,
    T: Fn(PreProcessor, &Vec<u8>) -> Vec<u8>,
    E: Fn(&Vec<u8>) -> Vec<Extracted>,
>(
    read: R,
    transform: T,
    extract: E,
    changed: Seq<ChangedContent>,
    known: Set<Seq<u8>>,
    first: Set<Seq<u8>>,
    second: Set<Seq<u8>>,
    fresh: Seq<Seq<u8>>,
)
    requires
        collaborators_are_functions(read, transform, extract),
        found_in(read, transform, extract, changed, first),
        found_in(read, transform, extract, changed, second),
        fresh.to_set() == second.difference(known.union(first)),
    ensures
        fresh.len() == 0,
{
    lemma_found_in_unique(read, transform, extract, changed, first, second);
    if fresh.len() > 0 {
        assert(fresh.to_set().contains(fresh[0]));
    }
}

/// Two scans in a row, between which the walker admits no file, return the
/// same list: `first` is what a scan returned and `before` the scanner it
/// left; `second` is what the next scan returns for the walk `walked`, and
/// `after` the scanner that it leaves.
pub proof fn lemma_rescan_identical<
    R: Fn(&String) -> Option<Vec<u8>>,
    T: Fn(PreProcessor, &Vec<u8>) -> Vec<u8>,
    E: Fn(&Vec<u8>) -> Vec<Extracted>,
>(
    read: R,
    transform: T,
    extract: E,
    before: Scanner,
    after: Scanner,
    walked: Seq<WalkedView>,
    first: Seq<Seq<u8>>,
    second: Seq<Seq<u8>>,
)
    requires
        strictly_sorted(first),
        first.to_set() == before.candidates(),
        before.pending() == Seq::<ChangedContentView>::empty(),
        walked_files(walked, walked.len() as int) == Seq::<Seq<char>>::empty(),
        strictly_sorted(second),
        second.to_set() == after.candidates(),
        exists|changed: Seq<ChangedContent>, tokens: Set<Seq<u8>>|
            {
                &&& changed_views(changed) == if before.armed() {
                    before.pending() + file_contents(walked_files(walked, walked.len() as int))
                } else {
                    before.pending()
                }
                &&& #[trigger] found_in(read, transform, extract, changed, tokens)
                &&& after.candidates() == before.candidates().union(tokens)
            },
    ensures
        second == first,
{
    let (changed, tokens) = choose|changed: Seq<ChangedContent>, tokens: Set<Seq<u8>>|
        {
            &&& changed_views(changed) == if before.armed() {
                before.pending() + file_contents(walked_files(walked, walked.len() as int))
            } else {
                before.pending()
            }
            &&& #[trigger] found_in(read, transform, extract, changed, tokens)
            &&& after.candidates() == before.candidates().union(tokens)
        };
    assert(changed_views(changed).len() == 0);
    lemma_nothing_changed(read, transform, extract, changed, tokens);
    assert(after.candidates() =~= before.candidates());
    lemma_strictly_sorted_unique(first, second);
}

/// The candidates only grow: whatever a scan returned, the next scan returns
/// too. `first` is what a scan returned and `before` the scanner it left;
/// `second` is what the next scan returns, and `after` the scanner it leaves.
pub proof fn lemma_candidates_only_grow(
    before: Scanner,
    after: Scanner,
    first: Seq<Seq<u8>>,
    second: Seq<Seq<u8>>,
    i: int,
)
    requires
        first.to_set() == before.candidates(),
        second.to_set() == after.candidates(),
        before.candidates().subset_of(after.candidates()),
        0 <= i < first.len(),
    ensures
        second.contains(first[i]),
{
    assert(first.to_set().contains(first[i]));
    assert(second.to_set().contains(first[i]));
}

/// The bases of the entries that discover everything, in their order.
pub open spec fn auto_base_list(sources: Seq<SourceEntryView>) -> Seq<Seq<char>>
    decreases sources.len(),
{
    if sources.len() == 0 {
        Seq::empty()
    } else {
        match sources.last() {
            SourceEntryView::Auto { base } => auto_base_list(sources.drop_last()).push(base),
            _ => auto_base_list(sources.drop_last()),
        }
    }
}

} // verus!
