//! The ignore compiler: from the source entries, what the walker is to
//! traverse and which rules it is to apply.

use vstd::prelude::*;
use vstd::string::StringExecFns;
use ignore::gitignore::Gitignore;
use crate::collections::{path_set_insert, path_set_items, path_set_new};
use crate::gitignore::{
    build_matcher,
    built_from,
    lines_verdict,
    matcher_verdict,
    rules_valid,
    InvalidPattern,
    Verdict,
};
use crate::paths::{git_marker_list, git_marker_paths, text_views};
use crate::rules::{default_matcher, default_rule_list};
use crate::sources::{entry_views, SourceEntry, SourceEntryView};
use crate::text::{
    find_insertion_point,
    insertion_point,
    insertion_point_from,
    lemma_bytes_determine_text,
    lemma_insertion_point,
    lemma_lex_total,
    lemma_lex_transitive,
    str_equal,
    str_less,
    text_less,
    texts_strictly_sorted,
};
use vstd::utf8::encode_utf8;

verus! {

/// The directory that an entry speaks of.
pub open spec fn entry_base(entry: SourceEntryView) -> Seq<char> {
    match entry {
        SourceEntryView::Auto { base } => base,
        SourceEntryView::Pattern { base, .. } => base,
        SourceEntryView::IgnoredAuto { base } => base,
        SourceEntryView::IgnoredPattern { base, .. } => base,
    }
}

/// Whether the walker is to traverse the entry's base.
pub open spec fn contributes_root(entry: SourceEntryView) -> bool {
    entry is Auto || entry is Pattern
}

/// The rule line that an entry adds at its base. An excluded tree excludes
/// everything below the base; an included pattern is written with a leading
/// `!`, which in gitignore syntax includes again; an excluded pattern stands as
/// it is.
pub open spec fn ignore_line(entry: SourceEntryView) -> Option<Seq<char>> {
    match entry {
        SourceEntryView::Auto { .. } => None,
        SourceEntryView::IgnoredAuto { .. } => Some("**/*"@),
        SourceEntryView::Pattern { pattern, .. } => Some("!"@ + pattern),
        SourceEntryView::IgnoredPattern { pattern, .. } => Some(pattern),
    }
}

/// The bases that the walker traverses: those of the including entries, each
/// once, in the order in which they first occur.
pub open spec fn root_list(sources: Seq<SourceEntryView>) -> Seq<Seq<char>>
    decreases sources.len(),
{
    if sources.len() == 0 {
        Seq::empty()
    } else {
        let before = root_list(sources.drop_last());
        let entry = sources.last();
        if contributes_root(entry) && !before.contains(entry_base(entry)) {
            before.push(entry_base(entry))
        } else {
            before
        }
    }
}

/// A sorted list with `x` put in its place, unless it is there already.
pub open spec fn sorted_insert(list: Seq<Seq<char>>, x: Seq<char>) -> Seq<Seq<char>> {
    let k = insertion_point(list, x);
    if 0 <= k < list.len() && list[k] == x {
        list
    } else {
        list.insert(k, x)
    }
}

/// The rules that the directives give for one base.
pub struct LayerView {
    pub base: Seq<char>,
    pub lines: Seq<Seq<char>>,
}

/// The bases of a list of layers.
pub open spec fn layer_bases(layers: Seq<LayerView>) -> Seq<Seq<char>> {
    Seq::new(layers.len(), |i: int| layers[i].base)
}

/// The layers with `line` added for `base`. The layers are kept in the order
/// of their bases and the lines of each in their own order, both byte-wise;
/// neither holds anything twice.
pub open spec fn add_rule(layers: Seq<LayerView>, base: Seq<char>, line: Seq<char>) -> Seq<
    LayerView,
> {
    let k = insertion_point(layer_bases(layers), base);
    if 0 <= k < layers.len() && layers[k].base == base {
        layers.update(k, LayerView { base: base, lines: sorted_insert(layers[k].lines, line) })
    } else {
        layers.insert(k, LayerView { base: base, lines: seq![line] })
    }
}

/// The rules that the entries give, base by base.
pub open spec fn ignore_layers(sources: Seq<SourceEntryView>) -> Seq<LayerView>
    decreases sources.len(),
{
    if sources.len() == 0 {
        Seq::empty()
    } else {
        let before = ignore_layers(sources.drop_last());
        let entry = sources.last();
        match ignore_line(entry) {
            Some(line) => add_rule(before, entry_base(entry), line),
            None => before,
        }
    }
}

/// Putting a text in its place keeps a sorted list sorted, and adds just that
/// text to what the list holds.
pub proof fn lemma_sorted_insert(list: Seq<Seq<char>>, x: Seq<char>)
    requires
        texts_strictly_sorted(list),
    ensures
        texts_strictly_sorted(sorted_insert(list, x)),
        sorted_insert(list, x).to_set() == list.to_set().insert(x),
{
    let k = insertion_point(list, x);
    let after = sorted_insert(list, x);
    lemma_insertion_point(list, x, 0);
    if k < list.len() && list[k] == x {
        assert(after.to_set() =~= list.to_set().insert(x)) by {
            assert(list.to_set().contains(x));
        }
    } else {
        assert forall|i: int, j: int| 0 <= i < j < after.len() implies text_less(
            #[trigger] after[i],
            #[trigger] after[j],
        ) by {
            if j < k {
                assert(text_less(list[i], list[j]));
            } else if j == k {
                assert(text_less(list[i], x));
            } else {
                // after[j] is list[j - 1], which does not come before x
                lemma_lex_total(encode_utf8(list[k]), encode_utf8(x));
                if encode_utf8(list[k]) == encode_utf8(x) {
                    lemma_bytes_determine_text(list[k], x);
                }
                assert(text_less(x, list[k]));
                if j - 1 > k {
                    assert(text_less(list[k], list[j - 1]));
                    lemma_lex_transitive(
                        encode_utf8(x),
                        encode_utf8(list[k]),
                        encode_utf8(list[j - 1]),
                    );
                }
                if i < k {
                    assert(text_less(list[i], x));
                    lemma_lex_transitive(
                        encode_utf8(list[i]),
                        encode_utf8(x),
                        encode_utf8(list[j - 1]),
                    );
                } else if i > k {
                    assert(text_less(list[i - 1], list[j - 1]));
                }
            }
        }
        assert(after.to_set() =~= list.to_set().insert(x)) by {
            assert forall|t: Seq<char>| after.to_set().contains(t) <==> list.to_set().insert(
                x,
            ).contains(t) by {
                if after.to_set().contains(t) {
                    let m = choose|m: int| 0 <= m < after.len() && after[m] == t;
                    if m < k {
                        assert(list[m] == t);
                    } else if m > k {
                        assert(list[m - 1] == t);
                    }
                }
                if list.to_set().contains(t) {
                    let m = choose|m: int| 0 <= m < list.len() && list[m] == t;
                    if m < k {
                        assert(after[m] == t);
                    } else {
                        assert(after[m + 1] == t);
                    }
                }
                if t == x {
                    assert(after[k] == t);
                }
            }
        }
    }
}

/// The layers are in the order of their bases, no base twice, and the lines
/// of each are in order, no line twice.
pub open spec fn layers_sorted(layers: Seq<LayerView>) -> bool {
    &&& texts_strictly_sorted(layer_bases(layers))
    &&& forall|k: int| 0 <= k < layers.len() ==> texts_strictly_sorted((#[trigger] layers[k]).lines)
}

proof fn lemma_add_rule_sorted(layers: Seq<LayerView>, base: Seq<char>, line: Seq<char>)
    requires
        layers_sorted(layers),
    ensures
        layers_sorted(add_rule(layers, base, line)),
{
    let bases = layer_bases(layers);
    let k = insertion_point(bases, base);
    let after = add_rule(layers, base, line);
    lemma_insertion_point(bases, base, 0);
    lemma_sorted_insert(bases, base);
    if k < layers.len() && layers[k].base == base {
        lemma_sorted_insert(layers[k].lines, line);
        assert(layer_bases(after) =~= bases);
    } else {
        assert(bases[k] == layers[k].base || k >= layers.len());
        assert(layer_bases(after) =~= sorted_insert(bases, base));
        assert(texts_strictly_sorted(Seq::<Seq<char>>::empty().push(line)));
        assert forall|m: int| 0 <= m < after.len() implies texts_strictly_sorted(
            (#[trigger] after[m]).lines,
        ) by {
            if m < k {
                assert(after[m] == layers[m]);
            } else if m > k {
                assert(after[m] == layers[m - 1]);
            } else {
                assert(after[m].lines =~= Seq::<Seq<char>>::empty().push(line));
            }
        }
    }
}

/// Whatever the entries, their rules come out in the order of their bases, and
/// the lines of each base in their own order, nothing twice.
pub proof fn lemma_layers_sorted(sources: Seq<SourceEntryView>)
    ensures
        layers_sorted(ignore_layers(sources)),
    decreases sources.len(),
{
    if sources.len() > 0 {
        lemma_layers_sorted(sources.drop_last());
        match ignore_line(sources.last()) {
            Some(line) => {
                lemma_add_rule_sorted(
                    ignore_layers(sources.drop_last()),
                    entry_base(sources.last()),
                    line,
                );
            },
            None => {},
        }
    } else {
        assert(layer_bases(ignore_layers(sources)) =~= Seq::<Seq<char>>::empty());
    }
}

/// `path` lies below the directory `base`: its bytes are those of `base`, a
/// `/` unless `base` ends in one or is empty, and something more.
pub open spec fn lies_below(base: Seq<char>, path: Seq<char>) -> bool {
    let above = encode_utf8(base);
    let whole = encode_utf8(path);
    &&& above.len() < whole.len()
    &&& whole.subrange(0, above.len() as int) == above
    &&& (above.len() == 0 || above.last() == 47u8 || whole[above.len() as int] == 47u8)
}

/// Whether `path` lies below the directory `base`.
pub fn is_below(base: &str, path: &str) -> (below: bool)
    ensures
        below == lies_below(base@, path@),
{
    let above = base.as_bytes();
    let whole = path.as_bytes();
    let n: usize = above.len();
    if n >= whole.len() {
        return false;
    }
    let mut i: usize = 0;
    while i < n
        invariant
            n == above@.len(),
            n < whole@.len(),
            above@ == encode_utf8(base@),
            whole@ == encode_utf8(path@),
            0 <= i <= n,
            forall|m: int| 0 <= m < i ==> whole@[m] == above@[m],
        decreases n - i,
    {
        if whole[i] != above[i] {
            assert(whole@.subrange(0, n as int)[i as int] != above@[i as int]);
            return false;
        }
        i = i + 1;
    }
    assert(whole@.subrange(0, n as int) =~= above@);
    n == 0 || above[n - 1] == 47u8 || whole[n] == 47u8
}

/// What the first `k` layers say of `path`: the last of them that says
/// anything decides. A layer says nothing of what does not lie below its
/// base.
pub open spec fn layered_verdict(
    layers: Seq<LayerView>,
    path: Seq<char>,
    is_dir: bool,
    k: int,
) -> Verdict
    decreases k,
{
    if k <= 0 || k > layers.len() {
        Verdict::Unmatched
    } else {
        let own = if lies_below(layers[k - 1].base, path) {
            lines_verdict(layers[k - 1].base, layers[k - 1].lines, path, is_dir)
        } else {
            Verdict::Unmatched
        };
        if own != Verdict::Unmatched {
            own
        } else {
            layered_verdict(layers, path, is_dir, k - 1)
        }
    }
}

/// What the layers and, below them, the built-in rules say of `path`.
pub open spec fn config_verdict(layers: Seq<LayerView>, path: Seq<char>, is_dir: bool) -> Verdict {
    let user = layered_verdict(layers, path, is_dir, layers.len() as int);
    if user != Verdict::Unmatched {
        user
    } else {
        lines_verdict(Seq::<char>::empty(), default_rule_list(), path, is_dir)
    }
}

/// What a directive includes again the built-in rules cannot exclude: where
/// the layers say of a path that it is included, that is the verdict, whatever
/// the built-in rules say.
pub proof fn lemma_directive_overrides_built_in(
    layers: Seq<LayerView>,
    path: Seq<char>,
    is_dir: bool,
)
    requires
        layered_verdict(layers, path, is_dir, layers.len() as int) == Verdict::Whitelist,
    ensures
        config_verdict(layers, path, is_dir) == Verdict::Whitelist,
{
}

/// The layers above a layer that excludes a path can include it again, and a
/// later layer that says nothing leaves the word to the earlier ones: the
/// verdict of the layers is that of the last layer that has one.
pub proof fn lemma_last_layer_decides(
    layers: Seq<LayerView>,
    path: Seq<char>,
    is_dir: bool,
    k: int,
)
    requires
        0 <= k < layers.len(),
        lies_below(layers[k].base, path),
        lines_verdict(layers[k].base, layers[k].lines, path, is_dir) != Verdict::Unmatched,
        forall|m: int|
            k < m < layers.len() ==> !lies_below(#[trigger] layers[m].base, path) || lines_verdict(
                layers[m].base,
                layers[m].lines,
                path,
                is_dir,
            ) == Verdict::Unmatched,
    ensures
        config_verdict(layers, path, is_dir) == lines_verdict(
            layers[k].base,
            layers[k].lines,
            path,
            is_dir,
        ),
{
    lemma_layers_above_silent(layers, path, is_dir, k, layers.len() as int);
}

proof fn lemma_layers_above_silent(
    layers: Seq<LayerView>,
    path: Seq<char>,
    is_dir: bool,
    k: int,
    upto: int,
)
    requires
        0 <= k < upto <= layers.len(),
        forall|m: int|
            k < m < layers.len() ==> !lies_below(#[trigger] layers[m].base, path) || lines_verdict(
                layers[m].base,
                layers[m].lines,
                path,
                is_dir,
            ) == Verdict::Unmatched,
    ensures
        layered_verdict(layers, path, is_dir, upto) == layered_verdict(layers, path, is_dir, k + 1),
    decreases upto - k,
{
    if upto > k + 1 {
        assert(!lies_below(layers[upto - 1].base, path) || lines_verdict(
            layers[upto - 1].base,
            layers[upto - 1].lines,
            path,
            is_dir,
        ) == Verdict::Unmatched);
        lemma_layers_above_silent(layers, path, is_dir, k, upto - 1);
    }
}

/// What the `.gitignore` files say of a path, from position `k` of the list
/// on: the first that says anything decides. The list holds the verdict of
/// each `.gitignore` file at or above the path, the nearest first.
pub open spec fn first_spoken(gitignores: Seq<Verdict>, k: int) -> Verdict
    decreases gitignores.len() - k,
{
    if k < 0 || k >= gitignores.len() {
        Verdict::Unmatched
    } else if gitignores[k] != Verdict::Unmatched {
        gitignores[k]
    } else {
        first_spoken(gitignores, k + 1)
    }
}

/// Whether an entry is walked, by the order of the layers: the `.gitignore`
/// files come last and so decide first, the nearest before those further up;
/// where none of them says anything, the verdict `rules` of the directives and
/// the built-in rules decides. A later layer includes again what an earlier one
/// excluded, and excludes what an earlier one included.
pub open spec fn admission(rules: Verdict, gitignores: Seq<Verdict>) -> bool {
    if first_spoken(gitignores, 0) != Verdict::Unmatched {
        first_spoken(gitignores, 0) != Verdict::Ignore
    } else {
        rules != Verdict::Ignore
    }
}

/// Whether an entry is walked, given the verdict `rules` of the directives and
/// the built-in rules, and the verdicts of the `.gitignore` files at and above
/// it, the nearest first.
pub fn admits(rules: Verdict, gitignores: &Vec<Verdict>) -> (admitted: bool)
    ensures
        admitted == admission(rules, gitignores@),
{
    let n: usize = gitignores.len();
    let mut k: usize = 0;
    while k < n
        invariant
            n == gitignores@.len(),
            0 <= k <= n,
            first_spoken(gitignores@, 0) == first_spoken(gitignores@, k as int),
        decreases n - k,
    {
        if gitignores[k] != Verdict::Unmatched {
            return gitignores[k] != Verdict::Ignore;
        }
        k = k + 1;
    }
    rules != Verdict::Ignore
}

/// The built-in rules and those of every layer parse and compile.
pub open spec fn sources_valid(sources: Seq<SourceEntryView>) -> bool {
    &&& rules_valid(default_rule_list())
    &&& forall|k: int|
        0 <= k < ignore_layers(sources).len() ==> rules_valid(
            (#[trigger] ignore_layers(sources)[k]).lines,
        )
}

/// The rule lines for one base, before they are compiled.
#[derive(Debug)]
pub struct RuleSet {
    /// The directory that the lines are relative to.
    pub base: String,
    /// The lines, in byte-wise order, none twice.
    pub lines: Vec<String>,
}

impl View for RuleSet {
    type V = LayerView;

    open spec fn view(&self) -> LayerView {
        LayerView { base: self.base@, lines: text_views(self.lines@) }
    }
}

/// The views of a list of rule sets.
pub open spec fn rule_set_views(sets: Seq<RuleSet>) -> Seq<LayerView> {
    Seq::new(sets.len(), |i: int| sets[i]@)
}

/// Puts `x` in its place in the sorted `list`, unless it is there already.
pub fn insert_sorted(list: &mut Vec<String>, x: String)
    ensures
        text_views(final(list)@) == sorted_insert(text_views(old(list)@), x@),
{
    let ghost before = text_views(list@);
    let k = find_insertion_point(list, x.as_str());
    if k < list.len() && str_equal(list[k].as_str(), x.as_str()) {
        return ;
    }
    list.insert(k, x);
    assert(text_views(list@) =~= before.insert(k as int, x@));
}

fn find_layer(sets: &Vec<RuleSet>, base: &str) -> (k: usize)
    ensures
        k == insertion_point(layer_bases(rule_set_views(sets@)), base@),
        k <= sets@.len(),
{
    let n: usize = sets.len();
    let ghost bases = layer_bases(rule_set_views(sets@));
    let mut k: usize = 0;
    while k < n && str_less(sets[k].base.as_str(), base)
        invariant
            n == sets@.len(),
            0 <= k <= n,
            bases == layer_bases(rule_set_views(sets@)),
            insertion_point(bases, base@) == insertion_point_from(bases, base@, k as int),
        decreases n - k,
    {
        k = k + 1;
    }
    k
}

fn add_rule_line(sets: &mut Vec<RuleSet>, base: &String, line: String)
    ensures
        rule_set_views(final(sets)@) == add_rule(rule_set_views(old(sets)@), base@, line@),
{
    let ghost before = rule_set_views(sets@);
    let k = find_layer(sets, base.as_str());
    if k < sets.len() && str_equal(sets[k].base.as_str(), base.as_str()) {
        let mut set = sets.remove(k);
        let ghost lines_before = text_views(set.lines@);
        insert_sorted(&mut set.lines, line);
        sets.insert(k, set);
        assert(rule_set_views(sets@) =~= before.update(
            k as int,
            LayerView { base: base@, lines: sorted_insert(lines_before, line@) },
        ));
    } else {
        let mut lines: Vec<String> = Vec::new();
        lines.push(line);
        assert(text_views(lines@) =~= seq![line@]);
        sets.insert(k, RuleSet { base: base.clone(), lines });
        assert(rule_set_views(sets@) =~= before.insert(
            k as int,
            LayerView { base: base@, lines: seq![line@] },
        ));
    }
}

/// The rule line that `entry` adds at its base, if it adds one.
pub fn rule_line_of(entry: &SourceEntry) -> (line: Option<String>)
    ensures
        match line {
            Some(text) => ignore_line(entry@) == Some(text@),
            None => ignore_line(entry@) is None,
        },
{
    match entry {
        SourceEntry::Auto { .. } => None,
        SourceEntry::IgnoredAuto { .. } => Some(String::from_str("**/*")),
        SourceEntry::Pattern { pattern, .. } => {
            let mut line = String::from_str("!");
            line.append(pattern.as_str());
            Some(line)
        },
        SourceEntry::IgnoredPattern { pattern, .. } => Some(pattern.clone()),
    }
}

/// The base of `entry`.
pub fn base_of(entry: &SourceEntry) -> (base: &String)
    ensures
        base@ == entry_base(entry@),
{
    match entry {
        SourceEntry::Auto { base } => base,
        SourceEntry::Pattern { base, .. } => base,
        SourceEntry::IgnoredAuto { base } => base,
        SourceEntry::IgnoredPattern { base, .. } => base,
    }
}

/// The bases that the walker is to traverse.
pub fn collect_roots(sources: &Vec<SourceEntry>) -> (roots: Vec<String>)
    ensures
        text_views(roots@) == root_list(entry_views(sources@)),
{
    let mut roots: Vec<String> = Vec::new();
    let mut seen = path_set_new();
    let n: usize = sources.len();
    let mut i: usize = 0;
    proof {
        assert(entry_views(sources@).take(0) =~= Seq::<SourceEntryView>::empty());
        assert(text_views(roots@) =~= Seq::<Seq<char>>::empty());
    }
    while i < n
        invariant
            n == sources@.len(),
            0 <= i <= n,
            text_views(roots@) == root_list(entry_views(sources@).take(i as int)),
            forall|x: Seq<char>| path_set_items(seen).contains(x) <==> text_views(roots@).contains(x),
        decreases n - i,
    {
        let ghost sofar = text_views(roots@);
        let ghost prefix = entry_views(sources@).take(i as int + 1);
        proof {
            assert(prefix.drop_last() =~= entry_views(sources@).take(i as int));
            assert(prefix.last() == sources@[i as int]@);
        }
        let entry = &sources[i];
        let includes: bool = match entry {
            SourceEntry::Auto { .. } => true,
            SourceEntry::Pattern { .. } => true,
            _ => false,
        };
        if includes {
            let base = base_of(entry);
            let fresh = path_set_insert(&mut seen, base.clone());
            if fresh {
                roots.push(base.clone());
                proof {
                    assert(text_views(roots@) =~= sofar.push(base@));
                    assert forall|x: Seq<char>| path_set_items(seen).contains(x) <==> text_views(
                        roots@,
                    ).contains(x) by {
                        if text_views(roots@).contains(x) {
                            let k = choose|k: int|
                                0 <= k < text_views(roots@).len() && text_views(roots@)[k] == x;
                            if k < sofar.len() {
                                assert(sofar[k] == x);
                            }
                        }
                        if sofar.contains(x) {
                            let k = choose|k: int| 0 <= k < sofar.len() && sofar[k] == x;
                            assert(text_views(roots@)[k] == x);
                        }
                        if x == base@ {
                            assert(text_views(roots@)[sofar.len() as int] == x);
                        }
                    }
                }
            }
        }
        i = i + 1;
    }
    proof {
        assert(entry_views(sources@).take(n as int) =~= entry_views(sources@));
    }
    roots
}

/// The rule lines that the entries give, base by base.
pub fn collect_rules(sources: &Vec<SourceEntry>) -> (sets: Vec<RuleSet>)
    ensures
        rule_set_views(sets@) == ignore_layers(entry_views(sources@)),
{
    let mut sets: Vec<RuleSet> = Vec::new();
    let n: usize = sources.len();
    let mut i: usize = 0;
    proof {
        assert(entry_views(sources@).take(0) =~= Seq::<SourceEntryView>::empty());
        assert(rule_set_views(sets@) =~= Seq::<LayerView>::empty());
    }
    while i < n
        invariant
            n == sources@.len(),
            0 <= i <= n,
            rule_set_views(sets@) == ignore_layers(entry_views(sources@).take(i as int)),
        decreases n - i,
    {
        let ghost prefix = entry_views(sources@).take(i as int + 1);
        proof {
            assert(prefix.drop_last() =~= entry_views(sources@).take(i as int));
            assert(prefix.last() == sources@[i as int]@);
        }
        match rule_line_of(&sources[i]) {
            Some(line) => {
                add_rule_line(&mut sets, base_of(&sources[i]), line);
            },
            None => {},
        }
        i = i + 1;
    }
    proof {
        assert(entry_views(sources@).take(n as int) =~= entry_views(sources@));
    }
    sets
}

/// The rules for one base, with the matcher built from them.
pub struct IgnoreLayer {
    rules: RuleSet,
    matcher: Gitignore,
}

impl IgnoreLayer {
    /// The matcher is the one built for the base from the lines.
    pub closed spec fn well_formed(&self) -> bool {
        built_from(self.matcher, self.rules@.base, self.rules@.lines)
    }

    /// The base and the lines.
    pub closed spec fn view(&self) -> LayerView {
        self.rules@
    }

    /// The directory that the lines are relative to.
    pub fn base(&self) -> (base: &String)
        ensures
            base@ == self.view().base,
    {
        &self.rules.base
    }

    /// The lines.
    pub fn lines(&self) -> (lines: &Vec<String>)
        ensures
            text_views(lines@) == self.view().lines,
    {
        &self.rules.lines
    }

    /// The matcher built from the lines.
    pub fn matcher(&self) -> (matcher: &Gitignore)
        requires
            self.well_formed(),
        ensures
            built_from(*matcher, self.view().base, self.view().lines),
    {
        &self.matcher
    }
}

/// The views of a list of layers.
pub open spec fn layer_views(layers: Seq<IgnoreLayer>) -> Seq<LayerView> {
    Seq::new(layers.len(), |i: int| layers[i].view())
}

/// What the walker is to do: the bases to traverse, the built-in rules, the
/// rules of the directives above them, and whether `.gitignore` files count
/// only inside a repository. Hidden entries are walked like any other, and the
/// user's global gitignore is not consulted.
pub struct WalkerConfig {
    roots: Vec<String>,
    default_rules: Gitignore,
    layers: Vec<IgnoreLayer>,
    require_git: bool,
}

impl WalkerConfig {
    /// The matchers are those of the built-in rules and of the layers' lines,
    /// and there is a base to traverse.
    pub closed spec fn well_formed(&self) -> bool {
        &&& self.roots@.len() > 0
        &&& built_from(self.default_rules, Seq::<char>::empty(), default_rule_list())
        &&& forall|k: int| 0 <= k < self.layers@.len() ==> (#[trigger] self.layers@[k]).well_formed()
    }

    /// The bases to traverse; the first is the one at which the search for a
    /// repository starts.
    pub closed spec fn root_texts(&self) -> Seq<Seq<char>> {
        text_views(self.roots@)
    }

    /// The rules of the directives, base by base.
    pub closed spec fn layer_texts(&self) -> Seq<LayerView> {
        layer_views(self.layers@)
    }

    /// Whether `.gitignore` files count only inside a repository.
    pub closed spec fn git_required(&self) -> bool {
        self.require_git
    }

    /// The bases to traverse.
    pub fn roots(&self) -> (roots: &Vec<String>)
        ensures
            text_views(roots@) == self.root_texts(),
    {
        &self.roots
    }

    /// The matcher of the built-in rules.
    pub fn default_rules(&self) -> (matcher: &Gitignore)
        requires
            self.well_formed(),
        ensures
            built_from(*matcher, Seq::<char>::empty(), default_rule_list()),
    {
        &self.default_rules
    }

    /// The rules of the directives, lowest priority first.
    pub fn layers(&self) -> (layers: &Vec<IgnoreLayer>)
        ensures
            layer_views(layers@) == self.layer_texts(),
    {
        &self.layers
    }

    /// Whether `.gitignore` files count only inside a repository.
    pub fn require_git(&self) -> (required: bool)
        ensures
            required == self.git_required(),
    {
        self.require_git
    }

    /// Where a repository that contains the first base would show: the paths
    /// whose existence [`WalkerConfig::record_git_markers`] wants to know.
    pub fn git_marker_paths(&self) -> (markers: Vec<String>)
        requires
            self.well_formed(),
        ensures
            self.root_texts().len() > 0,
            text_views(markers@) == git_marker_list(self.root_texts()[0]),
    {
        git_marker_paths(self.roots[0].as_str())
    }

    /// What the rules of the configuration say of `path`: the last layer that
    /// says anything decides, and where no layer does, the built-in rules do.
    /// The `.gitignore` files that the walker meets are not part of this.
    pub fn verdict(&self, path: &str, is_dir: bool) -> (verdict: Verdict)
        requires
            self.well_formed(),
        ensures
            verdict == config_verdict(self.layer_texts(), path@, is_dir),
    {
        let mut k: usize = self.layers.len();
        while k > 0
            invariant
                self.well_formed(),
                0 <= k <= self.layers@.len(),
                layered_verdict(
                    self.layer_texts(),
                    path@,
                    is_dir,
                    self.layers@.len() as int,
                ) == layered_verdict(self.layer_texts(), path@, is_dir, k as int),
            decreases k,
        {
            let layer = &self.layers[k - 1];
            proof {
                assert(self.layer_texts()[k as int - 1] == layer.view());
            }
            if is_below(layer.base().as_str(), path) {
                let own = matcher_verdict(layer.matcher(), path, is_dir);
                if own != Verdict::Unmatched {
                    return own;
                }
            }
            k = k - 1;
        }
        matcher_verdict(&self.default_rules, path, is_dir)
    }

    /// Whether `path` is walked: the `.gitignore` files at and above it, whose
    /// verdicts `gitignores` holds with the nearest first, decide before the
    /// rules of the configuration.
    pub fn admits(&self, path: &str, is_dir: bool, gitignores: &Vec<Verdict>) -> (admitted: bool)
        requires
            self.well_formed(),
        ensures
            admitted == admission(
                config_verdict(self.layer_texts(), path@, is_dir),
                gitignores@,
            ),
    {
        admits(self.verdict(path, is_dir), gitignores)
    }

    /// Whether the rules of the configuration exclude `path`.
    pub fn excludes(&self, path: &str, is_dir: bool) -> (excluded: bool)
        requires
            self.well_formed(),
        ensures
            excluded == (config_verdict(self.layer_texts(), path@, is_dir) == Verdict::Ignore),
    {
        self.verdict(path, is_dir) == Verdict::Ignore
    }

    /// Records what the search for a repository found: `markers[k]` tells
    /// whether the `k`-th directory at or above the first base holds a `.git`
    /// entry. Inside a repository only its own `.gitignore` files count.
    pub fn record_git_markers(&mut self, markers: &Vec<bool>)
        ensures
            final(self).root_texts() == old(self).root_texts(),
            final(self).layer_texts() == old(self).layer_texts(),
            old(self).well_formed() ==> final(self).well_formed(),
            final(self).git_required() == markers@.contains(true),
    {
        let n: usize = markers.len();
        let mut found: bool = false;
        let mut i: usize = 0;
        while i < n && !found
            invariant
                n == markers@.len(),
                0 <= i <= n,
                found ==> markers@.contains(true),
                !found ==> forall|k: int| 0 <= k < i ==> !markers@[k],
            decreases n - i,
        {
            if markers[i] {
                found = true;
            }
            i = i + 1;
        }
        self.require_git = found;
    }
}

fn compile_layers(sets: Vec<RuleSet>) -> (outcome: Result<Vec<IgnoreLayer>, InvalidPattern>)
    ensures
        outcome is Ok <==> forall|k: int|
            0 <= k < sets@.len() ==> rules_valid((#[trigger] rule_set_views(sets@)[k]).lines),
        match outcome {
            Ok(layers) => {
                &&& layer_views(layers@) == rule_set_views(sets@)
                &&& forall|k: int| 0 <= k < layers@.len() ==> (#[trigger] layers@[k]).well_formed()
            },
            Err(_) => true,
        },
{
    let ghost views = rule_set_views(sets@);
    let n: usize = sets.len();
    let mut pending = sets;
    let mut layers: Vec<IgnoreLayer> = Vec::new();
    let mut i: usize = 0;
    while i < n
        invariant
            views == rule_set_views(sets@),
            views.len() == n,
            0 <= i <= n,
            pending@.len() == n - i,
            forall|k: int| 0 <= k < n - i ==> (#[trigger] pending@[k])@ == views[k + i],
            layers@.len() == i,
            forall|k: int| 0 <= k < i ==> (#[trigger] layers@[k]).view() == views[k],
            forall|k: int| 0 <= k < i ==> (#[trigger] layers@[k]).well_formed(),
            forall|k: int| 0 <= k < i ==> rules_valid((#[trigger] views[k]).lines),
        decreases n - i,
    {
        let rules = pending.remove(0);
        proof {
            assert(rules@ == views[i as int]);
        }
        match build_matcher(rules.base.as_str(), &rules.lines) {
            Ok(matcher) => {
                layers.push(IgnoreLayer { rules, matcher });
            },
            Err(refused) => {
                assert(!rules_valid(views[i as int].lines));
                return Err(refused);
            },
        }
        i = i + 1;
    }
    assert(layer_views(layers@) =~= views);
    Ok(layers)
}

fn build_walker(sources: &Vec<SourceEntry>) -> (outcome: Result<
    Option<WalkerConfig>,
    InvalidPattern,
>)
    ensures
        outcome is Err <==> root_list(entry_views(sources@)).len() > 0 && !sources_valid(
            entry_views(sources@),
        ),
        match outcome {
            Ok(Some(config)) => {
                &&& config.well_formed()
                &&& root_list(entry_views(sources@)).len() > 0
                &&& config.root_texts() == root_list(entry_views(sources@))
                &&& config.layer_texts() == ignore_layers(entry_views(sources@))
                &&& !config.git_required()
            },
            Ok(None) => root_list(entry_views(sources@)).len() == 0,
            Err(_) => true,
        },
{
    let roots = collect_roots(sources);
    if roots.len() == 0 {
        return Ok(None);
    }
    let default_rules = match default_matcher() {
        Ok(matcher) => matcher,
        Err(refused) => {
            return Err(refused);
        },
    };
    let sets = collect_rules(sources);
    let layers = match compile_layers(sets) {
        Ok(layers) => layers,
        Err(refused) => {
            return Err(refused);
        },
    };
    Ok(Some(WalkerConfig { roots, default_rules, layers, require_git: false }))
}

/// The walker's configuration for `sources`, or `None` where no entry
/// includes anything.
pub fn create_walker(sources: &Vec<SourceEntry>) -> (walker: Option<WalkerConfig>)
    requires
        root_list(entry_views(sources@)).len() > 0 ==> sources_valid(entry_views(sources@)),
    ensures
        walker is Some <==> root_list(entry_views(sources@)).len() > 0,
        match walker {
            Some(config) => {
                &&& config.well_formed()
                &&& config.root_texts() == root_list(entry_views(sources@))
                &&& config.layer_texts() == ignore_layers(entry_views(sources@))
                &&& !config.git_required()
            },
            None => true,
        },
{
    match build_walker(sources) {
        Ok(walker) => walker,
        Err(_) => None,
    }
}

/// Whether every rule that `sources` gives parses and compiles; where one does
/// not, the line at fault. Where no entry includes anything nothing is asked of
/// the rules, as none of them is used.
pub fn check_sources(sources: &Vec<SourceEntry>) -> (outcome: Result<(), InvalidPattern>)
    ensures
        outcome is Err <==> root_list(entry_views(sources@)).len() > 0 && !sources_valid(
            entry_views(sources@),
        ),
{
    match build_walker(sources) {
        Ok(_) => Ok(()),
        Err(refused) => Err(refused),
    }
}

/// The walker's configuration for `sources`, or `None` where no entry
/// includes anything: the walker is then disarmed. Where a rule does not parse
/// or compile the line at fault is returned.
pub fn try_create_walker(sources: &Vec<SourceEntry>) -> (outcome: Result<
    Option<WalkerConfig>,
    InvalidPattern,
>)
    ensures
        outcome is Err <==> root_list(entry_views(sources@)).len() > 0 && !sources_valid(
            entry_views(sources@),
        ),
        match outcome {
            Ok(Some(config)) => {
                &&& config.well_formed()
                &&& root_list(entry_views(sources@)).len() > 0
                &&& config.root_texts() == root_list(entry_views(sources@))
                &&& config.layer_texts() == ignore_layers(entry_views(sources@))
                &&& !config.git_required()
            },
            Ok(None) => root_list(entry_views(sources@)).len() == 0,
            Err(_) => true,
        },
{
    match check_sources(sources) {
        Ok(_) => Ok(create_walker(sources)),
        Err(refused) => Err(refused),
    }
}

} // verus!
