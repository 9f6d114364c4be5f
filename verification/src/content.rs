//! What is done to the bytes of a file: the choice of a pre-processor, the
//! split into lines, and the candidates that an extractor's spans stand for.

use vstd::prelude::*;
use bstr::ByteSlice;
use fxhash::FxHashSet;
use rayon::slice::ParallelSliceMut;
use crate::collections::{token_set_insert, token_set_items, token_set_new, token_set_to_vec};
use vstd::string::StrSliceExecFns;
use crate::text::{lemma_lex_total, lex_less, strictly_sorted};

verus! {

/// A transformation that the content of some files needs before candidates
/// are extracted from it.
#[derive(Clone, Copy, Debug, PartialEq, Eq, Structural)]
pub enum PreProcessor {
    Clojure,
    Razor,
    Haml,
    Json,
    Pug,
    Ruby,
    Slim,
    Svelte,
    Vue,
}

/// The letter in lower case, where the character is one of `A` to `Z`; any
/// other character as it is.
pub open spec fn lower(c: char) -> char {
    if 'A' <= c <= 'Z' {
        ((c as u32 + 32) as u32) as char
    } else {
        c
    }
}

/// The text with its letters `A` to `Z` in lower case.
pub open spec fn lowercased(text: Seq<char>) -> Seq<char> {
    Seq::new(text.len(), |i: int| lower(text[i]))
}

/// The pre-processor that the table holds under the key `extension`; most
/// keys have none.
pub open spec fn table_entry(extension: Seq<char>) -> Option<PreProcessor> {
    if extension == "clj"@ || extension == "cljs"@ || extension == "cljc"@ {
        Some(PreProcessor::Clojure)
    } else if extension == "cshtml"@ || extension == "razor"@ {
        Some(PreProcessor::Razor)
    } else if extension == "haml"@ {
        Some(PreProcessor::Haml)
    } else if extension == "json"@ {
        Some(PreProcessor::Json)
    } else if extension == "pug"@ {
        Some(PreProcessor::Pug)
    } else if extension == "rb"@ || extension == "erb"@ {
        Some(PreProcessor::Ruby)
    } else if extension == "slim"@ {
        Some(PreProcessor::Slim)
    } else if extension == "svelte"@ {
        Some(PreProcessor::Svelte)
    } else if extension == "vue"@ {
        Some(PreProcessor::Vue)
    } else {
        None
    }
}

/// The pre-processor for the files with extension `extension`: the table is
/// keyed by the extension in lower case.
pub open spec fn pre_processor_of(extension: Seq<char>) -> Option<PreProcessor> {
    table_entry(lowercased(extension))
}

fn same_lowered(c: char, key: char) -> (same: bool)
    ensures
        same == (lower(c) == key),
{
    if c >= 'A' && c <= 'Z' {
        let lowered: u32 = c as u32 + 32;
        proof {
            vstd::utf8::char_u32_cast(key, key as u32);
        }
        lowered == key as u32
    } else {
        c == key
    }
}

/// Whether `extension`, in lower case, is `key`.
pub fn matches_key(extension: &str, key: &str) -> (same: bool)
    ensures
        same == (lowercased(extension@) == key@),
{
    let n: usize = extension.unicode_len();
    if n != key.unicode_len() {
        return false;
    }
    let mut i: usize = 0;
    while i < n
        invariant
            n == extension@.len(),
            n == key@.len(),
            0 <= i <= n,
            forall|m: int| 0 <= m < i ==> lower(extension@[m]) == key@[m],
        decreases n - i,
    {
        if !same_lowered(extension.get_char(i), key.get_char(i)) {
            assert(lowercased(extension@)[i as int] != key@[i as int]);
            return false;
        }
        i = i + 1;
    }
    assert(lowercased(extension@) =~= key@);
    true
}

/// The pre-processor for the files with extension `extension`.
pub fn pre_processor_for(extension: &str) -> (kind: Option<PreProcessor>)
    ensures
        kind == pre_processor_of(extension@),
{
    if matches_key(extension, "clj") || matches_key(extension, "cljs") || matches_key(extension, "cljc") {
        Some(PreProcessor::Clojure)
    } else if matches_key(extension, "cshtml") || matches_key(extension, "razor") {
        Some(PreProcessor::Razor)
    } else if matches_key(extension, "haml") {
        Some(PreProcessor::Haml)
    } else if matches_key(extension, "json") {
        Some(PreProcessor::Json)
    } else if matches_key(extension, "pug") {
        Some(PreProcessor::Pug)
    } else if matches_key(extension, "rb") || matches_key(extension, "erb") {
        Some(PreProcessor::Ruby)
    } else if matches_key(extension, "slim") {
        Some(PreProcessor::Slim)
    } else if matches_key(extension, "svelte") {
        Some(PreProcessor::Svelte)
    } else if matches_key(extension, "vue") {
        Some(PreProcessor::Vue)
    } else {
        None
    }
}

/// A copy of `bytes`.
pub fn copy_bytes(bytes: &Vec<u8>) -> (copy: Vec<u8>)
    ensures
        copy@ == bytes@,
{
    let mut copy: Vec<u8> = Vec::new();
    let n: usize = bytes.len();
    let mut i: usize = 0;
    while i < n
        invariant
            n == bytes@.len(),
            0 <= i <= n,
            copy@ == bytes@.take(i as int),
        decreases n - i,
    {
        copy.push(bytes[i]);
        assert(copy@ =~= bytes@.take(i as int + 1));
        i = i + 1;
    }
    assert(bytes@.take(n as int) =~= bytes@);
    copy
}

/// The bytes of `bytes` from `start` up to `end`.
pub fn copy_range(bytes: &Vec<u8>, start: usize, end: usize) -> (copy: Vec<u8>)
    requires
        start <= end <= bytes@.len(),
    ensures
        copy@ == bytes@.subrange(start as int, end as int),
{
    let mut copy: Vec<u8> = Vec::new();
    let mut i: usize = start;
    while i < end
        invariant
            start <= i <= end,
            end <= bytes@.len(),
            copy@ == bytes@.subrange(start as int, i as int),
        decreases end - i,
    {
        copy.push(bytes[i]);
        assert(copy@ =~= bytes@.subrange(start as int, i as int + 1));
        i = i + 1;
    }
    copy
}

/// The content as the extractor is to see it: what `transform` makes of it
/// where files with this extension have a pre-processor, and the content
/// unchanged where they have none.
pub fn pre_process_input<T: Fn(PreProcessor, &Vec<u8>) -> Vec<u8>>(
    content: &Vec<u8>,
    extension: &str,
    transform: &T,
) -> (processed: Vec<u8>)
    requires
        forall|kind: PreProcessor, bytes: &Vec<u8>| call_requires(*transform, (kind, bytes)),
    ensures
        match pre_processor_of(extension@) {
            Some(kind) => call_ensures(*transform, (kind, content), processed),
            None => processed@ == content@,
        },
{
    match pre_processor_for(extension) {
        Some(kind) => transform(kind, content),
        None => copy_bytes(content),
    }
}

/// The position of the first line break of `blob` at or after `k`, or the
/// length of `blob` where there is none.
pub open spec fn line_end(blob: Seq<u8>, k: int) -> int
    decreases blob.len() - k,
{
    if k < 0 || k >= blob.len() || blob[k] == 10u8 {
        k
    } else {
        line_end(blob, k + 1)
    }
}

/// The lines of `blob` from position `k` on, the empty ones left out. Lines
/// are separated by the line feed, which belongs to none.
pub open spec fn lines_from(blob: Seq<u8>, k: int) -> Seq<Seq<u8>>
    decreases blob.len() + 1 - k,
{
    if k < 0 || k >= blob.len() {
        Seq::empty()
    } else {
        let end = line_end(blob, k);
        if end < k || end > blob.len() {
            Seq::empty()
        } else {
            let rest = lines_from(blob, end + 1);
            if end > k {
                Seq::empty().push(blob.subrange(k, end)) + rest
            } else {
                rest
            }
        }
    }
}

/// The lines of `blob`, the empty ones left out.
pub open spec fn lines_of(blob: Seq<u8>) -> Seq<Seq<u8>> {
    lines_from(blob, 0)
}

/// A line ends at or after its start and within the blob.
pub proof fn lemma_line_end_bounds(blob: Seq<u8>, k: int)
    requires
        0 <= k <= blob.len(),
    ensures
        k <= line_end(blob, k) <= blob.len(),
        line_end(blob, k) < blob.len() ==> blob[line_end(blob, k)] == 10u8,
        forall|m: int| k <= m < line_end(blob, k) ==> blob[m] != 10u8,
    decreases blob.len() - k,
{
    if k < blob.len() && blob[k] != 10u8 {
        lemma_line_end_bounds(blob, k + 1);
    }
}

/// The views of a list of byte strings.
pub open spec fn byte_views(list: Seq<Vec<u8>>) -> Seq<Seq<u8>> {
    Seq::new(list.len(), |i: int| list[i]@)
}

/// Appends the non-empty lines of `blob` to `lines`.
pub fn push_lines(blob: &Vec<u8>, lines: &mut Vec<Vec<u8>>)
    ensures
        byte_views(final(lines)@) == byte_views(old(lines)@) + lines_of(blob@),
{
    let ghost before = byte_views(lines@);
    let n: usize = blob.len();
    let mut start: usize = 0;
    proof {
        assert(byte_views(lines@) + lines_from(blob@, 0) =~= before + lines_of(blob@));
    }
    while start < n
        invariant
            n == blob@.len(),
            0 <= start <= n,
            byte_views(lines@) + lines_from(blob@, start as int) == before + lines_of(blob@),
        decreases n - start,
    {
        let mut end: usize = start;
        while end < n && blob[end] != 10u8
            invariant
                n == blob@.len(),
                start <= end <= n,
                line_end(blob@, start as int) == line_end(blob@, end as int),
            decreases n - end,
        {
            end = end + 1;
        }
        let ghost sofar = byte_views(lines@);
        proof {
            lemma_line_end_bounds(blob@, start as int);
        }
        if end > start {
            let line = copy_range(blob, start, end);
            lines.push(line);
            proof {
                assert(byte_views(lines@) =~= sofar.push(blob@.subrange(start as int, end as int)));
                assert(byte_views(lines@) + lines_from(blob@, end as int + 1) =~= sofar
                    + lines_from(blob@, start as int));
            }
        }
        proof {
            if end == n {
                assert(lines_from(blob@, end as int + 1) =~= lines_from(blob@, n as int));
            }
        }
        start = if end < n {
            end + 1
        } else {
            n
        };
    }
    proof {
        assert(byte_views(lines@) + lines_from(blob@, start as int) =~= byte_views(lines@));
    }
}

/// The non-empty lines of `blob`.
pub fn split_lines(blob: &Vec<u8>) -> (lines: Vec<Vec<u8>>)
    ensures
        byte_views(lines@) == lines_of(blob@),
{
    let mut lines: Vec<Vec<u8>> = Vec::new();
    push_lines(blob, &mut lines);
    assert(byte_views(lines@) =~= lines_of(blob@));
    lines
}

/// The non-empty lines of all of `blobs`, blob after blob.
pub open spec fn all_lines(blobs: Seq<Seq<u8>>) -> Seq<Seq<u8>>
    decreases blobs.len(),
{
    if blobs.len() == 0 {
        Seq::empty()
    } else {
        all_lines(blobs.drop_last()) + lines_of(blobs.last())
    }
}

/// The non-empty lines of all of `blobs`.
pub fn split_blobs(blobs: &Vec<Vec<u8>>) -> (lines: Vec<Vec<u8>>)
    ensures
        byte_views(lines@) == all_lines(byte_views(blobs@)),
{
    let mut lines: Vec<Vec<u8>> = Vec::new();
    let n: usize = blobs.len();
    let mut i: usize = 0;
    proof {
        assert(byte_views(lines@) =~= all_lines(byte_views(blobs@).take(0)));
    }
    while i < n
        invariant
            n == blobs@.len(),
            0 <= i <= n,
            byte_views(lines@) == all_lines(byte_views(blobs@).take(i as int)),
        decreases n - i,
    {
        proof {
            let prefix = byte_views(blobs@).take(i as int + 1);
            assert(prefix.drop_last() =~= byte_views(blobs@).take(i as int));
            assert(prefix.last() == blobs@[i as int]@);
        }
        push_lines(&blobs[i], &mut lines);
        i = i + 1;
    }
    proof {
        assert(byte_views(blobs@).take(n as int) =~= byte_views(blobs@));
    }
    lines
}

/// What a span that the extractor found is.
#[derive(Clone, Copy, Debug, PartialEq, Eq, Structural)]
pub enum ExtractedKind {
    /// A candidate for a class name.
    Candidate,
    /// The name of a CSS variable.
    CssVariable,
}

/// A span that the extractor found in the bytes it was given: the bytes from
/// `start` up to `end`.
#[derive(Clone, Copy, Debug, PartialEq, Eq, Structural)]
pub struct Extracted {
    pub kind: ExtractedKind,
    pub start: usize,
    pub end: usize,
}

/// The span lies within `len` bytes.
pub open spec fn span_fits(span: Extracted, len: int) -> bool {
    span.start <= span.end <= len
}

/// The byte strings that the spans `spans` stand for in `line`; a span that
/// does not lie within the line stands for nothing.
pub open spec fn line_tokens(line: Seq<u8>, spans: Seq<Extracted>) -> Set<Seq<u8>> {
    Set::new(
        |token: Seq<u8>|
            exists|k: int|
                0 <= k < spans.len() && span_fits(#[trigger] spans[k], line.len() as int) && token
                    == line.subrange(spans[k].start as int, spans[k].end as int),
    )
}

/// The byte strings that the spans stand for, line by line.
pub open spec fn all_tokens(lines: Seq<Seq<u8>>, spans: Seq<Seq<Extracted>>) -> Set<Seq<u8>> {
    Set::new(
        |token: Seq<u8>|
            exists|i: int|
                0 <= i < lines.len() && i < spans.len() && #[trigger] line_tokens(
                    lines[i],
                    spans[i],
                ).contains(token),
    )
}

/// The views of a list of span lists.
pub open spec fn span_views(spans: Seq<Vec<Extracted>>) -> Seq<Seq<Extracted>> {
    Seq::new(spans.len(), |i: int| spans[i]@)
}

/// `ParallelSliceMut::par_sort_unstable` of rayon: the same byte strings, put
/// in byte-wise lexicographic order.
#[verifier::external_body]
pub(crate) fn sort_tokens(tokens: &mut Vec<Vec<u8>>)
    ensures
        byte_views(final(tokens)@).to_multiset() == byte_views(old(tokens)@).to_multiset(),
        forall|i: int, j: int|
            0 <= i < j < final(tokens)@.len() ==> !lex_less(
                (#[trigger] final(tokens)@[j])@,
                (#[trigger] final(tokens)@[i])@,
            ),
{
    tokens.par_sort_unstable();
}

/// Puts byte strings of which none occurs twice in strict order.
pub fn sort_distinct(tokens: &mut Vec<Vec<u8>>)
    requires
        byte_views(old(tokens)@).no_duplicates(),
    ensures
        strictly_sorted(byte_views(final(tokens)@)),
        byte_views(final(tokens)@).to_set() == byte_views(old(tokens)@).to_set(),
{
    let ghost before = byte_views(tokens@);
    sort_tokens(tokens);
    let ghost after = byte_views(tokens@);
    proof {
        before.lemma_multiset_has_no_duplicates();
        after.lemma_multiset_has_no_duplicates_conv();
        before.to_multiset_ensures();
        after.to_multiset_ensures();
        assert(after.to_set() =~= before.to_set()) by {
            assert forall|x: Seq<u8>| after.to_set().contains(x) <==> before.to_set().contains(
                x,
            ) by {
                assert(after.contains(x) <==> after.to_multiset().count(x) > 0);
                assert(before.contains(x) <==> before.to_multiset().count(x) > 0);
            }
        }
        assert forall|i: int, j: int| 0 <= i < j < after.len() implies lex_less(
            #[trigger] after[i],
            #[trigger] after[j],
        ) by {
            assert(after[i] == tokens@[i]@);
            assert(after[j] == tokens@[j]@);
            assert(after[i] != after[j]);
            lemma_lex_total(after[i], after[j]);
        }
    }
}

fn gather_line_tokens(line: &Vec<u8>, spans: &Vec<Extracted>, seen: &mut FxHashSet<Vec<u8>>)
    ensures
        token_set_items(*final(seen)) == token_set_items(*old(seen)).union(
            line_tokens(line@, spans@),
        ),
{
    let ghost before = token_set_items(*seen);
    let n: usize = spans.len();
    let mut k: usize = 0;
    proof {
        assert(token_set_items(*seen) =~= before.union(line_tokens(line@, spans@.take(0))));
    }
    while k < n
        invariant
            n == spans@.len(),
            0 <= k <= n,
            token_set_items(*seen) == before.union(line_tokens(line@, spans@.take(k as int))),
        decreases n - k,
    {
        let ghost sofar = token_set_items(*seen);
        let span = spans[k];
        let ghost shorter = spans@.take(k as int);
        let ghost longer = spans@.take(k as int + 1);
        if span.start <= span.end && span.end <= line.len() {
            let token = copy_range(line, span.start, span.end);
            let _ = token_set_insert(seen, token);
            proof {
                assert(line_tokens(line@, longer) =~= line_tokens(line@, shorter).insert(
                    line@.subrange(span.start as int, span.end as int),
                )) by {
                    assert forall|t: Seq<u8>| line_tokens(line@, longer).contains(t)
                        <==> line_tokens(line@, shorter).insert(
                        line@.subrange(span.start as int, span.end as int),
                    ).contains(t) by {
                        if line_tokens(line@, longer).contains(t) {
                            let m = choose|m: int|
                                0 <= m < longer.len() && span_fits(
                                    #[trigger] longer[m],
                                    line@.len() as int,
                                ) && t == line@.subrange(
                                    longer[m].start as int,
                                    longer[m].end as int,
                                );
                            if m < k {
                                assert(shorter[m] == longer[m]);
                            }
                        }
                        if line_tokens(line@, shorter).contains(t) {
                            let m = choose|m: int|
                                0 <= m < shorter.len() && span_fits(
                                    #[trigger] shorter[m],
                                    line@.len() as int,
                                ) && t == line@.subrange(
                                    shorter[m].start as int,
                                    shorter[m].end as int,
                                );
                            assert(longer[m] == shorter[m]);
                        }
                        if t == line@.subrange(span.start as int, span.end as int) {
                            assert(longer[k as int] == span);
                        }
                    }
                }
                assert(token_set_items(*seen) =~= before.union(line_tokens(line@, longer)));
            }
        } else {
            proof {
                assert(line_tokens(line@, longer) =~= line_tokens(line@, shorter)) by {
                    assert forall|t: Seq<u8>| line_tokens(line@, longer).contains(t)
                        <==> line_tokens(line@, shorter).contains(t) by {
                        if line_tokens(line@, longer).contains(t) {
                            let m = choose|m: int|
                                0 <= m < longer.len() && span_fits(
                                    #[trigger] longer[m],
                                    line@.len() as int,
                                ) && t == line@.subrange(
                                    longer[m].start as int,
                                    longer[m].end as int,
                                );
                            assert(longer[k as int] == span);
                            assert(shorter[m] == longer[m]);
                        }
                        if line_tokens(line@, shorter).contains(t) {
                            let m = choose|m: int|
                                0 <= m < shorter.len() && span_fits(
                                    #[trigger] shorter[m],
                                    line@.len() as int,
                                ) && t == line@.subrange(
                                    shorter[m].start as int,
                                    shorter[m].end as int,
                                );
                            assert(longer[m] == shorter[m]);
                        }
                    }
                }
            }
        }
        k = k + 1;
    }
    proof {
        assert(spans@.take(n as int) =~= spans@);
    }
}

/// The candidates that the spans stand for, line by line: each byte string
/// once, in byte-wise order.
pub fn collect_tokens(lines: &Vec<Vec<u8>>, spans: &Vec<Vec<Extracted>>) -> (tokens: Vec<Vec<u8>>)
    ensures
        strictly_sorted(byte_views(tokens@)),
        byte_views(tokens@).to_set() == all_tokens(byte_views(lines@), span_views(spans@)),
{
    let mut seen = token_set_new();
    let n: usize = if lines.len() < spans.len() {
        lines.len()
    } else {
        spans.len()
    };
    let ghost line_texts = byte_views(lines@);
    let ghost span_lists = span_views(spans@);
    let mut i: usize = 0;
    proof {
        assert(token_set_items(seen) =~= all_tokens(line_texts.take(0), span_lists));
    }
    while i < n
        invariant
            n <= lines@.len(),
            n <= spans@.len(),
            n == lines@.len() || n == spans@.len(),
            line_texts == byte_views(lines@),
            span_lists == span_views(spans@),
            0 <= i <= n,
            token_set_items(seen) == all_tokens(line_texts.take(i as int), span_lists),
        decreases n - i,
    {
        gather_line_tokens(&lines[i], &spans[i], &mut seen);
        proof {
            let shorter = line_texts.take(i as int);
            let longer = line_texts.take(i as int + 1);
            assert(all_tokens(longer, span_lists) =~= all_tokens(shorter, span_lists).union(
                line_tokens(lines@[i as int]@, spans@[i as int]@),
            )) by {
                assert forall|t: Seq<u8>| all_tokens(longer, span_lists).contains(t)
                    <==> all_tokens(shorter, span_lists).union(
                    line_tokens(lines@[i as int]@, spans@[i as int]@),
                ).contains(t) by {
                    if all_tokens(longer, span_lists).contains(t) {
                        let m = choose|m: int|
                            0 <= m < longer.len() && m < span_lists.len() && #[trigger] line_tokens(
                                longer[m],
                                span_lists[m],
                            ).contains(t);
                        if m < i {
                            assert(line_tokens(shorter[m], span_lists[m]).contains(t));
                        }
                    }
                    if all_tokens(shorter, span_lists).contains(t) {
                        let m = choose|m: int|
                            0 <= m < shorter.len() && m < span_lists.len() && #[trigger] line_tokens(
                                shorter[m],
                                span_lists[m],
                            ).contains(t);
                        assert(line_tokens(longer[m], span_lists[m]).contains(t));
                    }
                    if line_tokens(lines@[i as int]@, spans@[i as int]@).contains(t) {
                        assert(line_tokens(longer[i as int], span_lists[i as int]).contains(t));
                    }
                }
            }
        }
        i = i + 1;
    }
    proof {
        assert(all_tokens(line_texts.take(n as int), span_lists) =~= all_tokens(
            line_texts,
            span_lists,
        )) by {
            assert forall|t: Seq<u8>| all_tokens(line_texts.take(n as int), span_lists).contains(t)
                <==> all_tokens(line_texts, span_lists).contains(t) by {
                if all_tokens(line_texts.take(n as int), span_lists).contains(t) {
                    let m = choose|m: int|
                        0 <= m < line_texts.take(n as int).len() && m < span_lists.len()
                            && #[trigger] line_tokens(
                            line_texts.take(n as int)[m],
                            span_lists[m],
                        ).contains(t);
                    assert(line_tokens(line_texts[m], span_lists[m]).contains(t));
                }
                if all_tokens(line_texts, span_lists).contains(t) {
                    let m = choose|m: int|
                        0 <= m < line_texts.len() && m < span_lists.len() && #[trigger] line_tokens(
                            line_texts[m],
                            span_lists[m],
                        ).contains(t);
                    assert(line_tokens(line_texts.take(n as int)[m], span_lists[m]).contains(t));
                }
            }
        }
    }
    let mut tokens = token_set_to_vec(&seen);
    proof {
        let views = byte_views(tokens@);
        assert(views.no_duplicates()) by {
            assert forall|a: int, b: int| 0 <= a < views.len() && 0 <= b < views.len() && a
                != b implies views[a] != views[b] by {
                if a < b {
                    assert(tokens@[a]@ != tokens@[b]@);
                } else {
                    assert(tokens@[b]@ != tokens@[a]@);
                }
            }
        }
        assert(views.to_set() =~= token_set_items(seen)) by {
            assert forall|t: Seq<u8>| views.to_set().contains(t) <==> token_set_items(
                seen,
            ).contains(t) by {
                if views.to_set().contains(t) {
                    let m = choose|m: int| 0 <= m < views.len() && views[m] == t;
                    assert(tokens@[m]@ == t);
                }
                if token_set_items(seen).contains(t) {
                    let m = choose|m: int| 0 <= m < tokens@.len() && (#[trigger] tokens@[m])@ == t;
                    assert(views[m] == t);
                }
            }
        }
    }
    sort_distinct(&mut tokens);
    tokens
}

/// `spans` holds, for each of `lines`, what `extract` returned for it.
pub open spec fn extracted_by<E: Fn(&Vec<u8>) -> Vec<Extracted>>(
    extract: E,
    lines: Seq<Vec<u8>>,
    spans: Seq<Vec<Extracted>>,
) -> bool {
    &&& spans.len() == lines.len()
    &&& forall|i: int| 0 <= i < lines.len() ==> call_ensures(extract, (&lines[i],), #[trigger] spans[i])
}

/// Runs the extractor over each line.
pub fn extract_all<E: Fn(&Vec<u8>) -> Vec<Extracted>>(lines: &Vec<Vec<u8>>, extract: &E) -> (spans:
    Vec<Vec<Extracted>>)
    requires
        forall|bytes: &Vec<u8>| call_requires(*extract, (bytes,)),
    ensures
        extracted_by(*extract, lines@, spans@),
{
    let mut spans: Vec<Vec<Extracted>> = Vec::new();
    let n: usize = lines.len();
    let mut i: usize = 0;
    while i < n
        invariant
            n == lines@.len(),
            0 <= i <= n,
            spans@.len() == i,
            forall|bytes: &Vec<u8>| call_requires(*extract, (bytes,)),
            forall|k: int| 0 <= k < i ==> call_ensures(*extract, (&lines@[k],), #[trigger] spans@[k]),
        decreases n - i,
    {
        let found = extract(&lines[i]);
        spans.push(found);
        i = i + 1;
    }
    spans
}

/// The candidates of the blobs: every blob is split into lines, the extractor
/// is run over each line that is not empty, and what it finds is returned,
/// each byte string once, in byte-wise order.
pub fn parse_all_blobs<E: Fn(&Vec<u8>) -> Vec<Extracted>>(blobs: &Vec<Vec<u8>>, extract: &E) -> (tokens:
    Vec<Vec<u8>>)
    requires
        forall|bytes: &Vec<u8>| call_requires(*extract, (bytes,)),
    ensures
        strictly_sorted(byte_views(tokens@)),
        exists|lines: Seq<Vec<u8>>, spans: Seq<Vec<Extracted>>|
            {
                &&& byte_views(lines) == all_lines(byte_views(blobs@))
                &&& #[trigger] extracted_by(*extract, lines, spans)
                &&& byte_views(tokens@).to_set() == all_tokens(byte_views(lines), span_views(spans))
            },
{
    let lines = split_blobs(blobs);
    let spans = extract_all(&lines, extract);
    let tokens = collect_tokens(&lines, &spans);
    assert(extracted_by(*extract, lines@, spans@));
    tokens
}

/// The extractor is a function of the bytes it is given: for the same bytes
/// it returns the same spans.
pub open spec fn extractor_is_function<E: Fn(&Vec<u8>) -> Vec<Extracted>>(extract: E) -> bool {
    forall|a: &Vec<u8>, b: &Vec<u8>, x: Vec<Extracted>, y: Vec<Extracted>|
        a@ == b@ && #[trigger] call_ensures(extract, (a,), x) && #[trigger] call_ensures(
            extract,
            (b,),
            y,
        ) ==> x@ == y@
}

/// The blob that the `j`-th of the lines of `blobs` comes from.
pub open spec fn blob_of_line(blobs: Seq<Seq<u8>>, j: int) -> int
    decreases blobs.len(),
{
    if blobs.len() == 0 {
        -1
    } else if j < all_lines(blobs.drop_last()).len() {
        blob_of_line(blobs.drop_last(), j)
    } else {
        blobs.len() - 1
    }
}

proof fn lemma_blob_of_line(blobs: Seq<Seq<u8>>, j: int)
    requires
        0 <= j < all_lines(blobs).len(),
    ensures
        0 <= blob_of_line(blobs, j) < blobs.len(),
        lines_of(blobs[blob_of_line(blobs, j)]).contains(all_lines(blobs)[j]),
    decreases blobs.len(),
{
    if blobs.len() > 0 {
        let before = all_lines(blobs.drop_last());
        if j < before.len() {
            lemma_blob_of_line(blobs.drop_last(), j);
            assert(blobs.drop_last()[blob_of_line(blobs.drop_last(), j)] == blobs[blob_of_line(
                blobs,
                j,
            )]);
        } else {
            assert(lines_of(blobs.last())[j - before.len()] == all_lines(blobs)[j]);
        }
    }
}

proof fn lemma_line_of_blob(blobs: Seq<Seq<u8>>, i: int, line: Seq<u8>)
    requires
        0 <= i < blobs.len(),
        lines_of(blobs[i]).contains(line),
    ensures
        all_lines(blobs).contains(line),
    decreases blobs.len(),
{
    let before = all_lines(blobs.drop_last());
    if i < blobs.len() - 1 {
        lemma_line_of_blob(blobs.drop_last(), i, line);
        let j = choose|j: int| 0 <= j < before.len() && before[j] == line;
        assert(all_lines(blobs)[j] == line);
    } else {
        let j = choose|j: int| 0 <= j < lines_of(blobs[i]).len() && lines_of(blobs[i])[j] == line;
        assert(all_lines(blobs)[before.len() + j] == line);
    }
}

proof fn lemma_tokens_carry_over<E: Fn(&Vec<u8>) -> Vec<Extracted>>(
    extract: E,
    first: Seq<Seq<u8>>,
    second: Seq<Seq<u8>>,
    lines_x: Seq<Vec<u8>>,
    spans_x: Seq<Vec<Extracted>>,
    lines_y: Seq<Vec<u8>>,
    spans_y: Seq<Vec<Extracted>>,
    token: Seq<u8>,
)
    requires
        extractor_is_function(extract),
        first.to_set().subset_of(second.to_set()),
        byte_views(lines_x) == all_lines(first),
        extracted_by(extract, lines_x, spans_x),
        byte_views(lines_y) == all_lines(second),
        extracted_by(extract, lines_y, spans_y),
        all_tokens(byte_views(lines_x), span_views(spans_x)).contains(token),
    ensures
        all_tokens(byte_views(lines_y), span_views(spans_y)).contains(token),
{
    let i = choose|i: int|
        0 <= i < byte_views(lines_x).len() && i < span_views(spans_x).len() && #[trigger] line_tokens(
            byte_views(lines_x)[i],
            span_views(spans_x)[i],
        ).contains(token);
    let line = byte_views(lines_x)[i];
    lemma_blob_of_line(first, i);
    let blob = first[blob_of_line(first, i)];
    assert(first.to_set().contains(blob));
    assert(second.to_set().contains(blob));
    let at = choose|at: int| 0 <= at < second.len() && second[at] == blob;
    lemma_line_of_blob(second, at, line);
    let j = choose|j: int| 0 <= j < all_lines(second).len() && all_lines(second)[j] == line;
    assert(byte_views(lines_y)[j] == line);
    assert(lines_y[j]@ == lines_x[i]@);
    assert(call_ensures(extract, (&lines_x[i],), spans_x[i]));
    assert(call_ensures(extract, (&lines_y[j],), spans_y[j]));
    assert(spans_x[i]@ == spans_y[j]@);
    assert(line_tokens(byte_views(lines_y)[j], span_views(spans_y)[j]).contains(token));
}

/// The order of the blobs does not count, nor how often a blob occurs: where
/// the extractor is a function of its input, the same blobs hold the same
/// candidates. `lines_x` and `spans_x` are the lines of the blobs `first` and
/// what the extractor returned for them, `lines_y` and `spans_y` those of
/// `second`.
pub proof fn lemma_blob_order_does_not_count<E: Fn(&Vec<u8>) -> Vec<Extracted>>(
    extract: E,
    first: Seq<Seq<u8>>,
    second: Seq<Seq<u8>>,
    lines_x: Seq<Vec<u8>>,
    spans_x: Seq<Vec<Extracted>>,
    lines_y: Seq<Vec<u8>>,
    spans_y: Seq<Vec<Extracted>>,
)
    requires
        extractor_is_function(extract),
        first.to_set() == second.to_set(),
        byte_views(lines_x) == all_lines(first),
        extracted_by(extract, lines_x, spans_x),
        byte_views(lines_y) == all_lines(second),
        extracted_by(extract, lines_y, spans_y),
    ensures
        all_tokens(byte_views(lines_x), span_views(spans_x)) == all_tokens(
            byte_views(lines_y),
            span_views(spans_y),
        ),
{
    let tokens_x = all_tokens(byte_views(lines_x), span_views(spans_x));
    let tokens_y = all_tokens(byte_views(lines_y), span_views(spans_y));
    assert forall|token: Seq<u8>| tokens_x.contains(token) <==> tokens_y.contains(token) by {
        if tokens_x.contains(token) {
            lemma_tokens_carry_over(
                extract,
                first,
                second,
                lines_x,
                spans_x,
                lines_y,
                spans_y,
                token,
            );
        }
        if tokens_y.contains(token) {
            lemma_tokens_carry_over(
                extract,
                second,
                first,
                lines_y,
                spans_y,
                lines_x,
                spans_x,
                token,
            );
        }
    }
    assert(tokens_x =~= tokens_y);
}

/// The text with each occurrence of `needle` replaced, from left to right,
/// occurrences that overlap an earlier one left alone.
pub open spec fn replaced(haystack: Seq<u8>, needle: Seq<u8>, replacement: Seq<u8>) -> Seq<u8>
    decreases haystack.len(),
{
    if needle.len() == 0 || haystack.len() < needle.len() {
        haystack
    } else if haystack.subrange(0, needle.len() as int) == needle {
        replacement + replaced(
            haystack.subrange(needle.len() as int, haystack.len() as int),
            needle,
            replacement,
        )
    } else {
        Seq::empty().push(haystack[0]) + replaced(
            haystack.subrange(1, haystack.len() as int),
            needle,
            replacement,
        )
    }
}

/// `ByteSlice::replace` of bstr: the bytes with every match of the needle
/// replaced, the matches found from left to right without overlap.
#[verifier::external_body]
pub(crate) fn replace_bytes(haystack: &Vec<u8>, needle: &Vec<u8>, replacement: &Vec<u8>) -> (text:
    Vec<u8>)
    requires
        needle@.len() > 0,
    ensures
        text@ == replaced(haystack@, needle@, replacement@),
{
    ByteSlice::replace(haystack.as_slice(), needle, replacement)
}

/// The bytes `-[]`: an arbitrary value that is empty, which the extractor
/// does not take.
pub open spec fn empty_brackets() -> Seq<u8> {
    seq![45u8, 91u8, 93u8]
}

/// The bytes `XYZ`, which stand in for `-[]` while the extractor runs.
pub open spec fn placeholder() -> Seq<u8> {
    seq![88u8, 89u8, 90u8]
}

/// The content with every `-[]` masked by the placeholder.
pub open spec fn masked_text(content: Seq<u8>) -> Seq<u8> {
    replaced(content, empty_brackets(), placeholder())
}

/// Replacing by something of the needle's length keeps the length.
pub proof fn lemma_replaced_length(haystack: Seq<u8>, needle: Seq<u8>, replacement: Seq<u8>)
    requires
        needle.len() == replacement.len(),
    ensures
        replaced(haystack, needle, replacement).len() == haystack.len(),
    decreases haystack.len(),
{
    if needle.len() == 0 || haystack.len() < needle.len() {
    } else if haystack.subrange(0, needle.len() as int) == needle {
        lemma_replaced_length(
            haystack.subrange(needle.len() as int, haystack.len() as int),
            needle,
            replacement,
        );
    } else {
        lemma_replaced_length(haystack.subrange(1, haystack.len() as int), needle, replacement);
    }
}

/// The content with every `-[]` masked by a placeholder of the same length,
/// so that every position in it is a position in the content.
pub fn mask_empty_brackets(content: &Vec<u8>) -> (masked: Vec<u8>)
    ensures
        masked@ == masked_text(content@),
        masked@.len() == content@.len(),
{
    let mut needle: Vec<u8> = Vec::new();
    needle.push(45u8);
    needle.push(91u8);
    needle.push(93u8);
    let mut replacement: Vec<u8> = Vec::new();
    replacement.push(88u8);
    replacement.push(89u8);
    replacement.push(90u8);
    proof {
        assert(needle@ =~= empty_brackets());
        assert(replacement@ =~= placeholder());
        lemma_replaced_length(content@, empty_brackets(), placeholder());
    }
    replace_bytes(content, &needle, &replacement)
}

/// A candidate and the position in the content at which it stands.
pub struct PositionView {
    pub token: Seq<u8>,
    pub offset: int,
}

/// For each of the first `k` spans that is a candidate and lies within the
/// content: the bytes of the content that it covers, and where it starts.
pub open spec fn positioned(content: Seq<u8>, spans: Seq<Extracted>, k: int) -> Seq<PositionView>
    decreases k,
{
    if k <= 0 || k > spans.len() {
        Seq::empty()
    } else {
        let before = positioned(content, spans, k - 1);
        let span = spans[k - 1];
        if span.kind == ExtractedKind::Candidate && span_fits(span, content.len() as int) {
            before.push(
                PositionView {
                    token: content.subrange(span.start as int, span.end as int),
                    offset: span.start as int,
                },
            )
        } else {
            before
        }
    }
}

/// The views of a list of candidates with positions.
pub open spec fn position_views(found: Seq<(Vec<u8>, usize)>) -> Seq<PositionView> {
    Seq::new(found.len(), |i: int| PositionView { token: found[i].0@, offset: found[i].1 as int })
}

/// The candidates among `spans`, each as the bytes of `content` that it
/// covers, with the position at which it starts.
pub fn restore_positions(content: &Vec<u8>, spans: &Vec<Extracted>) -> (found: Vec<(Vec<u8>, usize)>)
    ensures
        position_views(found@) == positioned(content@, spans@, spans@.len() as int),
        forall|i: int|
            0 <= i < found@.len() ==> {
                &&& (#[trigger] found@[i]).1 + found@[i].0@.len() <= content@.len()
                &&& content@.subrange(
                    found@[i].1 as int,
                    found@[i].1 + found@[i].0@.len(),
                ) == found@[i].0@
            },
{
    let mut found: Vec<(Vec<u8>, usize)> = Vec::new();
    let n: usize = spans.len();
    let mut k: usize = 0;
    proof {
        assert(position_views(found@) =~= positioned(content@, spans@, 0));
    }
    while k < n
        invariant
            n == spans@.len(),
            0 <= k <= n,
            position_views(found@) == positioned(content@, spans@, k as int),
        decreases n - k,
    {
        let ghost sofar = position_views(found@);
        let span = spans[k];
        if span.kind == ExtractedKind::Candidate && span.start <= span.end && span.end
            <= content.len() {
            let token = copy_range(content, span.start, span.end);
            found.push((token, span.start));
            proof {
                assert(position_views(found@) =~= sofar.push(
                    PositionView {
                        token: content@.subrange(span.start as int, span.end as int),
                        offset: span.start as int,
                    },
                ));
            }
        }
        k = k + 1;
    }
    proof {
        assert forall|i: int| 0 <= i < found@.len() implies {
            &&& (#[trigger] found@[i]).1 + found@[i].0@.len() <= content@.len()
            &&& content@.subrange(found@[i].1 as int, found@[i].1 + found@[i].0@.len())
                == found@[i].0@
        } by {
            lemma_positions_round_trip(content@, spans@, n as int, i);
            assert(position_views(found@)[i].token == found@[i].0@);
            assert(position_views(found@)[i].offset == found@[i].1);
        }
    }
    found
}

/// Every candidate that is returned with a position stands in the content at
/// that position.
pub proof fn lemma_positions_round_trip(content: Seq<u8>, spans: Seq<Extracted>, k: int, i: int)
    requires
        0 <= k <= spans.len(),
        0 <= i < positioned(content, spans, k).len(),
    ensures
        0 <= positioned(content, spans, k)[i].offset,
        positioned(content, spans, k)[i].offset + positioned(content, spans, k)[i].token.len()
            <= content.len(),
        content.subrange(
            positioned(content, spans, k)[i].offset,
            positioned(content, spans, k)[i].offset + positioned(content, spans, k)[i].token.len(),
        ) == positioned(content, spans, k)[i].token,
    decreases k,
{
    if k > 0 {
        let before = positioned(content, spans, k - 1);
        if i < before.len() {
            lemma_positions_round_trip(content, spans, k - 1, i);
        }
    }
}

/// The candidates of `content` with their positions. The extractor sees the
/// content with every `-[]` masked; what is returned are the bytes of the
/// content itself at the spans that the extractor found.
pub fn candidates_with_positions<E: Fn(&Vec<u8>) -> Vec<Extracted>>(
    content: &Vec<u8>,
    extract: &E,
) -> (found: Vec<(Vec<u8>, usize)>)
    requires
        forall|bytes: &Vec<u8>| call_requires(*extract, (bytes,)),
    ensures
        exists|masked: Vec<u8>, spans: Vec<Extracted>|
            {
                &&& masked@ == masked_text(content@)
                &&& #[trigger] call_ensures(*extract, (&masked,), spans)
                &&& position_views(found@) == positioned(content@, spans@, spans@.len() as int)
            },
        forall|i: int|
            0 <= i < found@.len() ==> {
                &&& (#[trigger] found@[i]).1 + found@[i].0@.len() <= content@.len()
                &&& content@.subrange(
                    found@[i].1 as int,
                    found@[i].1 + found@[i].0@.len(),
                ) == found@[i].0@
            },
{
    let masked = mask_empty_brackets(content);
    let spans = extract(&masked);
    let found = restore_positions(content, &spans);
    assert(call_ensures(*extract, (&masked,), spans));
    found
}

} // verus!
