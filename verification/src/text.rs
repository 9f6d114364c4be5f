//! Comparing text and bytes: equality, and the byte-wise lexicographic order
//! in which lists of rules and candidates are kept.

use vstd::prelude::*;
use vstd::utf8::{encode_utf8, encode_utf8_decode_utf8};
use vstd::string::StringSliceAdditionalSpecFns;

verus! {

/// `a` comes before `b` when both are read from position `k` on: at the first
/// position where they differ `a` holds the smaller byte, or `a` ends first.
pub open spec fn lex_less_from(a: Seq<u8>, b: Seq<u8>, k: int) -> bool
    decreases a.len() - k,
{
    if k < 0 || k >= b.len() {
        false
    } else if k >= a.len() {
        true
    } else if a[k] != b[k] {
        a[k] < b[k]
    } else {
        lex_less_from(a, b, k + 1)
    }
}

/// The strict byte-wise lexicographic order.
pub open spec fn lex_less(a: Seq<u8>, b: Seq<u8>) -> bool {
    lex_less_from(a, b, 0)
}

/// The same order on text, taken over its UTF-8 bytes.
pub open spec fn text_less(a: Seq<char>, b: Seq<char>) -> bool {
    lex_less(encode_utf8(a), encode_utf8(b))
}

/// Every two neighbours of `s` are in strict order.
pub open spec fn strictly_sorted(s: Seq<Seq<u8>>) -> bool {
    forall|i: int, j: int| 0 <= i < j < s.len() ==> lex_less(#[trigger] s[i], #[trigger] s[j])
}

/// The same for a list of texts.
pub open spec fn texts_strictly_sorted(s: Seq<Seq<char>>) -> bool {
    forall|i: int, j: int| 0 <= i < j < s.len() ==> text_less(#[trigger] s[i], #[trigger] s[j])
}

/// Two texts with the same bytes are the same text.
pub proof fn lemma_bytes_determine_text(a: Seq<char>, b: Seq<char>)
    requires
        encode_utf8(a) == encode_utf8(b),
    ensures
        a == b,
{
    encode_utf8_decode_utf8(a);
    encode_utf8_decode_utf8(b);
}

/// Where two byte strings agree before position `k`, their order is decided
/// from `k` on.
pub proof fn lemma_lex_from_agree(a: Seq<u8>, b: Seq<u8>, k: int)
    requires
        0 <= k <= a.len(),
        k <= b.len(),
        forall|m: int| 0 <= m < k ==> a[m] == b[m],
    ensures
        lex_less(a, b) == lex_less_from(a, b, k),
    decreases k,
{
    if k > 0 {
        lemma_lex_from_agree(a, b, k - 1);
    }
}

proof fn lemma_lex_from_irreflexive(a: Seq<u8>, k: int)
    requires
        0 <= k,
    ensures
        !lex_less_from(a, a, k),
    decreases a.len() - k,
{
    if k < a.len() {
        lemma_lex_from_irreflexive(a, k + 1);
    }
}

proof fn lemma_lex_from_transitive(a: Seq<u8>, b: Seq<u8>, c: Seq<u8>, k: int)
    requires
        0 <= k,
        lex_less_from(a, b, k),
        lex_less_from(b, c, k),
    ensures
        lex_less_from(a, c, k),
    decreases a.len() - k,
{
    if k < a.len() && k < b.len() && k < c.len() && a[k] == b[k] && b[k] == c[k] {
        lemma_lex_from_transitive(a, b, c, k + 1);
    }
}

proof fn lemma_lex_from_total(a: Seq<u8>, b: Seq<u8>, k: int)
    requires
        0 <= k <= a.len(),
        k <= b.len(),
        forall|m: int| 0 <= m < k ==> a[m] == b[m],
    ensures
        lex_less_from(a, b, k) || lex_less_from(b, a, k) || a == b,
    decreases a.len() - k,
{
    if k < a.len() && k < b.len() && a[k] == b[k] {
        lemma_lex_from_total(a, b, k + 1);
    } else if k == a.len() && k == b.len() {
        assert(a =~= b);
    }
}

/// Nothing comes before itself.
pub proof fn lemma_lex_irreflexive(a: Seq<u8>)
    ensures
        !lex_less(a, a),
{
    lemma_lex_from_irreflexive(a, 0);
}

/// The order is transitive.
pub proof fn lemma_lex_transitive(a: Seq<u8>, b: Seq<u8>, c: Seq<u8>)
    requires
        lex_less(a, b),
        lex_less(b, c),
    ensures
        lex_less(a, c),
{
    lemma_lex_from_transitive(a, b, c, 0);
}

/// Of two different byte strings one comes before the other.
pub proof fn lemma_lex_total(a: Seq<u8>, b: Seq<u8>)
    ensures
        lex_less(a, b) || lex_less(b, a) || a == b,
{
    lemma_lex_from_total(a, b, 0);
}

/// A strictly sorted list is fixed by the set of its items: two such lists with
/// the same items are the same list.
pub proof fn lemma_strictly_sorted_unique(s: Seq<Seq<u8>>, t: Seq<Seq<u8>>)
    requires
        strictly_sorted(s),
        strictly_sorted(t),
        s.to_set() =~= t.to_set(),
    ensures
        s == t,
    decreases s.len(),
{
    if s.len() == 0 {
        if t.len() > 0 {
            assert(t.to_set().contains(t[0]));
            assert(s.to_set().contains(t[0]));
        }
        assert(s =~= t);
    } else if t.len() == 0 {
        assert(s.to_set().contains(s[0]));
        assert(t.to_set().contains(s[0]));
    } else {
        let a = s.last();
        let b = t.last();
        assert(s.to_set().contains(a));
        assert(t.to_set().contains(a));
        assert(t.to_set().contains(b));
        assert(s.to_set().contains(b));
        let ia = choose|i: int| 0 <= i < t.len() && t[i] == a;
        let ib = choose|i: int| 0 <= i < s.len() && s[i] == b;
        if a != b {
            lemma_lex_total(a, b);
            if lex_less(a, b) {
                // b occurs in s before its last item a, so b < a
                assert(ib < s.len() - 1);
                assert(lex_less(s[ib], s[s.len() - 1]));
                lemma_lex_transitive(a, b, a);
                lemma_lex_irreflexive(a);
            } else {
                assert(ia < t.len() - 1);
                assert(lex_less(t[ia], t[t.len() - 1]));
                lemma_lex_transitive(b, a, b);
                lemma_lex_irreflexive(b);
            }
        }
        let s0 = s.drop_last();
        let t0 = t.drop_last();
        assert forall|x: Seq<u8>| s0.to_set().contains(x) <==> t0.to_set().contains(x) by {
            if s0.to_set().contains(x) {
                let i = choose|i: int| 0 <= i < s0.len() && s0[i] == x;
                assert(s[i] == x);
                assert(lex_less(s[i], s[s.len() - 1]));
                assert(s.to_set().contains(x));
                assert(t.to_set().contains(x));
                let j = choose|j: int| 0 <= j < t.len() && t[j] == x;
                if j == t.len() - 1 {
                    lemma_lex_irreflexive(a);
                }
                assert(t0[j] == x);
            }
            if t0.to_set().contains(x) {
                let i = choose|i: int| 0 <= i < t0.len() && t0[i] == x;
                assert(t[i] == x);
                assert(lex_less(t[i], t[t.len() - 1]));
                assert(t.to_set().contains(x));
                assert(s.to_set().contains(x));
                let j = choose|j: int| 0 <= j < s.len() && s[j] == x;
                if j == s.len() - 1 {
                    lemma_lex_irreflexive(a);
                }
                assert(s0[j] == x);
            }
        }
        assert(s0.to_set() =~= t0.to_set());
        assert(strictly_sorted(s0)) by {
            assert forall|i: int, j: int| 0 <= i < j < s0.len() implies lex_less(
                #[trigger] s0[i],
                #[trigger] s0[j],
            ) by {
                assert(lex_less(s[i], s[j]));
            }
        }
        assert(strictly_sorted(t0)) by {
            assert forall|i: int, j: int| 0 <= i < j < t0.len() implies lex_less(
                #[trigger] t0[i],
                #[trigger] t0[j],
            ) by {
                assert(lex_less(t[i], t[j]));
            }
        }
        lemma_strictly_sorted_unique(s0, t0);
        assert(s =~= s0.push(a));
        assert(t =~= t0.push(b));
    }
}

/// The first position at or after `k` whose text does not come before `x`.
pub open spec fn insertion_point_from(list: Seq<Seq<char>>, x: Seq<char>, k: int) -> int
    decreases list.len() - k,
{
    if k < 0 || k >= list.len() || !text_less(list[k], x) {
        k
    } else {
        insertion_point_from(list, x, k + 1)
    }
}

/// Where `x` stands, or is to stand, in a sorted list.
pub open spec fn insertion_point(list: Seq<Seq<char>>, x: Seq<char>) -> int {
    insertion_point_from(list, x, 0)
}

/// The views of a list of texts.
pub open spec fn text_views(list: Seq<String>) -> Seq<Seq<char>> {
    Seq::new(list.len(), |i: int| list[i]@)
}

/// Where `x` stands, or is to stand, in the sorted `list`.
pub fn find_insertion_point(list: &Vec<String>, x: &str) -> (k: usize)
    ensures
        k == insertion_point(text_views(list@), x@),
        k <= list@.len(),
{
    let n: usize = list.len();
    let mut k: usize = 0;
    while k < n && str_less(list[k].as_str(), x)
        invariant
            n == list@.len(),
            0 <= k <= n,
            insertion_point(text_views(list@), x@) == insertion_point_from(
                text_views(list@),
                x@,
                k as int,
            ),
        decreases n - k,
    {
        k = k + 1;
    }
    k
}

/// What is before the insertion point comes before `x`, and what stands at it
/// does not.
pub proof fn lemma_insertion_point(list: Seq<Seq<char>>, x: Seq<char>, k: int)
    requires
        0 <= k <= list.len(),
    ensures
        k <= insertion_point_from(list, x, k) <= list.len(),
        forall|j: int| k <= j < insertion_point_from(list, x, k) ==> text_less(#[trigger] list[j], x),
        insertion_point_from(list, x, k) < list.len() ==> !text_less(
            list[insertion_point_from(list, x, k)],
            x,
        ),
    decreases list.len() - k,
{
    if k < list.len() && text_less(list[k], x) {
        lemma_insertion_point(list, x, k + 1);
    }
}

/// The texts of `list` in the order of their bytes: each is put, in turn,
/// before the first that does not come before it.
pub open spec fn sorted_texts(list: Seq<Seq<char>>) -> Seq<Seq<char>>
    decreases list.len(),
{
    if list.len() == 0 {
        Seq::empty()
    } else {
        let before = sorted_texts(list.drop_last());
        before.insert(insertion_point(before, list.last()), list.last())
    }
}

/// No text of `list` comes before an earlier one.
pub open spec fn texts_sorted(list: Seq<Seq<char>>) -> bool {
    forall|i: int, j: int|
        0 <= i < j < list.len() ==> !text_less(#[trigger] list[j], #[trigger] list[i])
}

/// Sorting keeps every text, as often as it occurs, and puts them in order.
pub proof fn lemma_sorted_texts(list: Seq<Seq<char>>)
    ensures
        sorted_texts(list).len() == list.len(),
        sorted_texts(list).to_multiset() == list.to_multiset(),
        texts_sorted(sorted_texts(list)),
    decreases list.len(),
{
    if list.len() == 0 {
        assert(list =~= Seq::<Seq<char>>::empty());
    } else {
        let shorter = list.drop_last();
        let x = list.last();
        let before = sorted_texts(shorter);
        lemma_sorted_texts(shorter);
        lemma_insertion_point(before, x, 0);
        let k = insertion_point(before, x);
        let after = before.insert(k, x);
        vstd::seq_lib::to_multiset_insert(before, k, x);
        assert(list =~= shorter.push(x));
        vstd::seq_lib::to_multiset_build(shorter, x);
        assert forall|i: int, j: int| 0 <= i < j < after.len() implies !text_less(
            #[trigger] after[j],
            #[trigger] after[i],
        ) by {
            if j < k {
                assert(!text_less(before[j], before[i]));
            } else if j == k {
                // after[i] comes before x, so x does not come before it
                assert(text_less(before[i], x));
                if text_less(x, before[i]) {
                    lemma_lex_transitive(encode_utf8(x), encode_utf8(before[i]), encode_utf8(x));
                    lemma_lex_irreflexive(encode_utf8(x));
                }
            } else if i < k {
                assert(!text_less(before[j - 1], before[i]));
            } else if i == k {
                // x comes before nothing from the insertion point on
                assert(!text_less(before[k], x));
                if j - 1 > k {
                    assert(!text_less(before[j - 1], before[k]));
                    if text_less(before[j - 1], x) {
                        lemma_lex_total(encode_utf8(before[k]), encode_utf8(before[j - 1]));
                        if encode_utf8(before[k]) != encode_utf8(before[j - 1]) {
                            lemma_lex_transitive(
                                encode_utf8(before[k]),
                                encode_utf8(before[j - 1]),
                                encode_utf8(x),
                            );
                        }
                    }
                }
            } else {
                assert(!text_less(before[j - 1], before[i - 1]));
            }
        }
    }
}

/// The texts of `list` in the order of their bytes.
pub fn sort_texts(list: &Vec<String>) -> (sorted: Vec<String>)
    ensures
        text_views(sorted@) == sorted_texts(text_views(list@)),
{
    let mut sorted: Vec<String> = Vec::new();
    let n: usize = list.len();
    let mut i: usize = 0;
    proof {
        assert(text_views(sorted@) =~= sorted_texts(text_views(list@).take(0)));
    }
    while i < n
        invariant
            n == list@.len(),
            0 <= i <= n,
            text_views(sorted@) == sorted_texts(text_views(list@).take(i as int)),
        decreases n - i,
    {
        let ghost before = text_views(sorted@);
        proof {
            let prefix = text_views(list@).take(i as int + 1);
            assert(prefix.drop_last() =~= text_views(list@).take(i as int));
            assert(prefix.last() == list@[i as int]@);
        }
        let k = find_insertion_point(&sorted, list[i].as_str());
        sorted.insert(k, list[i].clone());
        proof {
            assert(text_views(sorted@) =~= before.insert(k as int, list@[i as int]@));
        }
        i = i + 1;
    }
    proof {
        assert(text_views(list@).take(n as int) =~= text_views(list@));
    }
    sorted
}

/// Whether two byte strings are equal.
pub fn bytes_equal(a: &[u8], b: &[u8]) -> (same: bool)
    ensures
        same == (a@ == b@),
{
    if a.len() != b.len() {
        return false;
    }
    let n: usize = a.len();
    let mut i: usize = 0;
    while i < n
        invariant
            n == a@.len(),
            n == b@.len(),
            0 <= i <= n,
            forall|m: int| 0 <= m < i ==> a@[m] == b@[m],
        decreases n - i,
    {
        if a[i] != b[i] {
            return false;
        }
        i = i + 1;
    }
    assert(a@ =~= b@);
    true
}

/// Whether `a` comes before `b` in the byte-wise lexicographic order.
pub fn bytes_less(a: &[u8], b: &[u8]) -> (less: bool)
    ensures
        less == lex_less(a@, b@),
{
    let mut i: usize = 0;
    loop
        invariant
            0 <= i <= a@.len(),
            i <= b@.len(),
            forall|m: int| 0 <= m < i ==> a@[m] == b@[m],
        decreases a@.len() - i,
    {
        proof {
            lemma_lex_from_agree(a@, b@, i as int);
        }
        if i >= b.len() {
            return false;
        }
        if i >= a.len() {
            return true;
        }
        if a[i] != b[i] {
            return a[i] < b[i];
        }
        i = i + 1;
    }
}

/// Whether two texts are equal.
pub fn str_equal(a: &str, b: &str) -> (same: bool)
    ensures
        same == (a@ == b@),
{
    let same = bytes_equal(a.as_bytes(), b.as_bytes());
    proof {
        if same {
            lemma_bytes_determine_text(a@, b@);
        }
    }
    same
}

/// Whether text `a` comes before text `b` in the order of their bytes.
pub fn str_less(a: &str, b: &str) -> (less: bool)
    ensures
        less == text_less(a@, b@),
{
    bytes_less(a.as_bytes(), b.as_bytes())
}

} // verus!
