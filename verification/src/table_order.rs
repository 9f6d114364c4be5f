//! The table of known extensions is in alphabetical order, and holds no
//! extension twice.

use vstd::prelude::*;
use vstd::utf8::{encode_utf8, is_ascii_chars, is_ascii_chars_encode_utf8};
use crate::paths::known_extension_list;
use crate::text::{
    lemma_lex_from_agree,
    lemma_lex_transitive,
    lex_less_from,
    text_less,
    texts_strictly_sorted,
};

verus! {

/// Each text of `list` comes before the next.
pub open spec fn neighbours_sorted(list: Seq<Seq<char>>) -> bool {
    forall|i: int| 0 <= i < list.len() - 1 ==> text_less(#[trigger] list[i], list[i + 1])
}

/// Where each text comes before the next, each comes before all that follow.
pub proof fn lemma_neighbours_sorted(list: Seq<Seq<char>>, i: int, j: int)
    requires
        neighbours_sorted(list),
        0 <= i < j < list.len(),
    ensures
        text_less(list[i], list[j]),
    decreases j - i,
{
    if j > i + 1 {
        lemma_neighbours_sorted(list, i, j - 1);
        assert(text_less(list[j - 1], list[j - 1 + 1]));
        lemma_lex_transitive(encode_utf8(list[i]), encode_utf8(list[j - 1]), encode_utf8(list[j]));
    }
}

/// Of two ASCII texts that agree before position `k`, the one that ends there,
/// or holds the smaller character there, comes first.
pub proof fn lemma_ascii_before(a: Seq<char>, b: Seq<char>, k: int)
    requires
        is_ascii_chars(a),
        is_ascii_chars(b),
        0 <= k <= a.len(),
        k < b.len(),
        forall|m: int| 0 <= m < k ==> a[m] == b[m],
        k == a.len() || a[k] < b[k],
    ensures
        text_less(a, b),
{
    is_ascii_chars_encode_utf8(a);
    is_ascii_chars_encode_utf8(b);
    let x = encode_utf8(a);
    let y = encode_utf8(b);
    assert forall|m: int| 0 <= m < k implies x[m] == y[m] by {
        assert(a[m] as u8 == x[m]);
        assert(b[m] as u8 == y[m]);
    }
    lemma_lex_from_agree(x, y, k);
    if k < a.len() {
        assert(a[k] as u8 == x[k]);
        assert(b[k] as u8 == y[k]);
        assert(x[k] < y[k]);
    }
    assert(lex_less_from(x, y, k));
}

/// The known extensions are in alphabetical order, none twice.
pub proof fn lemma_known_extensions_sorted()
    ensures
        texts_strictly_sorted(known_extension_list()),
{
    let list = known_extension_list();
    reveal_strlit("aspx");
    reveal_strlit("astro");
    reveal_strlit("cjs");
    reveal_strlit("cts");
    reveal_strlit("eex");
    reveal_strlit("erb");
    reveal_strlit("gjs");
    reveal_strlit("gts");
    reveal_strlit("haml");
    reveal_strlit("handlebars");
    reveal_strlit("hbs");
    reveal_strlit("heex");
    reveal_strlit("html");
    reveal_strlit("jade");
    reveal_strlit("js");
    reveal_strlit("jsx");
    reveal_strlit("liquid");
    reveal_strlit("md");
    reveal_strlit("mdx");
    reveal_strlit("mjs");
    reveal_strlit("mts");
    reveal_strlit("mustache");
    reveal_strlit("njk");
    reveal_strlit("nunjucks");
    reveal_strlit("php");
    reveal_strlit("pug");
    reveal_strlit("py");
    reveal_strlit("razor");
    reveal_strlit("rb");
    reveal_strlit("rhtml");
    reveal_strlit("rs");
    reveal_strlit("slim");
    reveal_strlit("svelte");
    reveal_strlit("tpl");
    reveal_strlit("ts");
    reveal_strlit("tsx");
    reveal_strlit("twig");
    reveal_strlit("vue");
    lemma_ascii_before("aspx"@, "astro"@, 2);
    lemma_ascii_before("astro"@, "cjs"@, 0);
    lemma_ascii_before("cjs"@, "cts"@, 1);
    lemma_ascii_before("cts"@, "eex"@, 0);
    lemma_ascii_before("eex"@, "erb"@, 1);
    lemma_ascii_before("erb"@, "gjs"@, 0);
    lemma_ascii_before("gjs"@, "gts"@, 1);
    lemma_ascii_before("gts"@, "haml"@, 0);
    lemma_ascii_before("haml"@, "handlebars"@, 2);
    lemma_ascii_before("handlebars"@, "hbs"@, 1);
    lemma_ascii_before("hbs"@, "heex"@, 1);
    lemma_ascii_before("heex"@, "html"@, 1);
    lemma_ascii_before("html"@, "jade"@, 0);
    lemma_ascii_before("jade"@, "js"@, 1);
    lemma_ascii_before("js"@, "jsx"@, 2);
    lemma_ascii_before("jsx"@, "liquid"@, 0);
    lemma_ascii_before("liquid"@, "md"@, 0);
    lemma_ascii_before("md"@, "mdx"@, 2);
    lemma_ascii_before("mdx"@, "mjs"@, 1);
    lemma_ascii_before("mjs"@, "mts"@, 1);
    lemma_ascii_before("mts"@, "mustache"@, 1);
    lemma_ascii_before("mustache"@, "njk"@, 0);
    lemma_ascii_before("njk"@, "nunjucks"@, 1);
    lemma_ascii_before("nunjucks"@, "php"@, 0);
    lemma_ascii_before("php"@, "pug"@, 1);
    lemma_ascii_before("pug"@, "py"@, 1);
    lemma_ascii_before("py"@, "razor"@, 0);
    lemma_ascii_before("razor"@, "rb"@, 1);
    lemma_ascii_before("rb"@, "rhtml"@, 1);
    lemma_ascii_before("rhtml"@, "rs"@, 1);
    lemma_ascii_before("rs"@, "slim"@, 0);
    lemma_ascii_before("slim"@, "svelte"@, 1);
    lemma_ascii_before("svelte"@, "tpl"@, 0);
    lemma_ascii_before("tpl"@, "ts"@, 1);
    lemma_ascii_before("ts"@, "tsx"@, 2);
    lemma_ascii_before("tsx"@, "twig"@, 1);
    lemma_ascii_before("twig"@, "vue"@, 0);
    assert(neighbours_sorted(list));
    assert forall|i: int, j: int| 0 <= i < j < list.len() implies text_less(
        #[trigger] list[i],
        #[trigger] list[j],
    ) by {
        lemma_neighbours_sorted(list, i, j);
    }
}

} // verus!
