//! Design genome queries: output formats, text truncation, font weight
//! labels, and the ordering of design tokens.

use vstd::prelude::*;
use crate::catalog::texts;
use crate::text::{
    chars_lt, chars_of, contains_str, eq_str, lemma_lt_irrefl, lemma_lt_total, lemma_lt_trans, lowercase, seq_contains, seq_lt,
    string_of, to_lower,
};

verus! {

/* ------------------------------ output formats ------------------------------ */

/// Output format of generated style code.
#[derive(Debug, Clone, Copy, PartialEq, Eq, Structural)]
pub enum StyleCodeFormat {
    Css,
    Tailwind,
}

impl StyleCodeFormat {
    /// The format a lowercase format name selects.
    pub open spec fn lower_spec(l: Seq<char>) -> Option<StyleCodeFormat> {
        if l == "css"@ {
            Some(StyleCodeFormat::Css)
        } else if l == "tailwind"@ || l == "tailwindcss"@ || l == "tw"@ {
            Some(StyleCodeFormat::Tailwind)
        } else {
            None
        }
    }

    /// The format a (case-insensitive) format name selects; no name means CSS.
    pub open spec fn parse_spec(s: Option<Seq<char>>) -> Option<StyleCodeFormat> {
        match s {
            None => Some(StyleCodeFormat::Css),
            Some(name) => Self::lower_spec(lowercase(name)),
        }
    }

    /// The format a format name selects, given the name already lowercased.
    pub fn from_lowercase(lower: &str) -> (r: Option<StyleCodeFormat>)
        ensures
            r == Self::lower_spec(lower@),
    {
        let l = chars_of(lower);
        if eq_str(l.as_slice(), "css") {
            Some(StyleCodeFormat::Css)
        } else if eq_str(l.as_slice(), "tailwind") || eq_str(l.as_slice(), "tailwindcss")
            || eq_str(l.as_slice(), "tw") {
            Some(StyleCodeFormat::Tailwind)
        } else {
            None
        }
    }

    pub fn parse(s: Option<&str>) -> (r: Option<StyleCodeFormat>)
        ensures
            r == Self::parse_spec(match s {
                Some(x) => Some(x@),
                None => None,
            }),
    {
        match s {
            None => Some(StyleCodeFormat::Css),
            Some(name) => {
                let lower = to_lower(name);
                Self::from_lowercase(lower.as_str())
            },
        }
    }

    /// The lowercase name of the format, as reported with generated code.
    pub fn name(&self) -> (r: String)
        ensures
            r@ == (match *self {
                StyleCodeFormat::Css => "css"@,
                StyleCodeFormat::Tailwind => "tailwind"@,
            }),
    {
        match self {
            StyleCodeFormat::Css => String::from_str("css"),
            StyleCodeFormat::Tailwind => String::from_str("tailwind"),
        }
    }
}

/// How much of a text node's content the tree carries.
#[derive(Debug, Clone, Copy, PartialEq, Eq, Structural)]
pub enum TextContent {
    /// At most the first 40 characters, then an ellipsis.
    Truncate,
    Full,
    NoText,
}

impl TextContent {
    /// The mode a lowercase name selects.
    pub open spec fn lower_spec(l: Seq<char>) -> Option<TextContent> {
        if l == "truncate"@ {
            Some(TextContent::Truncate)
        } else if l == "full"@ {
            Some(TextContent::Full)
        } else if l == "none"@ {
            Some(TextContent::NoText)
        } else {
            None
        }
    }

    pub open spec fn from_name_spec(s: Seq<char>) -> Option<TextContent> {
        Self::lower_spec(lowercase(s))
    }

    /// The mode a name selects, given the name already lowercased.
    pub fn from_lowercase(lower: &str) -> (r: Option<TextContent>)
        ensures
            r == Self::lower_spec(lower@),
    {
        let l = chars_of(lower);
        if eq_str(l.as_slice(), "truncate") {
            Some(TextContent::Truncate)
        } else if eq_str(l.as_slice(), "full") {
            Some(TextContent::Full)
        } else if eq_str(l.as_slice(), "none") {
            Some(TextContent::NoText)
        } else {
            None
        }
    }

    /// The mode a (case-insensitive) name selects: truncate, full or none.
    pub fn from_name(s: &str) -> (r: Option<TextContent>)
        ensures
            r == Self::from_name_spec(s@),
    {
        let lower = to_lower(s);
        Self::from_lowercase(lower.as_str())
    }
}

/* ------------------------------- text payload ------------------------------- */

/// Number of characters a truncated text keeps.
pub const TEXT_TRUNCATE_CHARS: usize = 40;

/// A text cut to its first 40 characters, with `…` appended when cut.
pub open spec fn truncate_spec(t: Seq<char>) -> Seq<char> {
    if t.len() > 40 {
        t.subrange(0, 40).push('\u{2026}')
    } else {
        t
    }
}

pub fn truncate_text(text: &str) -> (r: String)
    ensures
        r@ == truncate_spec(text@),
{
    let chars = chars_of(text);
    if chars.len() > TEXT_TRUNCATE_CHARS {
        let mut kept: Vec<char> = Vec::new();
        let mut i: usize = 0;
        while i < TEXT_TRUNCATE_CHARS
            invariant
                chars@ == text@,
                chars@.len() > 40,
                i <= 40,
                kept@ == chars@.subrange(0, i as int),
            decreases 40 - i,
        {
            kept.push(chars[i]);
            i += 1;
            assert(kept@ =~= chars@.subrange(0, i as int));
        }
        kept.push('\u{2026}');
        string_of(kept.as_slice())
    } else {
        string_of(chars.as_slice())
    }
}

/* ------------------------------- font weights ------------------------------- */

/// The numeric weight a lowercase font style label names (checked in this
/// order: thin, light, medium, semibold, bold, black/heavy, regular/normal).
pub open spec fn lower_weight_spec(l: Seq<char>) -> Option<u32> {
    if seq_contains(l, "thin"@) {
        Some(100)
    } else if seq_contains(l, "light"@) {
        Some(300)
    } else if seq_contains(l, "medium"@) {
        Some(500)
    } else if seq_contains(l, "semibold"@) {
        Some(600)
    } else if seq_contains(l, "bold"@) {
        Some(700)
    } else if seq_contains(l, "black"@) || seq_contains(l, "heavy"@) {
        Some(900)
    } else if seq_contains(l, "regular"@) || seq_contains(l, "normal"@) {
        Some(400)
    } else {
        None
    }
}

/// The numeric weight a font style label names, in any case.
pub open spec fn weight_spec(style: Option<Seq<char>>) -> Option<u32> {
    match style {
        None => None,
        Some(s) => lower_weight_spec(lowercase(s)),
    }
}

/// The numeric weight a font style label names, given the label already
/// lowercased.
pub fn weight_of_lowercase(lower: &str) -> (r: Option<u32>)
    ensures
        r == lower_weight_spec(lower@),
{
    let l = chars_of(lower);
    let l = l.as_slice();
    if contains_str(l, "thin") {
        Some(100)
    } else if contains_str(l, "light") {
        Some(300)
    } else if contains_str(l, "medium") {
        Some(500)
    } else if contains_str(l, "semibold") {
        Some(600)
    } else if contains_str(l, "bold") {
        Some(700)
    } else if contains_str(l, "black") || contains_str(l, "heavy") {
        Some(900)
    } else if contains_str(l, "regular") || contains_str(l, "normal") {
        Some(400)
    } else {
        None
    }
}

/// Maps a font style label ("Semibold", "Bold", ...) to a numeric weight.
pub fn style_to_weight(style: Option<&str>) -> (r: Option<u32>)
    ensures
        r == weight_spec(match style {
            Some(x) => Some(x@),
            None => None,
        }),
{
    match style {
        Some(s) => {
            let lower = to_lower(s);
            weight_of_lowercase(lower.as_str())
        },
        None => None,
    }
}


/* ---------------------------------- tokens ----------------------------------- */

/// `r` lists, each once and in increasing order (by `lt`), exactly the
/// values `keep` admits among `values`.
pub open spec fn sorted_set_of<T>(r: Seq<T>, values: Seq<T>, keep: spec_fn(T) -> bool, lt: spec_fn(T, T) -> bool) -> bool {
    &&& forall|p: int, q: int| 0 <= p < q < r.len() ==> #[trigger] lt(r[p], r[q])
    &&& forall|y: T| r.contains(y) <==> (values.contains(y) && keep(y))
}

/// Inserting a value at its place in a strictly increasing sequence keeps
/// it strictly increasing and adds exactly that value.
proof fn lemma_insert_sorted_by<T>(r: Seq<T>, pos: int, x: T, lt: spec_fn(T, T) -> bool)
    requires
        forall|a: T, b: T, c: T| #[trigger] lt(a, b) && #[trigger] lt(b, c) ==> lt(a, c),
        forall|p: int, q: int| 0 <= p < q < r.len() ==> #[trigger] lt(r[p], r[q]),
        0 <= pos <= r.len(),
        forall|p: int| 0 <= p < pos ==> #[trigger] lt(r[p], x),
        pos < r.len() ==> lt(x, r[pos]),
    ensures
        forall|p: int, q: int| 0 <= p < q < r.len() + 1 ==> #[trigger] lt(r.insert(pos, x)[p], r.insert(pos, x)[q]),
        forall|y: T| r.insert(pos, x).contains(y) <==> (r.contains(y) || y == x),
{
    let r2 = r.insert(pos, x);
    r.insert_ensures(pos, x);
    assert forall|p: int, q: int| 0 <= p < q < r.len() + 1 implies #[trigger] lt(r2[p], r2[q]) by {
        if q < pos {
            assert(lt(r[p], r[q]));
        } else if q == pos {
            assert(lt(r[p], x));
        } else if p > pos {
            assert(lt(r[p - 1], r[q - 1]));
        } else if p == pos {
            if q - 1 > pos {
                assert(lt(r[pos], r[q - 1]));
            }
        } else {
            assert(lt(r[p], x));
            if q - 1 > pos {
                assert(lt(r[pos], r[q - 1]));
            }
            assert(lt(x, r[q - 1]));
        }
    }
    assert forall|y: T| r2.contains(y) <==> (r.contains(y) || y == x) by {
        if r2.contains(y) {
            let i = choose|i: int| 0 <= i < r2.len() && r2[i] == y;
            if i < pos {
                assert(r[i] == y);
            } else if i > pos {
                assert(r[i - 1] == y);
            }
        }
        if r.contains(y) {
            let i = choose|i: int| 0 <= i < r.len() && r[i] == y;
            if i < pos {
                assert(r2[i] == y);
            } else {
                assert(r2[i + 1] == y);
            }
        }
        if y == x {
            assert(r2[pos] == y);
        }
    }
}

/// The values admitted as a numeric token: all, or only the positive ones.
pub open spec fn number_kept(positive_only: bool) -> spec_fn(i64) -> bool {
    |x: i64| !positive_only || x > 0
}

/// The numeric tokens among `values` (only the positive ones when
/// `positive_only`), each once, in increasing order.
pub fn token_numbers(values: &Vec<i64>, positive_only: bool) -> (r: Vec<i64>)
    ensures
        sorted_set_of(r@, values@, number_kept(positive_only), |a: i64, b: i64| a < b),
{
    let ghost lt = |a: i64, b: i64| a < b;
    let ghost keep = number_kept(positive_only);
    let mut r: Vec<i64> = Vec::new();
    let mut k: usize = 0;
    while k < values.len()
        invariant
            k <= values@.len(),
            lt == |a: i64, b: i64| a < b,
            keep == number_kept(positive_only),
            sorted_set_of(r@, values@.subrange(0, k as int), keep, lt),
        decreases values@.len() - k,
    {
        let x = values[k];
        let ghost before = r@;
        proof {
            assert(values@.subrange(0, k + 1) =~= values@.subrange(0, k as int).push(x));
        }
        if !positive_only || x > 0 {
            let mut pos: usize = 0;
            while pos < r.len() && r[pos] < x
                invariant
                    r@ == before,
                    pos <= r@.len(),
                    forall|p: int| 0 <= p < pos ==> r@[p] < x,
                decreases r@.len() - pos,
            {
                pos += 1;
            }
            if pos < r.len() && r[pos] == x {
                proof {
                    assert(r@.contains(x));
                }
            } else {
                proof {
                    lemma_insert_sorted_by(r@, pos as int, x, lt);
                }
                r.insert(pos, x);
            }
        }
        proof {
            assert forall|y: i64| r@.contains(y) <==> (values@.subrange(0, k + 1).contains(y) && keep(y)) by {
                let s0 = values@.subrange(0, k as int);
                let s1 = values@.subrange(0, k + 1);
                if s1.contains(y) && y != x {
                    let i = choose|i: int| 0 <= i < s1.len() && s1[i] == y;
                    assert(s0[i] == y);
                }
                if s0.contains(y) {
                    let i = choose|i: int| 0 <= i < s0.len() && s0[i] == y;
                    assert(s1[i] == y);
                }
                if y == x {
                    assert(s1[k as int] == y);
                }
            }
        }
        k += 1;
    }
    proof {
        assert(values@.subrange(0, values@.len() as int) =~= values@);
    }
    r
}

/// The color tokens among `values`, each once, in increasing code point
/// order (the order of `str::cmp`).
pub fn token_texts(values: &Vec<String>) -> (r: Vec<String>)
    ensures
        sorted_set_of(texts(r@), texts(values@), |t: Seq<char>| true, |a: Seq<char>, b: Seq<char>| seq_lt(a, b)),
{
    let ghost lt = |a: Seq<char>, b: Seq<char>| seq_lt(a, b);
    let ghost keep = |t: Seq<char>| true;
    let ghost vs = texts(values@);
    proof {
        assert forall|a: Seq<char>, b: Seq<char>, c: Seq<char>| #[trigger] lt(a, b) && #[trigger] lt(b, c) implies lt(a, c) by {
            lemma_lt_trans(a, b, c);
        }
    }
    let mut r: Vec<String> = Vec::new();
    proof {
        assert(texts(r@) =~= Seq::<Seq<char>>::empty());
    }
    let mut k: usize = 0;
    while k < values.len()
        invariant
            k <= values@.len(),
            vs == texts(values@),
            lt == |a: Seq<char>, b: Seq<char>| seq_lt(a, b),
            keep == |t: Seq<char>| true,
            forall|a: Seq<char>, b: Seq<char>, c: Seq<char>| #[trigger] lt(a, b) && #[trigger] lt(b, c) ==> lt(a, c),
            sorted_set_of(texts(r@), vs.subrange(0, k as int), keep, lt),
        decreases values@.len() - k,
    {
        let xs = &values[k];
        let ghost x = xs@;
        let ghost before = texts(r@);
        proof {
            assert(vs.subrange(0, k + 1) =~= vs.subrange(0, k as int).push(x));
        }
        let xc = chars_of(xs.as_str());
        let mut pos: usize = 0;
        let mut at_or_after = false;
        while pos < r.len() && !at_or_after
            invariant
                texts(r@) == before,
                xc@ == x,
                pos <= r@.len(),
                forall|p: int| 0 <= p < pos ==> seq_lt(before[p], x),
                at_or_after ==> pos < r@.len() && !seq_lt(before[pos as int], x),
            decreases r@.len() - pos, if at_or_after { 0int } else { 1int },
        {
            let rc = chars_of(r[pos].as_str());
            proof {
                assert(before[pos as int] == r@[pos as int]@);
            }
            if chars_lt(rc.as_slice(), xc.as_slice()) {
                pos += 1;
            } else {
                at_or_after = true;
            }
        }
        let same = pos < r.len() && r[pos].eq(xs);
        if same {
            proof {
                assert(before[pos as int] == x);
                assert(before.contains(x));
            }
        } else {
            proof {
                if pos < before.len() {
                    assert(before[pos as int] == r@[pos as int]@);
                    assert(!seq_lt(before[pos as int], x));
                    assert(before[pos as int] != x);
                    lemma_lt_total(x, before[pos as int]);
                }
                lemma_insert_sorted_by(before, pos as int, x, lt);
            }
            r.insert(pos, xs.clone());
            proof {
                assert(texts(r@) =~= before.insert(pos as int, x));
            }
        }
        proof {
            assert forall|y: Seq<char>| texts(r@).contains(y) <==> (vs.subrange(0, k + 1).contains(y) && keep(y)) by {
                let s0 = vs.subrange(0, k as int);
                let s1 = vs.subrange(0, k + 1);
                if s1.contains(y) && y != x {
                    let i = choose|i: int| 0 <= i < s1.len() && s1[i] == y;
                    assert(s0[i] == y);
                }
                if s0.contains(y) {
                    let i = choose|i: int| 0 <= i < s0.len() && s0[i] == y;
                    assert(s1[i] == y);
                }
                if y == x {
                    assert(s1[k as int] == y);
                }
            }
        }
        k += 1;
    }
    proof {
        assert(vs.subrange(0, values@.len() as int) =~= vs);
    }
    r
}


/* -------------------------------- style code ---------------------------------- */

/// Generated style code for one node.
#[derive(Debug, Clone, Default)]
pub struct StyleCodeItem {
    pub id: String,
    pub name: String,
    /// CSS class / Tailwind-ready component label derived from the node name.
    pub selector: String,
    /// Generated style declaration (css block or tailwind class string).
    pub code: String,
}

/// The class name of a node: the first 24 alphanumeric characters of its
/// name (`node` when there are none), a dash, and the first 6 characters of
/// its id.
pub open spec fn class_name_spec(name: Seq<char>, id: Seq<char>) -> Seq<char> {
    let base = crate::layers::cap(name.filter(|c: char| crate::text::alphanumeric(c)), 24);
    (if base.len() == 0 {
        "node"@
    } else {
        base
    }) + "-"@ + crate::layers::cap(id, 6)
}

/// The class name of a node (see `class_name_spec`).
pub fn class_name(name: &str, id: &str) -> (r: String)
    ensures
        r@ == class_name_spec(name@, id@),
{
    let nc = chars_of(name);
    let mut base: Vec<char> = Vec::new();
    let mut i: usize = 0;
    let ghost f = |c: char| crate::text::alphanumeric(c);
    while i < nc.len() && base.len() < 24
        invariant
            nc@ == name@,
            f == (|c: char| crate::text::alphanumeric(c)),
            i <= nc@.len(),
            base@.len() <= 24,
            base@ == crate::layers::cap(nc@.subrange(0, i as int).filter(f), 24),
            base@.len() < 24 ==> base@ == nc@.subrange(0, i as int).filter(f),
        decreases nc@.len() - i,
    {
        let c = nc[i];
        proof {
            assert(nc@.subrange(0, i + 1) =~= nc@.subrange(0, i as int).push(c));
            nc@.subrange(0, i as int).lemma_filter_push(c, f);
        }
        if crate::text::char_is_alphanumeric(c) {
            base.push(c);
        }
        i += 1;
    }
    proof {
        let all = nc@.filter(f);
        let pre = nc@.subrange(0, i as int).filter(f);
        if i < nc@.len() {
            // 24 kept: the rest cannot change the first 24
            assert(base@.len() == 24);
            lemma_filter_prefix(nc@, i as int, f);
            assert(all.subrange(0, pre.len() as int) == pre);
            assert(pre.len() >= 24);
            assert(crate::layers::cap(all, 24) =~= crate::layers::cap(pre, 24));
        } else {
            assert(nc@.subrange(0, i as int) =~= nc@);
        }
    }
    let mut out: Vec<char> = Vec::new();
    if base.len() == 0 {
        out.push('n');
        out.push('o');
        out.push('d');
        out.push('e');
        proof {
            reveal_strlit("node");
            assert(out@ =~= "node"@);
        }
    } else {
        out = base;
    }
    out.push('-');
    let ic = chars_of(id);
    let mut j: usize = 0;
    let ghost head = out@;
    while j < ic.len() && j < 6
        invariant
            ic@ == id@,
            j <= 6,
            j <= ic@.len(),
            out@ == head + ic@.subrange(0, j as int),
        decreases 6 - j,
    {
        out.push(ic[j]);
        proof {
            assert(ic@.subrange(0, j + 1) =~= ic@.subrange(0, j as int).push(ic@[j as int]));
        }
        j += 1;
    }
    proof {
        reveal_strlit("-");
        if ic@.len() <= 6 {
            assert(ic@.subrange(0, j as int) =~= ic@);
        } else {
            assert(ic@.subrange(0, 6) =~= ic@.take(6));
        }
        assert(out@ =~= class_name_spec(name@, id@));
    }
    string_of(out.as_slice())
}

/// Filtering a prefix gives a prefix of the filtered sequence.
proof fn lemma_filter_prefix(s: Seq<char>, i: int, f: spec_fn(char) -> bool)
    requires
        0 <= i <= s.len(),
    ensures
        s.subrange(0, i).filter(f).len() <= s.filter(f).len(),
        s.filter(f).subrange(0, s.subrange(0, i).filter(f).len() as int) == s.subrange(0, i).filter(f),
    decreases s.len() - i,
{
    if i < s.len() {
        lemma_filter_prefix(s, i + 1, f);
        assert(s.subrange(0, i + 1) =~= s.subrange(0, i).push(s[i]));
        s.subrange(0, i).lemma_filter_push(s[i], f);
        let a = s.subrange(0, i).filter(f);
        let b = s.subrange(0, i + 1).filter(f);
        assert(b.subrange(0, a.len() as int) =~= a);
        assert(s.filter(f).subrange(0, a.len() as int) =~= s.filter(f).subrange(0, b.len() as int).subrange(0, a.len() as int));
    } else {
        assert(s.subrange(0, i) =~= s);
        assert(s.filter(f).subrange(0, s.filter(f).len() as int) =~= s.filter(f));
    }
}

} // verus!
