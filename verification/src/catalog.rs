//! The workspace catalog of designs (`.moonvy-mcp/catalog.json`, with the
//! alias map of `aliases.json`) and its name-based search.
//!
//! A query and every compared text are normalized by trimming whitespace
//! and lowercasing. A design matches when the query equals a normalized
//! field (score 100, "exact"), when an alias entry that mentions the query
//! points at the design (score 80, "alias-map"), or when a normalized field
//! contains the query (score 50, "contains"). Matches come best score
//! first, then by name, then in catalog order.

use vstd::prelude::*;
use crate::json::Json;
use crate::text::{
    chars_eq, chars_lt, chars_of, contains_chars, lemma_lt_total,
    lemma_lt_trans, lowercase, seq_contains, seq_lt, string_of, to_lower, trim_chars, trim_seq,
};

verus! {

/* ---------------------------------- records ---------------------------------- */

/// One design of the catalog.
#[derive(Debug, Clone, Default)]
pub struct CatalogDesign {
    pub id: String,
    pub name: String,
    pub design_type: String,
    pub url: String,
    pub project_id: String,
    pub parent_id: String,
    pub aliases: Vec<String>,
    pub tags: Vec<String>,
    pub last_synced_at: String,
    pub width: Option<i64>,
    pub height: Option<i64>,
}

/// A catalog design as plain text.
pub struct DesignView {
    pub id: Seq<char>,
    pub name: Seq<char>,
    pub design_type: Seq<char>,
    pub url: Seq<char>,
    pub project_id: Seq<char>,
    pub parent_id: Seq<char>,
    pub aliases: Seq<Seq<char>>,
    pub tags: Seq<Seq<char>>,
    pub last_synced_at: Seq<char>,
    pub width: Option<i64>,
    pub height: Option<i64>,
}

/// The texts of a sequence of strings.
pub open spec fn texts(v: Seq<String>) -> Seq<Seq<char>> {
    v.map_values(|s: String| s@)
}

impl View for CatalogDesign {
    type V = DesignView;

    open spec fn view(&self) -> DesignView {
        DesignView {
            id: self.id@,
            name: self.name@,
            design_type: self.design_type@,
            url: self.url@,
            project_id: self.project_id@,
            parent_id: self.parent_id@,
            aliases: texts(self.aliases@),
            tags: texts(self.tags@),
            last_synced_at: self.last_synced_at@,
            width: self.width,
            height: self.height,
        }
    }
}

/// Where a catalog was synced from.
#[derive(Debug, Clone, Default)]
pub struct CatalogSource {
    pub name: String,
    pub url: String,
    pub last_synced_at: String,
}

/// The catalog of a workspace.
#[derive(Debug, Clone, Default)]
pub struct Catalog {
    pub version: u32,
    pub updated_at: Option<String>,
    pub sources: Vec<CatalogSource>,
    pub designs: Vec<CatalogDesign>,
}

/// A search result: the design, its score and why it matched.
#[derive(Debug, Clone, Default)]
pub struct CatalogMatch {
    pub design: CatalogDesign,
    pub score: u32,
    pub match_reason: String,
}

/// The designs of a catalog as plain text.
pub open spec fn design_views(c: Catalog) -> Seq<DesignView> {
    c.designs@.map_values(|d: CatalogDesign| d@)
}

/// A copy of a list of strings.
pub fn clone_strings(v: &Vec<String>) -> (r: Vec<String>)
    ensures
        texts(r@) == texts(v@),
{
    let mut r: Vec<String> = Vec::new();
    let mut i: usize = 0;
    while i < v.len()
        invariant
            i <= v@.len(),
            texts(r@) == texts(v@.subrange(0, i as int)),
        decreases v@.len() - i,
    {
        let ghost old_r = r@;
        r.push(v[i].clone());
        proof {
            assert(texts(r@) =~= texts(old_r).push(v@[i as int]@));
            assert(v@.subrange(0, i + 1) =~= v@.subrange(0, i as int).push(v@[i as int]));
            assert(texts(v@.subrange(0, i + 1)) =~= texts(v@.subrange(0, i as int)).push(v@[i as int]@));
        }
        i += 1;
    }
    proof {
        assert(v@.subrange(0, v@.len() as int) =~= v@);
    }
    r
}

/// The summary of a design that search results and listings report: the
/// whole design record.
pub fn design_summary(design: &CatalogDesign) -> (r: CatalogDesign)
    ensures
        r@ == design@,
{
    CatalogDesign {
        id: design.id.clone(),
        name: design.name.clone(),
        design_type: design.design_type.clone(),
        url: design.url.clone(),
        project_id: design.project_id.clone(),
        parent_id: design.parent_id.clone(),
        aliases: clone_strings(&design.aliases),
        tags: clone_strings(&design.tags),
        last_synced_at: design.last_synced_at.clone(),
        width: design.width,
        height: design.height,
    }
}

/* ------------------------------- normalization ------------------------------- */

/// A text as search compares it: trimmed, then lowercased.
pub open spec fn norm(s: Seq<char>) -> Seq<char> {
    lowercase(trim_seq(s))
}

pub fn normalize_for_search(s: &str) -> (r: Vec<char>)
    ensures
        r@ == norm(s@),
{
    let c = chars_of(s);
    let t = trim_chars(c.as_slice());
    let ts = string_of(t.as_slice());
    let l = to_lower(ts.as_str());
    chars_of(l.as_str())
}

/* ---------------------------------- aliases ---------------------------------- */

/// The string items of a JSON array, in order.
pub open spec fn string_items(items: Seq<Json>) -> Seq<Seq<char>>
    decreases items.len(),
{
    if items.len() == 0 {
        Seq::empty()
    } else {
        let r = string_items(items.drop_last());
        match items.last() {
            Json::String(s) => r.push(s@),
            _ => r,
        }
    }
}

/// The design names an alias entry points at: a string, or the strings of
/// an array; nothing for any other value.
pub open spec fn alias_targets(to: Json) -> Seq<Seq<char>> {
    match to {
        Json::Array(items) => string_items(items@),
        Json::String(s) => seq![s@],
        _ => Seq::empty(),
    }
}

/// An alias entry mentions the query: in its key or in one of its targets.
pub open spec fn alias_selected(from: Seq<char>, to: Json, q: Seq<char>) -> bool {
    ||| seq_contains(norm(from), q)
    ||| exists|t: int| 0 <= t < alias_targets(to).len() && seq_contains(norm(#[trigger] alias_targets(to)[t]), q)
}

/// Some target of one of the first `n` alias entries that mentions the
/// query normalizes to `e`.
pub open spec fn alias_norm_upto(aliases: Seq<(String, Json)>, q: Seq<char>, n: int, e: Seq<char>) -> bool {
    exists|k: int, t: int|
        #![trigger alias_targets(aliases[k].1)[t]]
        0 <= k < n && alias_selected(aliases[k].0@, aliases[k].1, q) && 0 <= t < alias_targets(aliases[k].1).len()
            && norm(alias_targets(aliases[k].1)[t]) == e
}

/// Some target of an alias entry that mentions the query normalizes to `e`.
pub open spec fn alias_norm(aliases: Seq<(String, Json)>, q: Seq<char>, e: Seq<char>) -> bool {
    alias_norm_upto(aliases, q, aliases.len() as int, e)
}

/// `e` is the text of one of the entries of `r`.
pub open spec fn listed(r: Seq<Vec<char>>, e: Seq<char>) -> bool {
    exists|p: int| 0 <= p < r.len() && #[trigger] r[p]@ == e
}

/// The targets of an alias value.
fn targets_of(to: &Json) -> (r: Vec<Vec<char>>)
    ensures
        r@.map_values(|c: Vec<char>| c@) == alias_targets(*to),
{
    match to {
        Json::Array(items) => {
            let mut r: Vec<Vec<char>> = Vec::new();
            let mut i: usize = 0;
            while i < items.len()
                invariant
                    i <= items@.len(),
                    r@.map_values(|c: Vec<char>| c@) == string_items(items@.subrange(0, i as int)),
                decreases items@.len() - i,
            {
                let ghost old_r = r@;
                proof {
                    assert(items@.subrange(0, i + 1).drop_last() =~= items@.subrange(0, i as int));
                }
                match &items[i] {
                    Json::String(s) => {
                        r.push(chars_of(s.as_str()));
                        proof {
                            assert(r@.map_values(|c: Vec<char>| c@) =~= old_r.map_values(|c: Vec<char>| c@).push(s@));
                        }
                    },
                    _ => {},
                }
                i += 1;
            }
            proof {
                assert(items@.subrange(0, items@.len() as int) =~= items@);
            }
            r
        },
        Json::String(s) => {
            let mut r: Vec<Vec<char>> = Vec::new();
            r.push(chars_of(s.as_str()));
            proof {
                assert(r@.map_values(|c: Vec<char>| c@) =~= seq![s@]);
            }
            r
        },
        _ => {
            let r: Vec<Vec<char>> = Vec::new();
            proof {
                assert(r@.map_values(|c: Vec<char>| c@) =~= Seq::<Seq<char>>::empty());
            }
            r
        },
    }
}

/// The normalized targets of every alias entry that mentions the query.
fn collect_alias_targets(aliases: &Vec<(String, Json)>, q: &Vec<char>) -> (r: Vec<Vec<char>>)
    ensures
        forall|e: Seq<char>| #[trigger] listed(r@, e) <==> alias_norm(aliases@, q@, e),
{
    let mut r: Vec<Vec<char>> = Vec::new();
    let mut k: usize = 0;
    while k < aliases.len()
        invariant
            k <= aliases@.len(),
            forall|e: Seq<char>| #[trigger] listed(r@, e) <==> alias_norm_upto(aliases@, q@, k as int, e),
        decreases aliases@.len() - k,
    {
        let from = &aliases[k].0;
        let to = &aliases[k].1;
        let ts = targets_of(to);
        let ghost tv = alias_targets(*to);
        proof {
            assert(ts@.len() == tv.len());
            assert forall|t: int| 0 <= t < ts@.len() implies #[trigger] ts@[t]@ == tv[t] by {
                assert(ts@.map_values(|c: Vec<char>| c@)[t] == ts@[t]@);
            }
        }
        let nf = normalize_for_search(from.as_str());
        let mut selected = contains_chars(nf.as_slice(), q.as_slice());
        let mut t: usize = 0;
        while t < ts.len() && !selected
            invariant
                t <= ts@.len(),
                tv == alias_targets(*to),
                ts@.len() == tv.len(),
                forall|t2: int| 0 <= t2 < ts@.len() ==> #[trigger] ts@[t2]@ == tv[t2],
                selected ==> alias_selected(from@, *to, q@),
                !selected ==> !seq_contains(norm(from@), q@) && forall|t2: int| 0 <= t2 < t ==> !seq_contains(norm(#[trigger] tv[t2]), q@),
            decreases ts@.len() - t,
        {
            let s = string_of(ts[t].as_slice());
            let nt = normalize_for_search(s.as_str());
            if contains_chars(nt.as_slice(), q.as_slice()) {
                selected = true;
                proof {
                    assert(seq_contains(norm(alias_targets(*to)[t as int]), q@));
                }
            }
            t += 1;
        }
        let ghost old_r = r@;
        if selected {
            let mut t: usize = 0;
            while t < ts.len()
                invariant
                    t <= ts@.len(),
                    ts@.len() == tv.len(),
                    forall|t2: int| 0 <= t2 < ts@.len() ==> #[trigger] ts@[t2]@ == tv[t2],
                    r@.len() == old_r.len() + t,
                    forall|p: int| 0 <= p < old_r.len() ==> #[trigger] r@[p] == old_r[p],
                    forall|t2: int| 0 <= t2 < t ==> #[trigger] r@[old_r.len() + t2]@ == norm(tv[t2]),
                decreases ts@.len() - t,
            {
                let s = string_of(ts[t].as_slice());
                r.push(normalize_for_search(s.as_str()));
                t += 1;
            }
        }
        proof {
            assert(aliases@[k as int].0 == *from && aliases@[k as int].1 == *to);
            assert forall|e: Seq<char>| #[trigger] listed(r@, e) <==> alias_norm_upto(aliases@, q@, k + 1, e) by {
                if listed(r@, e) {
                    let p = choose|p: int| 0 <= p < r@.len() && #[trigger] r@[p]@ == e;
                    if p >= old_r.len() {
                        let t2 = p - old_r.len();
                        assert(r@[old_r.len() + t2]@ == norm(tv[t2]));
                        assert(norm(alias_targets(aliases@[k as int].1)[t2]) == e);
                    } else {
                        assert(old_r[p]@ == e);
                        assert(listed(old_r, e));
                    }
                }
                if alias_norm_upto(aliases@, q@, k + 1, e) {
                    let (k2, t2) = choose|k2: int, t2: int|
                        #![trigger alias_targets(aliases@[k2].1)[t2]]
                        0 <= k2 < k + 1 && alias_selected(aliases@[k2].0@, aliases@[k2].1, q@) && 0 <= t2
                            < alias_targets(aliases@[k2].1).len() && norm(alias_targets(aliases@[k2].1)[t2]) == e;
                    if k2 == k {
                        assert(r@[old_r.len() + t2]@ == norm(tv[t2]));
                    } else {
                        assert(alias_norm_upto(aliases@, q@, k as int, e));
                        assert(listed(old_r, e));
                        let p = choose|p: int| 0 <= p < old_r.len() && #[trigger] old_r[p]@ == e;
                        assert(r@[p]@ == e);
                    }
                }
            }
        }
        k += 1;
    }
    r
}


/* ---------------------------------- matching --------------------------------- */

/// The texts of a design that search looks at: id, name, url, aliases, tags.
pub open spec fn fields(d: DesignView) -> Seq<Seq<char>> {
    seq![d.id, d.name, d.url] + d.aliases + d.tags
}

/// Some field of the design normalizes to the query.
pub open spec fn exact_match(d: DesignView, q: Seq<char>) -> bool {
    exists|i: int| 0 <= i < fields(d).len() && norm(#[trigger] fields(d)[i]) == q
}

/// Some normalized field of the design contains the query.
pub open spec fn partial_match(d: DesignView, q: Seq<char>) -> bool {
    exists|i: int| 0 <= i < fields(d).len() && seq_contains(norm(#[trigger] fields(d)[i]), q)
}

/// An alias entry that mentions the query points at the design's name, one
/// of its aliases, or its id.
pub open spec fn alias_match(aliases: Seq<(String, Json)>, q: Seq<char>, d: DesignView) -> bool {
    ||| alias_norm(aliases, q, norm(d.name))
    ||| exists|a: int| 0 <= a < d.aliases.len() && alias_norm(aliases, q, norm(#[trigger] d.aliases[a]))
    ||| alias_norm(aliases, q, norm(d.id))
}

/// The design is a search result for the query.
pub open spec fn is_hit(aliases: Seq<(String, Json)>, q: Seq<char>, d: DesignView) -> bool {
    exact_match(d, q) || partial_match(d, q) || alias_match(aliases, q, d)
}

/// The score of a result.
pub open spec fn score_of(aliases: Seq<(String, Json)>, q: Seq<char>, d: DesignView) -> u32 {
    if exact_match(d, q) {
        100
    } else if alias_match(aliases, q, d) {
        80
    } else {
        50
    }
}

/// Why a result matched.
pub open spec fn reason_of(aliases: Seq<(String, Json)>, q: Seq<char>, d: DesignView) -> Seq<char> {
    if exact_match(d, q) {
        "exact"@
    } else if alias_match(aliases, q, d) {
        "alias-map"@
    } else {
        "contains"@
    }
}

/// The texts search looks at, in order.
fn design_fields(d: &CatalogDesign) -> (r: Vec<&String>)
    ensures
        r@.len() == fields(d@).len(),
        forall|i: int| 0 <= i < r@.len() ==> #[trigger] r@[i]@ == fields(d@)[i],
{
    let mut r: Vec<&String> = Vec::new();
    r.push(&d.id);
    r.push(&d.name);
    r.push(&d.url);
    let ghost head: Seq<Seq<char>> = seq![d.id@, d.name@, d.url@];
    let mut i: usize = 0;
    while i < d.aliases.len()
        invariant
            i <= d.aliases@.len(),
            head == seq![d.id@, d.name@, d.url@],
            r@.len() == 3 + i,
            forall|k: int| 0 <= k < r@.len() ==> #[trigger] r@[k]@ == (head + texts(d.aliases@))[k],
        decreases d.aliases@.len() - i,
    {
        r.push(&d.aliases[i]);
        i += 1;
    }
    let mut i: usize = 0;
    while i < d.tags.len()
        invariant
            i <= d.tags@.len(),
            head == seq![d.id@, d.name@, d.url@],
            r@.len() == 3 + d.aliases@.len() + i,
            forall|k: int| 0 <= k < r@.len() ==> #[trigger] r@[k]@ == (head + texts(d.aliases@) + texts(d.tags@))[k],
        decreases d.tags@.len() - i,
    {
        r.push(&d.tags[i]);
        i += 1;
    }
    r
}

/// Whether `e` is the text of an entry of `r`.
fn is_listed(r: &Vec<Vec<char>>, e: &Vec<char>) -> (b: bool)
    ensures
        b == listed(r@, e@),
{
    let mut p: usize = 0;
    while p < r.len()
        invariant
            p <= r@.len(),
            forall|p2: int| 0 <= p2 < p ==> #[trigger] r@[p2]@ != e@,
        decreases r@.len() - p,
    {
        if chars_eq(r[p].as_slice(), e.as_slice()) {
            return true;
        }
        p += 1;
    }
    false
}

/// The score of a design for the query, when it is a result.
fn match_design(d: &CatalogDesign, targets: &Vec<Vec<char>>, Ghost(aliases): Ghost<Seq<(String, Json)>>, q: &Vec<char>) -> (r: Option<u32>)
    requires
        forall|e: Seq<char>| #[trigger] listed(targets@, e) <==> alias_norm(aliases, q@, e),
    ensures
        r == (if is_hit(aliases, q@, d@) {
            Some(score_of(aliases, q@, d@))
        } else {
            None
        }),
{
    let fs = design_fields(d);
    let ghost fv = fields(d@);
    let mut exact = false;
    let mut includes = false;
    let mut i: usize = 0;
    while i < fs.len()
        invariant
            fv == fields(d@),
            fs@.len() == fv.len(),
            forall|k: int| 0 <= k < fs@.len() ==> #[trigger] fs@[k]@ == fv[k],
            i <= fs@.len(),
            exact == exists|k: int| 0 <= k < i && norm(#[trigger] fv[k]) == q@,
            includes == exists|k: int| 0 <= k < i && seq_contains(norm(#[trigger] fv[k]), q@),
        decreases fs@.len() - i,
    {
        let nf = normalize_for_search(fs[i].as_str());
        proof {
            assert(nf@ == norm(fv[i as int]));
        }
        if chars_eq(nf.as_slice(), q.as_slice()) {
            exact = true;
        }
        if contains_chars(nf.as_slice(), q.as_slice()) {
            includes = true;
        }
        i += 1;
    }
    let nn = normalize_for_search(d.name.as_str());
    let mut alias = is_listed(targets, &nn);
    let mut a: usize = 0;
    while a < d.aliases.len() && !alias
        invariant
            a <= d.aliases@.len(),
            forall|e: Seq<char>| #[trigger] listed(targets@, e) <==> alias_norm(aliases, q@, e),
            alias ==> alias_match(aliases, q@, d@),
            !alias ==> !alias_norm(aliases, q@, norm(d.name@)) && forall|a2: int| 0 <= a2 < a ==> !alias_norm(aliases, q@, norm(#[trigger] d@.aliases[a2])),
        decreases d.aliases@.len() - a,
    {
        let na = normalize_for_search(d.aliases[a].as_str());
        if is_listed(targets, &na) {
            alias = true;
            proof {
                assert(alias_norm(aliases, q@, norm(d@.aliases[a as int])));
            }
        }
        a += 1;
    }
    if !alias {
        let ni = normalize_for_search(d.id.as_str());
        alias = is_listed(targets, &ni);
    }
    if exact {
        Some(100)
    } else if alias {
        Some(80)
    } else if includes {
        Some(50)
    } else {
        None
    }
}

/* ---------------------------------- ranking ---------------------------------- */

/// Result order on (score, name, catalog position): higher score first,
/// then name in code point order, then catalog order.
pub open spec fn rank_lt(a: (u32, Seq<char>, int), b: (u32, Seq<char>, int)) -> bool {
    ||| a.0 > b.0
    ||| a.0 == b.0 && seq_lt(a.1, b.1)
    ||| a.0 == b.0 && a.1 == b.1 && a.2 < b.2
}

proof fn lemma_rank_trans(a: (u32, Seq<char>, int), b: (u32, Seq<char>, int), c: (u32, Seq<char>, int))
    requires
        rank_lt(a, b),
        rank_lt(b, c),
    ensures
        rank_lt(a, c),
{
    if a.0 == b.0 && b.0 == c.0 {
        if seq_lt(a.1, b.1) && seq_lt(b.1, c.1) {
            lemma_lt_trans(a.1, b.1, c.1);
        }
    }
}

proof fn lemma_rank_total(a: (u32, Seq<char>, int), b: (u32, Seq<char>, int))
    requires
        a.2 != b.2,
    ensures
        rank_lt(a, b) || rank_lt(b, a),
{
    if a.0 == b.0 && a.1 != b.1 {
        lemma_lt_total(a.1, b.1);
    }
}

/// The ranking key of design `i`.
pub open spec fn rank_key(ds: Seq<DesignView>, aliases: Seq<(String, Json)>, q: Seq<char>, i: int) -> (u32, Seq<char>, int) {
    (score_of(aliases, q, ds[i]), ds[i].name, i)
}

/// `ord` lists, in result order, exactly the designs that are results.
pub open spec fn ranked(ds: Seq<DesignView>, aliases: Seq<(String, Json)>, q: Seq<char>, ord: Seq<int>) -> bool {
    &&& forall|p: int| 0 <= p < ord.len() ==> 0 <= #[trigger] ord[p] < ds.len() && is_hit(aliases, q, ds[ord[p]])
    &&& forall|i: int| 0 <= i < ds.len() && is_hit(aliases, q, #[trigger] ds[i]) ==> ord.contains(i)
    &&& forall|p: int, r: int|
        0 <= p < r < ord.len() ==> rank_lt(rank_key(ds, aliases, q, #[trigger] ord[p]), rank_key(ds, aliases, q, #[trigger] ord[r]))
}


/// Design `a` comes before design `b` among results.
fn ranks_before(designs: &Vec<CatalogDesign>, scores: &Vec<u32>, a: usize, b: usize) -> (r: bool)
    requires
        a < designs@.len(),
        b < designs@.len(),
        a < scores@.len(),
        b < scores@.len(),
    ensures
        r == rank_lt((scores@[a as int], designs@[a as int].name@, a as int), (scores@[b as int], designs@[b as int].name@, b as int)),
{
    if scores[a] != scores[b] {
        return scores[a] > scores[b];
    }
    let na = chars_of(designs[a].name.as_str());
    let nb = chars_of(designs[b].name.as_str());
    if chars_lt(na.as_slice(), nb.as_slice()) {
        return true;
    }
    chars_eq(na.as_slice(), nb.as_slice()) && a < b
}

/// The text of a match reason for a score.
fn reason_text(score: u32) -> (r: String)
    ensures
        r@ == (if score == 100 {
            "exact"@
        } else if score == 80 {
            "alias-map"@
        } else {
            "contains"@
        }),
{
    if score == 100 {
        String::from_str("exact")
    } else if score == 80 {
        String::from_str("alias-map")
    } else {
        String::from_str("contains")
    }
}

/// Searches the catalog by name: every design that matches the query (see
/// the module documentation), best first. An empty query, after trimming,
/// finds nothing.
pub fn search_catalog(catalog: &Catalog, aliases: &Vec<(String, Json)>, query: &str) -> (r: Vec<CatalogMatch>)
    ensures
        norm(query@).len() == 0 ==> r@.len() == 0,
        norm(query@).len() > 0 ==> exists|ord: Seq<int>|
            {
                &&& ranked(design_views(*catalog), aliases@, norm(query@), ord)
                &&& r@.len() == ord.len()
                &&& forall|p: int|
                    0 <= p < ord.len() ==> {
                        let d = design_views(*catalog)[ord[p]];
                        &&& (#[trigger] r@[p]).design@ == d
                        &&& r@[p].score == score_of(aliases@, norm(query@), d)
                        &&& r@[p].match_reason@ == reason_of(aliases@, norm(query@), d)
                    }
            },
{
    let q = normalize_for_search(query);
    if q.len() == 0 {
        return Vec::new();
    }
    let ghost qv = q@;
    let ghost al = aliases@;
    let ghost ds = design_views(*catalog);
    let targets = collect_alias_targets(aliases, &q);
    let designs = &catalog.designs;
    let mut scores: Vec<u32> = Vec::new();
    let mut ord: Vec<usize> = Vec::new();
    let mut i: usize = 0;
    while i < designs.len()
        invariant
            qv == q@,
            al == aliases@,
            ds == design_views(*catalog),
            designs == &catalog.designs,
            ds.len() == designs@.len(),
            forall|e: Seq<char>| #[trigger] listed(targets@, e) <==> alias_norm(al, qv, e),
            i <= designs@.len(),
            scores@.len() == i,
            forall|j: int| 0 <= j < i && is_hit(al, qv, #[trigger] ds[j]) ==> scores@[j] == score_of(al, qv, ds[j]),
            forall|p: int| 0 <= p < ord@.len() ==> (#[trigger] ord@[p]) < i && is_hit(al, qv, ds[ord@[p] as int]),
            forall|j: int| 0 <= j < i && is_hit(al, qv, #[trigger] ds[j]) ==> ord@.contains(j as usize),
            forall|p: int, r: int|
                0 <= p < r < ord@.len() ==> rank_lt(rank_key(ds, al, qv, (#[trigger] ord@[p]) as int), rank_key(ds, al, qv, (#[trigger] ord@[r]) as int)),
        decreases designs@.len() - i,
    {
        let m = match_design(&designs[i], &targets, Ghost(al), &q);
        proof {
            assert(ds[i as int] == designs@[i as int]@);
        }
        match m {
            Some(sc) => {
                scores.push(sc);
                let mut pos: usize = 0;
                while pos < ord.len() && ranks_before(designs, &scores, ord[pos], i)
                    invariant
                        ds == design_views(*catalog),
                        designs == &catalog.designs,
                        ds.len() == designs@.len(),
                        i < designs@.len(),
                        scores@.len() == i + 1,
                        scores@[i as int] == score_of(al, qv, ds[i as int]),
                        forall|j: int| 0 <= j < i && is_hit(al, qv, #[trigger] ds[j]) ==> scores@[j] == score_of(al, qv, ds[j]),
                        forall|p: int| 0 <= p < ord@.len() ==> (#[trigger] ord@[p]) < i && is_hit(al, qv, ds[ord@[p] as int]),
                        pos <= ord@.len(),
                        forall|p: int| 0 <= p < pos ==> rank_lt(rank_key(ds, al, qv, (#[trigger] ord@[p]) as int), rank_key(ds, al, qv, i as int)),
                    decreases ord@.len() - pos,
                {
                    proof {
                        let o = ord@[pos as int] as int;
                        assert(ds[o] == designs@[o]@);
                        assert(ds[i as int] == designs@[i as int]@);
                    }
                    pos += 1;
                }
                proof {
                    if pos < ord@.len() {
                        let o = ord@[pos as int] as int;
                        assert(ds[o] == designs@[o]@);
                        assert(!rank_lt(rank_key(ds, al, qv, o), rank_key(ds, al, qv, i as int)));
                        lemma_rank_total(rank_key(ds, al, qv, o), rank_key(ds, al, qv, i as int));
                    }
                }
                let ghost old_ord = ord@;
                ord.insert(pos, i);
                proof {
                    old_ord.insert_ensures(pos as int, i);
                    let ki = rank_key(ds, al, qv, i as int);
                    assert forall|p: int, r: int| 0 <= p < r < ord@.len() implies rank_lt(
                        rank_key(ds, al, qv, (#[trigger] ord@[p]) as int),
                        rank_key(ds, al, qv, (#[trigger] ord@[r]) as int),
                    ) by {
                        if r < pos {
                            assert(ord@[p] == old_ord[p] && ord@[r] == old_ord[r]);
                        } else if r == pos {
                            assert(ord@[p] == old_ord[p]);
                        } else if p > pos {
                            assert(ord@[p] == old_ord[p - 1] && ord@[r] == old_ord[r - 1]);
                        } else if p == pos {
                            assert(ord@[r] == old_ord[r - 1]);
                            if r - 1 > pos {
                                lemma_rank_trans(ki, rank_key(ds, al, qv, old_ord[pos as int] as int), rank_key(ds, al, qv, old_ord[r - 1] as int));
                            }
                        } else {
                            assert(ord@[p] == old_ord[p] && ord@[r] == old_ord[r - 1]);
                            if r - 1 > pos {
                                lemma_rank_trans(ki, rank_key(ds, al, qv, old_ord[pos as int] as int), rank_key(ds, al, qv, old_ord[r - 1] as int));
                            }
                            lemma_rank_trans(rank_key(ds, al, qv, old_ord[p] as int), ki, rank_key(ds, al, qv, old_ord[r - 1] as int));
                        }
                    }
                    assert forall|p: int| 0 <= p < ord@.len() implies (#[trigger] ord@[p]) < i + 1 && is_hit(al, qv, ds[ord@[p] as int]) by {
                        if p < pos {
                            assert(ord@[p] == old_ord[p]);
                        } else if p > pos {
                            assert(ord@[p] == old_ord[p - 1]);
                        }
                    }
                    assert forall|j: int| 0 <= j < i + 1 && is_hit(al, qv, #[trigger] ds[j]) implies ord@.contains(j as usize) by {
                        if j == i {
                            assert(ord@[pos as int] == i);
                        } else {
                            assert(old_ord.contains(j as usize));
                            let p = choose|p: int| 0 <= p < old_ord.len() && old_ord[p] == j as usize;
                            if p < pos {
                                assert(ord@[p] == j as usize);
                            } else {
                                assert(ord@[p + 1] == j as usize);
                            }
                        }
                    }
                }
            },
            None => {
                scores.push(0);
            },
        }
        i += 1;
    }
    let mut r: Vec<CatalogMatch> = Vec::new();
    let mut p: usize = 0;
    while p < ord.len()
        invariant
            qv == q@,
            al == aliases@,
            ds == design_views(*catalog),
            designs == &catalog.designs,
            ds.len() == designs@.len(),
            scores@.len() == designs@.len(),
            forall|j: int| 0 <= j < ds.len() && is_hit(al, qv, #[trigger] ds[j]) ==> scores@[j] == score_of(al, qv, ds[j]),
            forall|p2: int| 0 <= p2 < ord@.len() ==> (#[trigger] ord@[p2]) < ds.len() && is_hit(al, qv, ds[ord@[p2] as int]),
            p <= ord@.len(),
            r@.len() == p,
            forall|p2: int|
                0 <= p2 < p ==> {
                    let d = ds[ord@[p2] as int];
                    &&& (#[trigger] r@[p2]).design@ == d
                    &&& r@[p2].score == score_of(al, qv, d)
                    &&& r@[p2].match_reason@ == reason_of(al, qv, d)
                },
        decreases ord@.len() - p,
    {
        let k = ord[p];
        let sc = scores[k];
        proof {
            assert(ds[k as int] == designs@[k as int]@);
        }
        let m = CatalogMatch { design: design_summary(&designs[k]), score: sc, match_reason: reason_text(sc) };
        r.push(m);
        p += 1;
    }
    proof {
        let ordi: Seq<int> = ord@.map_values(|x: usize| x as int);
        assert forall|j: int| 0 <= j < ds.len() && is_hit(al, qv, #[trigger] ds[j]) implies ordi.contains(j) by {
            assert(ord@.contains(j as usize));
            let p2 = choose|p2: int| 0 <= p2 < ord@.len() && ord@[p2] == j as usize;
            assert(ordi[p2] == j);
        }
        assert(ranked(ds, al, qv, ordi));
    }
    r
}


/* --------------------------------- workspace ---------------------------------- */

/// Why a workspace directory was refused.
#[derive(Debug, Clone, Copy, PartialEq, Eq)]
pub enum WorkspaceError {
    /// The path is not absolute.
    NotAbsolute,
    /// The path does not name an existing directory.
    Missing,
}

impl WorkspaceError {
    /// The message reported for a refused directory `dir`.
    pub fn message(&self, dir: &str) -> (r: String)
        ensures
            r@ == (match *self {
                WorkspaceError::NotAbsolute => "workspaceDir must be an absolute path to the real frontend project root."@,
                WorkspaceError::Missing => "workspaceDir \""@ + dir@ + "\" does not exist; create the frontend project root first."@,
            }),
    {
        match self {
            WorkspaceError::NotAbsolute => String::from_str("workspaceDir must be an absolute path to the real frontend project root."),
            WorkspaceError::Missing => {
                let mut m = String::from_str("workspaceDir \"");
                m.append(dir);
                m.append("\" does not exist; create the frontend project root first.");
                m
            },
        }
    }
}

/// A path that no platform takes as absolute: it does not start with `/`
/// or `\` and holds no `:` (the empty path among them).
pub open spec fn plainly_relative(dir: Seq<char>) -> bool {
    &&& !(dir.len() > 0 && (dir[0] == '/' || dir[0] == '\\'))
    &&& !dir.contains(':')
}

/// `Path::is_absolute`: whether `dir` is an absolute path on this platform.
/// Stated: a plainly relative path is not absolute. On Unix an absolute path
/// starts with the root `/`; on Windows it has a prefix (a drive `C:`, or
/// one of the `\\`-led verbatim, device and UNC forms) and a root. Left
/// unsaid: the result on other paths, which follows the platform's rules.
#[verifier::external_body]
fn path_is_absolute(dir: &str) -> (r: bool)
    ensures
        plainly_relative(dir@) ==> !r,
{
    std::path::Path::new(dir).is_absolute()
}

/// `Path::is_dir`: whether `dir` names an existing directory. Nothing is
/// stated of the result: it depends on the file system.
#[verifier::external_body]
fn path_is_dir(dir: &str) -> bool {
    std::path::Path::new(dir).is_dir()
}

/// The verdict on a workspace directory `dir`, given whether its path is
/// absolute and whether it names an existing directory: the directory
/// itself, or the first reason to refuse it.
pub open spec fn verdict_spec(dir: Seq<char>, absolute: bool, is_dir: bool) -> Result<Seq<char>, WorkspaceError> {
    if !absolute {
        Err(WorkspaceError::NotAbsolute)
    } else if !is_dir {
        Err(WorkspaceError::Missing)
    } else {
        Ok(dir)
    }
}

/// The text view of a workspace verdict.
pub open spec fn verdict_view(r: Result<String, WorkspaceError>) -> Result<Seq<char>, WorkspaceError> {
    match r {
        Ok(s) => Ok(s@),
        Err(e) => Err(e),
    }
}

/// The verdict on a workspace directory, given whether its path is absolute
/// and whether it names an existing directory: the directory itself, or
/// the first reason to refuse it.
pub fn workspace_verdict(dir: &str, absolute: bool, is_dir: bool) -> (r: Result<String, WorkspaceError>)
    ensures
        verdict_view(r) == verdict_spec(dir@, absolute, is_dir),
        !absolute ==> r == Err::<String, WorkspaceError>(WorkspaceError::NotAbsolute),
        absolute && !is_dir ==> r == Err::<String, WorkspaceError>(WorkspaceError::Missing),
        absolute && is_dir ==> r is Ok && r->Ok_0@ == dir@,
{
    if !absolute {
        Err(WorkspaceError::NotAbsolute)
    } else if !is_dir {
        Err(WorkspaceError::Missing)
    } else {
        Ok(String::from_str(dir))
    }
}

/// Basic workspace validation: the path must be absolute and name an
/// existing directory. The result is the verdict (see `verdict_spec`) on
/// what the platform answers for `dir`: whether it is absolute and, when it
/// is, whether it names a directory. On success the directory is returned
/// as given; a plainly relative path is refused as not absolute.
pub fn resolve_workspace_dir(dir: &str) -> (r: Result<String, WorkspaceError>)
    ensures
        exists|absolute: bool, is_dir: bool| verdict_view(r) == verdict_spec(dir@, absolute, is_dir),
        r is Ok ==> r->Ok_0@ == dir@,
        plainly_relative(dir@) ==> r == Err::<String, WorkspaceError>(WorkspaceError::NotAbsolute),
{
    let absolute = path_is_absolute(dir);
    if !absolute {
        return workspace_verdict(dir, false, false);
    }
    let is_dir = path_is_dir(dir);
    workspace_verdict(dir, true, is_dir)
}


/* ------------------------------- picking a match -------------------------------- */

/// The outcome of resolving one design by name.
#[derive(Debug, Clone, Copy, PartialEq, Eq)]
pub enum Selection {
    /// The match at this position is the design.
    Selected(usize),
    /// Nothing matched.
    NotFound,
    /// Several designs match and no single one exactly.
    Ambiguous,
}

/// Match `i` is the only exact one (score 100).
pub open spec fn unique_exact(sc: Seq<u32>, i: int) -> bool {
    &&& 0 <= i < sc.len()
    &&& sc[i] == 100
    &&& forall|j: int| 0 <= j < sc.len() && j != i ==> sc[j] != 100
}

/// No match is exact.
pub open spec fn no_exact(sc: Seq<u32>) -> bool {
    forall|j: int| 0 <= j < sc.len() ==> sc[j] != 100
}

/// Resolves one design from the matches of its name: the single exact
/// match; else, with no exact match, the only match; else not found (no
/// match) or ambiguous.
pub fn select_match(matches: &Vec<CatalogMatch>) -> (r: Selection)
    ensures
        ({
            let sc = matches@.map_values(|m: CatalogMatch| m.score);
            match r {
                Selection::Selected(i) => unique_exact(sc, i as int) || (no_exact(sc) && sc.len() == 1 && i == 0),
                Selection::NotFound => sc.len() == 0,
                Selection::Ambiguous => sc.len() > 0 && !(no_exact(sc) && sc.len() == 1) && forall|i: int|
                    !unique_exact(sc, i),
            }
        }),
{
    let ghost sc = matches@.map_values(|m: CatalogMatch| m.score);
    let mut first: usize = 0;
    let mut count: usize = 0;
    let mut k: usize = 0;
    while k < matches.len()
        invariant
            sc == matches@.map_values(|m: CatalogMatch| m.score),
            k <= matches@.len(),
            count <= k,
            count == 0 ==> forall|j: int| 0 <= j < k ==> sc[j] != 100,
            count >= 1 ==> first < k && sc[first as int] == 100 && forall|j: int| 0 <= j < first ==> sc[j] != 100,
            count == 1 ==> forall|j: int| 0 <= j < k && j != first ==> sc[j] != 100,
            count >= 2 ==> exists|j: int| 0 <= j < k && j != first && sc[j] == 100,
        decreases matches@.len() - k,
    {
        let ghost old_count = count;
        proof {
            assert(sc[k as int] == matches@[k as int].score);
        }
        if matches[k].score == 100 {
            if count == 0 {
                first = k;
            }
            count += 1;
            proof {
                if old_count >= 1 {
                    assert(k != first && sc[k as int] == 100);
                }
            }
        }
        k += 1;
    }
    if count == 1 {
        return Selection::Selected(first);
    }
    if count == 0 && matches.len() == 1 {
        return Selection::Selected(0);
    }
    if matches.len() == 0 {
        return Selection::NotFound;
    }
    proof {
        assert forall|i: int| !unique_exact(sc, i) by {
            if unique_exact(sc, i) {
                if count >= 2 {
                    let j = choose|j: int| 0 <= j < sc.len() && j != first && sc[j] == 100;
                    assert(j == i);
                    assert(first as int == i);
                }
            }
        }
    }
    Selection::Ambiguous
}

/* ----------------------------------- syncing ----------------------------------- */

/// The node types a sync keeps: the ones asked for, lowercased, else
/// `design`.
pub open spec fn include_types_spec(types: Option<Seq<Seq<char>>>) -> Seq<Seq<char>> {
    match types {
        Some(ts) => ts.map_values(|t: Seq<char>| lowercase(t)),
        None => seq!["design"@],
    }
}

/// The node types a sync keeps (see `include_types_spec`).
pub fn include_types(types: &Option<Vec<String>>) -> (r: Vec<String>)
    ensures
        texts(r@) == include_types_spec(match *types {
            Some(ts) => Some(texts(ts@)),
            None => None,
        }),
{
    match types {
        Some(ts) => {
            let mut r: Vec<String> = Vec::new();
            let mut i: usize = 0;
            while i < ts.len()
                invariant
                    i <= ts@.len(),
                    texts(r@) == texts(ts@).subrange(0, i as int).map_values(|t: Seq<char>| lowercase(t)),
                decreases ts@.len() - i,
            {
                let ghost before = texts(r@);
                r.push(to_lower(ts[i].as_str()));
                proof {
                    assert(texts(r@) =~= before.push(lowercase(ts@[i as int]@)));
                    assert(texts(ts@).subrange(0, i + 1).map_values(|t: Seq<char>| lowercase(t)) =~= texts(ts@).subrange(
                        0,
                        i as int,
                    ).map_values(|t: Seq<char>| lowercase(t)).push(lowercase(ts@[i as int]@)));
                }
                i += 1;
            }
            proof {
                assert(texts(ts@).subrange(0, ts@.len() as int) =~= texts(ts@));
            }
            r
        },
        None => {
            let mut r: Vec<String> = Vec::new();
            r.push(String::from_str("design"));
            proof {
                assert(texts(r@) =~= seq!["design"@]);
            }
            r
        },
    }
}

pub open spec fn source_views(s: Seq<CatalogSource>) -> Seq<(Seq<char>, Seq<char>, Seq<char>)> {
    s.map_values(|x: CatalogSource| (x.name@, x.url@, x.last_synced_at@))
}

/// The sources of a synced catalog: the previous ones from other URLs, in
/// order, then this sync's source.
pub open spec fn synced_sources(prev: Seq<CatalogSource>, name: Seq<char>, url: Seq<char>, now: Seq<char>) -> Seq<
    (Seq<char>, Seq<char>, Seq<char>),
> {
    source_views(prev).filter(|x: (Seq<char>, Seq<char>, Seq<char>)| x.1 != url).push((name, url, now))
}

/// Records a sync in a catalog: the designs are replaced, the source of
/// `url` is moved to the end with its new time (named `name`, or "Moonvy
/// Project"), and the catalog is stamped with `now` as version 1.
pub fn record_sync(catalog: &mut Catalog, designs: Vec<CatalogDesign>, name: Option<&str>, url: &str, now: &str)
    ensures
        final(catalog).version == 1,
        opt_text_of(final(catalog).updated_at) == Some(now@),
        final(catalog).designs@ == designs@,
        source_views(final(catalog).sources@) == synced_sources(old(catalog).sources@, match name {
            Some(n) => n@,
            None => "Moonvy Project"@,
        }, url@, now@),
{
    let ghost prev = source_views(catalog.sources@);
    let mut kept: Vec<CatalogSource> = Vec::new();
    let mut i: usize = 0;
    let u = chars_of(url);
    while i < catalog.sources.len()
        invariant
            prev == source_views(catalog.sources@),
            u@ == url@,
            i <= catalog.sources@.len(),
            source_views(kept@) == prev.subrange(0, i as int).filter(|x: (Seq<char>, Seq<char>, Seq<char>)| x.1 != url@),
        decreases catalog.sources@.len() - i,
    {
        let src = &catalog.sources[i];
        let ghost before = source_views(kept@);
        proof {
            assert(prev.subrange(0, i + 1).drop_last() =~= prev.subrange(0, i as int));
            assert(prev.subrange(0, i + 1).last() == (src.name@, src.url@, src.last_synced_at@));
            prev.subrange(0, i as int).lemma_filter_push(
                (src.name@, src.url@, src.last_synced_at@),
                |x: (Seq<char>, Seq<char>, Seq<char>)| x.1 != url@,
            );
            assert(prev.subrange(0, i + 1) =~= prev.subrange(0, i as int).push((src.name@, src.url@, src.last_synced_at@)));
        }
        let sc = chars_of(src.url.as_str());
        if !chars_eq(sc.as_slice(), u.as_slice()) {
            kept.push(CatalogSource { name: src.name.clone(), url: src.url.clone(), last_synced_at: src.last_synced_at.clone() });
            proof {
                assert(source_views(kept@) =~= before.push((src.name@, src.url@, src.last_synced_at@)));
            }
        }
        i += 1;
    }
    proof {
        assert(prev.subrange(0, catalog.sources@.len() as int) =~= prev);
    }
    let name = match name {
        Some(n) => String::from_str(n),
        None => String::from_str("Moonvy Project"),
    };
    let ghost before = source_views(kept@);
    kept.push(CatalogSource { name, url: String::from_str(url), last_synced_at: String::from_str(now) });
    proof {
        assert(source_views(kept@) =~= before.push((name@, url@, now@)));
    }
    catalog.sources = kept;
    catalog.updated_at = Some(String::from_str(now));
    catalog.version = 1;
    catalog.designs = designs;
}

/// Text of an optional string.
pub open spec fn opt_text_of(o: Option<String>) -> Option<Seq<char>> {
    match o {
        Some(s) => Some(s@),
        None => None,
    }
}

} // verus!
