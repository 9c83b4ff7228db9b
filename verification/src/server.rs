//! Tool inputs of the MCP server, their defaults, and the list of known
//! workspaces.

use vstd::prelude::*;
use crate::catalog::texts;
use crate::genome::TextContent;
use crate::text::{chars_of, chars_lt, chars_eq, lemma_lt_total, lemma_lt_trans, seq_lt, string_of, trim_chars, trim_seq};

verus! {

/* --------------------------------- defaults ---------------------------------- */

/// Default maximum child depth of a tree.
pub fn default_max_depth() -> (r: usize)
    ensures
        r == 99,
{
    99
}

/// Default number of listed pages.
pub fn default_limit_500() -> (r: u32)
    ensures
        r == 500,
{
    500
}

/// Default number of API pages scanned.
pub fn default_max_pages_50() -> (r: u32)
    ensures
        r == 50,
{
    50
}

/// Default number of layers or matches.
pub fn default_limit_50() -> (r: u32)
    ensures
        r == 50,
{
    50
}

/// Default number of catalog matches.
pub fn default_limit_20() -> (r: u32)
    ensures
        r == 20,
{
    20
}

/// Default for switches that are on unless turned off.
pub fn default_true() -> (r: bool)
    ensures
        r,
{
    true
}

/// Default login wait, in milliseconds.
pub fn default_timeout_300000() -> (r: u64)
    ensures
        r == 300_000,
{
    300_000
}

/* -------------------------------- tool inputs -------------------------------- */

/// Input of `moonvy_get_design`.
#[derive(Debug)]
pub struct GetDesignRequest {
    /// Moonvy design URL
    pub url: String,
}

/// Input of `moonvy_extract_tokens`.
#[derive(Debug)]
pub struct GetTokensRequest {
    /// Moonvy design URL
    pub url: String,
}

/// Input of `moonvy_list_pages`.
#[derive(Debug)]
pub struct ListPagesRequest {
    /// Moonvy project URL
    pub url: String,
    /// Maximum pages/files to return
    pub limit: u32,
    /// Maximum API pages to scan
    pub max_pages: u32,
}

/// Input of `moonvy_list_layers`.
#[derive(Debug)]
pub struct ListLayersRequest {
    /// Moonvy design URL
    pub url: String,
    /// Optional frame/page ID filter
    pub frame: Option<String>,
    /// Maximum layers to return
    pub limit: u32,
}

/// Input of `moonvy_find_node`.
#[derive(Debug)]
pub struct FindNodeRequest {
    /// Moonvy design URL
    pub url: String,
    /// Case-insensitive substring to match against node names and text
    pub query: String,
    /// Optional frame/page ID filter
    pub frame: Option<String>,
    /// Maximum matches to return
    pub limit: u32,
}

/// Input of `moonvy_get_asset_url`.
#[derive(Debug)]
pub struct AssetUrlRequest {
    /// Moonvy design or project URL
    pub url: String,
    /// Moonvy node ID or file UUID
    pub node: String,
    /// Asset type: slice, snapshot, or image (autodetected)
    pub asset_type: Option<String>,
    /// Slice format/ratio: svg, base, max
    pub slice_format: Option<String>,
}

/// Input of `moonvy_get_node_style`.
#[derive(Debug)]
pub struct NodeStyleRequest {
    /// Moonvy design URL
    pub url: String,
    /// Moonvy node ID
    pub node: String,
}

/// Input of `moonvy_get_design_context`.
#[derive(Debug)]
pub struct ContextRequest {
    /// Moonvy design URL (design file or project directory URL)
    pub url: String,
    /// Maximum child depth for the layer tree
    pub max_depth: usize,
    /// Drop empty container groups and lift their children up
    pub skip_empty_groups: bool,
    /// Emit coordinates relative to the artboard origin (on by default)
    pub flatten: bool,
    /// Keep only nodes of these types
    pub only: Option<Vec<String>>,
    /// Annotate nodes whose content repeats an earlier node with duplicateOf
    pub detect_duplicates: bool,
    /// Collapse duplicate instances into position stubs
    pub deduplicate: bool,
    /// Text payload in the tree: truncate (40 chars, default), full, or none
    pub text_content: Option<TextContent>,
    /// Export only the subtree rooted at this node id
    pub node_id: Option<String>,
    /// Include the deduplicated asset manifest
    pub include_assets: bool,
}

/// Input of `moonvy_download_asset`.
#[derive(Debug)]
pub struct DownloadAssetRequest {
    /// Moonvy design or project URL
    pub url: String,
    /// Moonvy node ID or file UUID
    pub node: String,
    /// Asset type: slice, snapshot, or image (autodetected)
    pub asset_type: Option<String>,
    /// Slice format/ratio: svg, base, max
    pub slice_format: Option<String>,
    /// Custom name for the downloaded file
    pub name: Option<String>,
    /// Absolute output directory or file path
    pub out: Option<String>,
    /// Crop the downloaded snapshot to the node's own area
    pub crop: bool,
}

/// Input of `moonvy_sync_project`.
#[derive(Debug)]
pub struct SyncProjectRequest {
    /// Moonvy project URL
    pub project_url: String,
    /// Absolute path to the real frontend project root
    pub workspace_dir: String,
    /// Optional display name for this Moonvy source
    pub name: Option<String>,
    /// Node types to include in catalog (defaults to ["design"])
    pub types: Option<Vec<String>>,
    /// Maximum pages/files to return
    pub limit: u32,
    /// Maximum API pages to scan
    pub max_pages: u32,
}

/// Input of `moonvy_search_designs`.
#[derive(Debug)]
pub struct SearchDesignsRequest {
    /// Design name, alias, tag, URL, ID, or frontend file path
    pub query: String,
    /// Absolute path to the frontend project root
    pub workspace_dir: String,
    /// Maximum matches to return
    pub limit: u32,
}

/// Input of `moonvy_get_tree_by_name`.
#[derive(Debug)]
pub struct TreeByNameRequest {
    /// Design name, alias, tag, URL, ID, or frontend file path
    pub name: String,
    /// Absolute path to the frontend project root
    pub workspace_dir: String,
    /// Optional frame/page ID filter
    pub frame: Option<String>,
    /// Include normalized style data
    pub with_style: bool,
    /// Maximum child depth
    pub max_depth: usize,
    /// Drop empty container groups and lift their children up
    pub skip_empty_groups: bool,
    /// Emit coordinates relative to the artboard origin
    pub flatten: bool,
    /// Keep only nodes of these types (children filtered recursively)
    pub only: Option<Vec<String>>,
    /// Annotate nodes whose content repeats an earlier node with duplicateOf
    pub detect_duplicates: bool,
    /// Collapse duplicate instances into position stubs
    pub deduplicate: bool,
    /// Text payload in the tree: truncate (40 chars, default), full, or none
    pub text_content: Option<TextContent>,
    /// Export only the subtree rooted at this node id
    pub node_id: Option<String>,
}

/// Input of `moonvy_diff_designs`.
#[derive(Debug)]
pub struct DiffDesignsRequest {
    /// First Moonvy design URL (e.g. the normal state)
    pub url_a: String,
    /// Second Moonvy design URL (e.g. the hover state)
    pub url_b: String,
    /// Optional frame/page ID filter applied to both designs
    pub frame: Option<String>,
    /// Include style in the comparison
    pub with_style: bool,
    /// Drop empty container groups before comparing
    pub skip_empty_groups: bool,
    /// Compare absolute coordinates (on by default)
    pub flatten: bool,
    /// Keep only nodes of these types before comparing
    pub only: Option<Vec<String>>,
    /// Include before/after snapshots on changed nodes
    pub with_snapshots: bool,
}

/// Input of `moonvy_get_style_code`.
#[derive(Debug)]
pub struct StyleCodeRequest {
    /// Moonvy design URL
    pub url: String,
    /// Export only the subtree rooted at this node id
    pub node_id: Option<String>,
    /// Optional frame/page ID filter
    pub frame: Option<String>,
    /// Output format: "css" or "tailwind" (default: css)
    pub format: Option<String>,
}

/// Input of `moonvy_set_token`.
#[derive(Debug)]
pub struct SetTokenRequest {
    /// Moonvy JWT token from a logged-in browser session
    pub token: String,
}

/// Input of `moonvy_login`.
#[derive(Debug)]
pub struct LoginRequest {
    /// Maximum time to wait for the user to complete login (ms)
    pub timeout_ms: u64,
}


/* ----------------------------- known workspaces ------------------------------ */

/// Separators of a workspace list.
pub open spec fn is_list_sep(c: char) -> bool {
    c == ';' || c == '|'
}

/// The pieces of `s` between separators (empty pieces kept).
pub open spec fn split_list(s: Seq<char>) -> Seq<Seq<char>>
    decreases s.len(),
{
    if s.len() == 0 {
        seq![Seq::<char>::empty()]
    } else {
        let rest = split_list(s.drop_last());
        if is_list_sep(s.last()) {
            rest.push(Seq::<char>::empty())
        } else {
            rest.update(rest.len() - 1, rest.last().push(s.last()))
        }
    }
}

proof fn lemma_split_list_nonempty(s: Seq<char>)
    ensures
        split_list(s).len() >= 1,
    decreases s.len(),
{
    if s.len() > 0 {
        lemma_split_list_nonempty(s.drop_last());
    }
}

/// `x` is a workspace named in `vals`: a non-empty trimmed piece of one of
/// the values.
pub open spec fn names_workspace(vals: Seq<Seq<char>>, x: Seq<char>) -> bool {
    exists|i: int, k: int|
        #![trigger split_list(vals[i])[k]]
        0 <= i < vals.len() && 0 <= k < split_list(vals[i]).len() && trim_seq(split_list(vals[i])[k]) == x
            && x.len() > 0
}

/// `x` is the text of an entry of `r`.
pub open spec fn held(r: Seq<Vec<char>>, x: Seq<char>) -> bool {
    exists|p: int| 0 <= p < r.len() && #[trigger] r[p]@ == x
}

/// The entries of `r` are strictly increasing.
pub open spec fn strictly_sorted(r: Seq<Vec<char>>) -> bool {
    forall|p: int, q: int| 0 <= p < q < r.len() ==> seq_lt(#[trigger] r[p]@, #[trigger] r[q]@)
}

/// `x` is the text of an entry of `r`.
pub open spec fn lists(r: Seq<String>, x: Seq<char>) -> bool {
    exists|p: int| 0 <= p < r.len() && #[trigger] r[p]@ == x
}

/// Adds `x` to a strictly sorted list, unless it is there already.
fn insert_unique(r: &mut Vec<Vec<char>>, x: Vec<char>)
    requires
        strictly_sorted(old(r)@),
    ensures
        strictly_sorted(final(r)@),
        forall|y: Seq<char>| #[trigger] held(final(r)@, y) <==> (held(old(r)@, y) || y == x@),
{
    let mut pos: usize = 0;
    while pos < r.len() && chars_lt(r[pos].as_slice(), x.as_slice())
        invariant
            pos <= r@.len(),
            forall|p: int| 0 <= p < pos ==> seq_lt(#[trigger] r@[p]@, x@),
        decreases r@.len() - pos,
    {
        pos += 1;
    }
    if pos < r.len() && chars_eq(r[pos].as_slice(), x.as_slice()) {
        return;
    }
    proof {
        if pos < r@.len() {
            lemma_lt_total(r@[pos as int]@, x@);
        }
    }
    let ghost old_r = r@;
    r.insert(pos, x);
    proof {
        old_r.insert_ensures(pos as int, x);
        assert forall|p: int, q: int| 0 <= p < q < r@.len() implies seq_lt(#[trigger] r@[p]@, #[trigger] r@[q]@) by {
            if q < pos {
                assert(r@[p] == old_r[p] && r@[q] == old_r[q]);
            } else if q == pos {
                assert(r@[p] == old_r[p]);
            } else if p > pos {
                assert(r@[p] == old_r[p - 1] && r@[q] == old_r[q - 1]);
            } else if p == pos {
                assert(r@[q] == old_r[q - 1]);
                if q - 1 > pos {
                    lemma_lt_trans(x@, old_r[pos as int]@, old_r[q - 1]@);
                }
            } else {
                assert(r@[p] == old_r[p] && r@[q] == old_r[q - 1]);
                if q - 1 > pos {
                    lemma_lt_trans(x@, old_r[pos as int]@, old_r[q - 1]@);
                }
                lemma_lt_trans(old_r[p]@, x@, old_r[q - 1]@);
            }
        }
        assert forall|y: Seq<char>| #[trigger] held(r@, y) <==> (held(old_r, y) || y == x@) by {
            if held(r@, y) {
                let p = choose|p: int| 0 <= p < r@.len() && #[trigger] r@[p]@ == y;
                if p < pos {
                    assert(old_r[p]@ == y);
                } else if p > pos {
                    assert(old_r[p - 1]@ == y);
                }
            }
            if held(old_r, y) {
                let p = choose|p: int| 0 <= p < old_r.len() && #[trigger] old_r[p]@ == y;
                if p < pos {
                    assert(r@[p]@ == y);
                } else {
                    assert(r@[p + 1]@ == y);
                }
            }
            if y == x@ {
                assert(r@[pos as int]@ == y);
            }
        }
    }
}

/// The workspaces named by a list of settings (each a list separated by
/// `;` or `|`): every non-empty trimmed piece, sorted, without duplicates.
pub fn workspaces_from(values: &Vec<String>) -> (r: Vec<String>)
    ensures
        forall|p: int, q: int| 0 <= p < q < r@.len() ==> seq_lt(#[trigger] r@[p]@, #[trigger] r@[q]@),
        forall|x: Seq<char>|
            #![trigger lists(r@, x)]
            #![trigger names_workspace(texts(values@), x)]
            lists(r@, x) <==> names_workspace(texts(values@), x),
{
    let ghost vals = texts(values@);
    let mut set: Vec<Vec<char>> = Vec::new();
    let mut i: usize = 0;
    while i < values.len()
        invariant
            vals == texts(values@),
            i <= values@.len(),
            strictly_sorted(set@),
            forall|x: Seq<char>| #[trigger] held(set@, x) <==> names_workspace(vals.subrange(0, i as int), x),
        decreases values@.len() - i,
    {
        let cs = chars_of(values[i].as_str());
        let ghost v = vals[i as int];
        let mut cur: Vec<char> = Vec::new();
        let mut j: usize = 0;
        proof {
            assert(v.subrange(0, 0) =~= Seq::<char>::empty());
            assert(split_list(v.subrange(0, 0)) == seq![Seq::<char>::empty()]);
        }
        while j < cs.len()
            invariant
                vals == texts(values@),
                i < values@.len(),
                v == vals[i as int],
                cs@ == v,
                j <= cs@.len(),
                split_list(v.subrange(0, j as int)).len() >= 1,
                cur@ == split_list(v.subrange(0, j as int)).last(),
                strictly_sorted(set@),
                forall|x: Seq<char>| #[trigger] held(set@, x) <==> (names_workspace(vals.subrange(0, i as int), x) || exists|k: int|
                    0 <= k < split_list(v.subrange(0, j as int)).len() - 1 && trim_seq(#[trigger] split_list(v.subrange(0, j as int))[k]) == x
                        && x.len() > 0),
            decreases cs@.len() - j,
        {
            let c = cs[j];
            let ghost before = split_list(v.subrange(0, j as int));
            proof {
                assert(v.subrange(0, j + 1).drop_last() =~= v.subrange(0, j as int));
                assert(v.subrange(0, j + 1).last() == c);
            }
            let ghost old_set = set@;
            if c == ';' || c == '|' {
                let t = trim_chars(cur.as_slice());
                if t.len() > 0 {
                    insert_unique(&mut set, t);
                }
                cur = Vec::new();
                proof {
                    let after = split_list(v.subrange(0, j + 1));
                    assert(after == before.push(Seq::<char>::empty()));
                    assert forall|x: Seq<char>| #[trigger] held(set@, x) <==> (names_workspace(vals.subrange(0, i as int), x) || exists|k: int|
                        0 <= k < after.len() - 1 && trim_seq(#[trigger] after[k]) == x && x.len() > 0) by {
                        if exists|k: int| 0 <= k < after.len() - 1 && trim_seq(#[trigger] after[k]) == x && x.len() > 0 {
                            let k = choose|k: int| 0 <= k < after.len() - 1 && trim_seq(#[trigger] after[k]) == x && x.len() > 0;
                            if k < before.len() - 1 {
                                assert(after[k] == before[k]);
                                assert(held(old_set, x));
                            } else {
                                assert(after[k] == before.last());
                            }
                        }
                        if held(old_set, x) && !names_workspace(vals.subrange(0, i as int), x) {
                            let k = choose|k: int| 0 <= k < before.len() - 1 && trim_seq(#[trigger] before[k]) == x && x.len() > 0;
                            assert(after[k] == before[k]);
                        }
                        if t@.len() > 0 && x == t@ {
                            assert(after[before.len() - 1] == before.last());
                        }
                    }
                }
            } else {
                cur.push(c);
                proof {
                    let after = split_list(v.subrange(0, j + 1));
                    assert(after == before.update(before.len() - 1, before.last().push(c)));
                    assert forall|x: Seq<char>| #[trigger] held(set@, x) <==> (names_workspace(vals.subrange(0, i as int), x) || exists|k: int|
                        0 <= k < after.len() - 1 && trim_seq(#[trigger] after[k]) == x && x.len() > 0) by {
                        if exists|k: int| 0 <= k < after.len() - 1 && trim_seq(#[trigger] after[k]) == x && x.len() > 0 {
                            let k = choose|k: int| 0 <= k < after.len() - 1 && trim_seq(#[trigger] after[k]) == x && x.len() > 0;
                            assert(after[k] == before[k]);
                        }
                        if held(set@, x) && !names_workspace(vals.subrange(0, i as int), x) {
                            let k = choose|k: int| 0 <= k < before.len() - 1 && trim_seq(#[trigger] before[k]) == x && x.len() > 0;
                            assert(after[k] == before[k]);
                        }
                    }
                }
            }
            proof {
                lemma_split_list_nonempty(v.subrange(0, j + 1));
            }
            j += 1;
        }
        let ghost old_set = set@;
        let t = trim_chars(cur.as_slice());
        if t.len() > 0 {
            insert_unique(&mut set, t);
        }
        proof {
            assert(v.subrange(0, cs@.len() as int) =~= v);
            let sl = split_list(v);
            assert(vals.subrange(0, i + 1).drop_last() =~= vals.subrange(0, i as int));
            assert forall|x: Seq<char>| #[trigger] held(set@, x) <==> names_workspace(vals.subrange(0, i + 1), x) by {
                let pre = vals.subrange(0, i as int);
                let pre1 = vals.subrange(0, i + 1);
                assert(pre1[i as int] == v);
                if names_workspace(pre1, x) {
                    let (i2, k) = choose|i2: int, k: int|
                        #![trigger split_list(pre1[i2])[k]]
                        0 <= i2 < pre1.len() && 0 <= k < split_list(pre1[i2]).len() && trim_seq(split_list(pre1[i2])[k]) == x
                            && x.len() > 0;
                    if i2 < i {
                        assert(pre[i2] == pre1[i2]);
                        assert(names_workspace(pre, x));
                    } else if k < sl.len() - 1 {
                        assert(held(old_set, x));
                    }
                }
                if names_workspace(pre, x) {
                    let (i2, k) = choose|i2: int, k: int|
                        #![trigger split_list(pre[i2])[k]]
                        0 <= i2 < pre.len() && 0 <= k < split_list(pre[i2]).len() && trim_seq(split_list(pre[i2])[k]) == x
                            && x.len() > 0;
                    assert(pre1[i2] == pre[i2]);
                    assert(split_list(pre1[i2])[k] == split_list(pre[i2])[k]);
                }
                if held(old_set, x) && !names_workspace(pre, x) {
                    let k = choose|k: int| 0 <= k < sl.len() - 1 && trim_seq(#[trigger] sl[k]) == x && x.len() > 0;
                    assert(split_list(pre1[i as int])[k] == sl[k]);
                }
                if t@.len() > 0 && x == t@ {
                    assert(split_list(pre1[i as int])[sl.len() - 1] == sl.last());
                }
            }
        }
        i += 1;
    }
    proof {
        assert(vals.subrange(0, values@.len() as int) =~= vals);
    }
    let mut r: Vec<String> = Vec::new();
    let mut p: usize = 0;
    while p < set.len()
        invariant
            p <= set@.len(),
            r@.len() == p,
            forall|q: int| 0 <= q < p ==> #[trigger] r@[q]@ == set@[q]@,
        decreases set@.len() - p,
    {
        r.push(string_of(set[p].as_slice()));
        p += 1;
    }
    proof {
        assert forall|x: Seq<char>| lists(r@, x) <==> names_workspace(vals, x) by {
            if lists(r@, x) {
                let q = choose|q: int| 0 <= q < r@.len() && #[trigger] r@[q]@ == x;
                assert(set@[q]@ == x);
                assert(held(set@, x));
            }
            if names_workspace(vals, x) {
                assert(held(set@, x));
                let q = choose|q: int| 0 <= q < set@.len() && #[trigger] set@[q]@ == x;
                assert(r@[q]@ == x);
            }
        }
        assert forall|p1: int, q1: int| 0 <= p1 < q1 < r@.len() implies seq_lt(#[trigger] r@[p1]@, #[trigger] r@[q1]@) by {
            assert(r@[p1]@ == set@[p1]@ && r@[q1]@ == set@[q1]@);
        }
    }
    r
}


/* -------------------------------- completions ---------------------------------- */

/// The workspaces offered for a completion: those whose lowercased path
/// contains the lowercased value typed so far, in order.
pub open spec fn completions_spec(dirs: Seq<Seq<char>>, value: Seq<char>) -> Seq<Seq<char>> {
    dirs.filter(|d: Seq<char>| crate::text::seq_contains(crate::text::lowercase(d), crate::text::lowercase(value)))
}

/// The workspaces offered for a completion (see `completions_spec`).
pub fn matching_workspaces(dirs: &Vec<String>, value: &str) -> (r: Vec<String>)
    ensures
        texts(r@) == completions_spec(texts(dirs@), value@),
{
    let lv = crate::text::to_lower(value);
    let q = chars_of(lv.as_str());
    let ghost dv = texts(dirs@);
    let ghost f = |d: Seq<char>| crate::text::seq_contains(crate::text::lowercase(d), crate::text::lowercase(value@));
    let mut r: Vec<String> = Vec::new();
    let mut i: usize = 0;
    while i < dirs.len()
        invariant
            dv == texts(dirs@),
            f == (|d: Seq<char>| crate::text::seq_contains(crate::text::lowercase(d), crate::text::lowercase(value@))),
            q@ == crate::text::lowercase(value@),
            i <= dirs@.len(),
            texts(r@) == dv.subrange(0, i as int).filter(f),
        decreases dirs@.len() - i,
    {
        let ghost before = texts(r@);
        proof {
            assert(dv.subrange(0, i + 1) =~= dv.subrange(0, i as int).push(dv[i as int]));
            dv.subrange(0, i as int).lemma_filter_push(dv[i as int], f);
        }
        let ld = crate::text::to_lower(dirs[i].as_str());
        let lc = chars_of(ld.as_str());
        if crate::text::contains_chars(lc.as_slice(), q.as_slice()) {
            r.push(dirs[i].clone());
            proof {
                assert(texts(r@) =~= before.push(dv[i as int]));
            }
        }
        i += 1;
    }
    proof {
        assert(dv.subrange(0, dirs@.len() as int) =~= dv);
    }
    r
}

/* --------------------------------- resources ----------------------------------- */

/// Which workspace file a resource URI names: `catalog` for
/// `moonvy://catalog/<dir>`, `aliases` for `moonvy://aliases/<dir>`, with
/// the rest of the URI.
pub open spec fn resource_spec(uri: Seq<char>) -> Option<(Seq<char>, Seq<char>)> {
    let c = "moonvy://catalog/"@;
    let a = "moonvy://aliases/"@;
    if uri.len() >= c.len() && uri.subrange(0, c.len() as int) == c {
        Some(("catalog"@, uri.subrange(c.len() as int, uri.len() as int)))
    } else if uri.len() >= a.len() && uri.subrange(0, a.len() as int) == a {
        Some(("aliases"@, uri.subrange(a.len() as int, uri.len() as int)))
    } else {
        None
    }
}

fn strip_prefix(s: &Vec<char>, prefix: &str) -> (r: Option<Vec<char>>)
    ensures
        match r {
            Some(rest) => s@.len() >= prefix@.len() && s@.subrange(0, prefix@.len() as int) == prefix@ && rest@ == s@.subrange(
                prefix@.len() as int,
                s@.len() as int,
            ),
            None => !(s@.len() >= prefix@.len() && s@.subrange(0, prefix@.len() as int) == prefix@),
        },
{
    let p = chars_of(prefix);
    if s.len() < p.len() {
        return None;
    }
    let mut i: usize = 0;
    while i < p.len()
        invariant
            p@ == prefix@,
            p@.len() <= s@.len(),
            i <= p@.len(),
            forall|k: int| 0 <= k < i ==> s@[k] == p@[k],
        decreases p@.len() - i,
    {
        if s[i] != p[i] {
            proof {
                assert(s@.subrange(0, p@.len() as int)[i as int] != p@[i as int]);
            }
            return None;
        }
        i += 1;
    }
    proof {
        assert(s@.subrange(0, p@.len() as int) =~= p@);
    }
    let mut rest: Vec<char> = Vec::new();
    let mut j: usize = p.len();
    while j < s.len()
        invariant
            p@.len() <= j <= s@.len(),
            rest@ == s@.subrange(p@.len() as int, j as int),
        decreases s@.len() - j,
    {
        rest.push(s[j]);
        proof {
            assert(s@.subrange(p@.len() as int, j + 1) =~= s@.subrange(p@.len() as int, j as int).push(s@[j as int]));
        }
        j += 1;
    }
    Some(rest)
}

/// Which workspace file a resource URI names, and the rest of the URI (see
/// `resource_spec`).
pub fn resource_target(uri: &str) -> (r: Option<(String, String)>)
    ensures
        match r {
            Some((kind, rest)) => resource_spec(uri@) == Some((kind@, rest@)),
            None => resource_spec(uri@) is None,
        },
{
    let u = chars_of(uri);
    match strip_prefix(&u, "moonvy://catalog/") {
        Some(rest) => {
            return Some((String::from_str("catalog"), string_of(rest.as_slice())));
        },
        None => {},
    }
    match strip_prefix(&u, "moonvy://aliases/") {
        Some(rest) => Some((String::from_str("aliases"), string_of(rest.as_slice()))),
        None => None,
    }
}

/* ---------------------------------- lifecycle ---------------------------------- */

/// The idle timeout in effect: a configured number of seconds, when it is
/// positive.
pub fn idle_timeout(configured: Option<u64>) -> (r: Option<u64>)
    ensures
        r == (match configured {
            Some(s) => if s > 0 {
                Some(s)
            } else {
                None
            },
            None => None,
        }),
{
    match configured {
        Some(s) => {
            if s > 0 {
                Some(s)
            } else {
                None
            }
        },
        None => None,
    }
}

/// The server has been idle for the timeout: some request was seen (`last`
/// is its time, 0 before any), and at least `timeout` seconds passed since.
pub fn idle_expired(now: u64, last: u64, timeout: u64) -> (r: bool)
    ensures
        r == (last > 0 && (if now >= last {
            now - last
        } else {
            0
        }) >= timeout),
{
    last > 0 && now.saturating_sub(last) >= timeout
}

} // verus!
