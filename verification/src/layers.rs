//! Queries over the layer tree of a design: finding a node by id, listing
//! layers, searching names and texts, and the design's frame summary.
//!
//! A layer holds what these queries read of a genome node: its id, name,
//! type, text, and its rect with every coordinate rounded to the nearest
//! integer (0 where the node has no rect).

use vstd::prelude::*;
use crate::ids::{ids_equal, ids_equal_spec, opt_str};
use crate::text::{chars_of, contains_chars, lowercase, seq_contains, string_of, to_lower, trim_chars, trim_seq};
use crate::tools::opt_text;

verus! {

/// A node of a design's layer tree.
#[derive(Debug, Default)]
pub struct LayerNode {
    pub id: Option<String>,
    pub name: Option<String>,
    pub node_type: Option<String>,
    pub x: i64,
    pub y: i64,
    pub width: i64,
    pub height: i64,
    /// The text of a text node.
    pub text: Option<String>,
    pub children: Vec<LayerNode>,
}

/* --------------------------------- traversal ---------------------------------- */

/// The nodes of a forest in depth-first order, each node before its
/// children.
pub open spec fn preorder(ns: Seq<LayerNode>) -> Seq<LayerNode>
    decreases ns,
{
    if ns.len() == 0 {
        Seq::empty()
    } else {
        proof {
            assert(decreases_to!(ns => ns[0]));
            assert(decreases_to!(ns => ns.subrange(1, ns.len() as int)));
        }
        preorder_node(ns[0]) + preorder(ns.subrange(1, ns.len() as int))
    }
}

/// A node, then the nodes of its subtree in depth-first order.
pub open spec fn preorder_node(n: LayerNode) -> Seq<LayerNode>
    decreases n,
{
    proof {
        assert(decreases_to!(n => n.children));
        assert(decreases_to!(n.children => n.children@));
    }
    seq![n] + preorder(n.children@)
}

/// The pages that pass a frame filter: all of them without a filter, else
/// those whose id equals the filter.
pub open spec fn filtered_pages(pages: Seq<LayerNode>, frame: Option<Seq<char>>) -> Seq<LayerNode>
    decreases pages.len(),
{
    if pages.len() == 0 {
        Seq::empty()
    } else {
        let rest = filtered_pages(pages.drop_last(), frame);
        if frame is None || ids_equal_spec(opt_text(pages.last().id), frame) {
            rest.push(pages.last())
        } else {
            rest
        }
    }
}

/// The first node of the subtree of `n`, in depth-first order, whose id
/// equals `target`.
pub open spec fn found_in(n: LayerNode, target: Seq<char>) -> Option<LayerNode>
    decreases n,
{
    if ids_equal_spec(opt_text(n.id), Some(target)) {
        Some(n)
    } else {
        proof {
            assert(decreases_to!(n => n.children));
            assert(decreases_to!(n.children => n.children@));
        }
        found_in_all(n.children@, target)
    }
}

/// The first node of a forest, in depth-first order, whose id equals
/// `target`.
pub open spec fn found_in_all(ns: Seq<LayerNode>, target: Seq<char>) -> Option<LayerNode>
    decreases ns,
{
    if ns.len() == 0 {
        None
    } else {
        proof {
            assert(decreases_to!(ns => ns[0]));
            assert(decreases_to!(ns => ns.subrange(1, ns.len() as int)));
        }
        match found_in(ns[0], target) {
            Some(x) => Some(x),
            None => found_in_all(ns.subrange(1, ns.len() as int), target),
        }
    }
}

/// The node of the subtree of `node` whose id equals `target_id` (the
/// first in depth-first order).
pub fn find_node<'a>(node: &'a LayerNode, target_id: &str) -> (r: Option<&'a LayerNode>)
    ensures
        match r {
            Some(x) => found_in(*node, target_id@) == Some(*x),
            None => found_in(*node, target_id@) is None,
        },
    decreases node,
{
    let id: Option<&str> = match &node.id {
        Some(s) => Some(s.as_str()),
        None => None,
    };
    if ids_equal(id, Some(target_id)) {
        return Some(node);
    }
    let mut i: usize = 0;
    proof {
        assert(node.children@.subrange(0, node.children@.len() as int) =~= node.children@);
    }
    while i < node.children.len()
        invariant
            i <= node.children@.len(),
            !ids_equal_spec(opt_text(node.id), Some(target_id@)),
            found_in(*node, target_id@) == found_in_all(node.children@.subrange(i as int, node.children@.len() as int), target_id@),
        decreases node.children@.len() - i,
    {
        proof {
            let rest = node.children@.subrange(i as int, node.children@.len() as int);
            assert(rest[0] == node.children@[i as int]);
            assert(rest.subrange(1, rest.len() as int) =~= node.children@.subrange(i + 1, node.children@.len() as int));
            assert(decreases_to!(*node => node.children));
            assert(decreases_to!(node.children => node.children@));
            assert(decreases_to!(node.children@ => node.children@[i as int]));
        }
        match find_node(&node.children[i], target_id) {
            Some(x) => {
                return Some(x);
            },
            None => {},
        }
        i += 1;
    }
    None
}


/// `s` cut to at most `limit` elements.
pub open spec fn cap<T>(s: Seq<T>, limit: int) -> Seq<T> {
    if s.len() <= limit {
        s
    } else {
        s.take(limit)
    }
}

proof fn lemma_cap_full<T>(s: Seq<T>, t: Seq<T>, limit: int)
    requires
        0 <= limit <= s.len(),
    ensures
        cap(s + t, limit) == cap(s, limit),
{
    assert((s + t).take(limit) =~= s.take(limit));
    if s.len() == limit {
        assert(s.take(limit) =~= s);
    }
}

pub proof fn lemma_preorder_concat(a: Seq<LayerNode>, b: Seq<LayerNode>)
    ensures
        preorder(a + b) == preorder(a) + preorder(b),
    decreases a.len(),
{
    if a.len() == 0 {
        assert(a + b =~= b);
        assert(preorder(a) + preorder(b) =~= preorder(b));
    } else {
        let ab = a + b;
        assert(ab[0] == a[0]);
        assert(ab.subrange(1, ab.len() as int) =~= a.subrange(1, a.len() as int) + b);
        lemma_preorder_concat(a.subrange(1, a.len() as int), b);
        assert(preorder(ab) =~= preorder(a) + preorder(b));
    }
}

/// The text of an optional string, empty when absent.
pub open spec fn or_empty(o: Option<String>) -> Seq<char> {
    match o {
        Some(s) => s@,
        None => Seq::empty(),
    }
}

fn text_or_empty(o: &Option<String>) -> (r: String)
    ensures
        r@ == or_empty(*o),
{
    match o {
        Some(s) => s.clone(),
        None => String::new(),
    }
}

fn clone_opt(o: &Option<String>) -> (r: Option<String>)
    ensures
        opt_text(r) == opt_text(*o),
{
    match o {
        Some(s) => Some(s.clone()),
        None => None,
    }
}

fn opt_as_str(o: &Option<String>) -> (r: Option<&str>)
    ensures
        opt_str(r) == opt_text(*o),
{
    match o {
        Some(s) => Some(s.as_str()),
        None => None,
    }
}

/// Appends the nodes of a forest in depth-first order.
fn collect_all<'a>(ns: &'a Vec<LayerNode>, out: &mut Vec<&'a LayerNode>)
    ensures
        final(out)@.unref() == old(out)@.unref() + preorder(ns@),
    decreases ns@,
{
    let ghost start = out@.unref();
    proof {
        assert(ns@.subrange(0, ns@.len() as int) =~= ns@);
        assert(ns@.subrange(ns@.len() as int, ns@.len() as int) =~= Seq::<LayerNode>::empty());
    }
    let mut i: usize = 0;
    while i < ns.len()
        invariant
            i <= ns@.len(),
            start + preorder(ns@) == out@.unref() + preorder(ns@.subrange(i as int, ns@.len() as int)),
        decreases ns@.len() - i,
    {
        let node = &ns[i];
        let ghost before = out@.unref();
        let ghost rest = ns@.subrange(i as int, ns@.len() as int);
        proof {
            assert(rest[0] == ns@[i as int]);
            assert(rest.subrange(1, rest.len() as int) =~= ns@.subrange(i + 1, ns@.len() as int));
        }
        out.push(node);
        proof {
            assert(out@.unref() =~= before.push(*node));
            assert(decreases_to!(ns@ => ns@[i as int]));
            assert(decreases_to!(ns@[i as int] => ns@[i as int].children));
            assert(decreases_to!(ns@[i as int].children => ns@[i as int].children@));
        }
        collect_all(&node.children, out);
        proof {
            assert(out@.unref() =~= before + preorder_node(*node));
        }
        i += 1;
    }
}

/// The nodes of the pages that pass the frame filter, in depth-first order.
fn nodes_of_pages<'a>(pages: &'a Vec<LayerNode>, frame_filter: Option<&str>) -> (r: Vec<&'a LayerNode>)
    ensures
        r@.unref() == preorder(filtered_pages(pages@, opt_str(frame_filter))),
{
    let ghost f = opt_str(frame_filter);
    let mut all: Vec<&'a LayerNode> = Vec::new();
    let mut i: usize = 0;
    proof {
        assert(pages@.subrange(0, 0) =~= Seq::<LayerNode>::empty());
        assert(all@.unref() =~= Seq::<LayerNode>::empty());
    }
    while i < pages.len()
        invariant
            f == opt_str(frame_filter),
            i <= pages@.len(),
            all@.unref() == preorder(filtered_pages(pages@.subrange(0, i as int), f)),
        decreases pages@.len() - i,
    {
        let page = &pages[i];
        let ghost sub = pages@.subrange(0, i + 1);
        proof {
            assert(sub.drop_last() =~= pages@.subrange(0, i as int));
            assert(sub.last() == *page);
        }
        let keep = frame_filter.is_none() || ids_equal(opt_as_str(&page.id), frame_filter);
        if keep {
            let ghost before = all@.unref();
            let ghost fp = filtered_pages(pages@.subrange(0, i as int), f);
            all.push(page);
            proof {
                assert(all@.unref() =~= before.push(*page));
            }
            collect_all(&page.children, &mut all);
            proof {
                lemma_preorder_concat(fp, seq![*page]);
                let single = seq![*page];
                assert(single.subrange(1, 1) =~= Seq::<LayerNode>::empty());
                assert(preorder(Seq::<LayerNode>::empty()) =~= Seq::<LayerNode>::empty());
                assert(single[0] == *page);
                assert(preorder(single) =~= preorder_node(*page) + preorder(single.subrange(1, 1)));
                assert(preorder(single) =~= preorder_node(*page));
                assert(fp.push(*page) =~= fp + seq![*page]);
                assert(all@.unref() =~= preorder(filtered_pages(sub, f)));
            }
        }
        i += 1;
    }
    proof {
        assert(pages@.subrange(0, pages@.len() as int) =~= pages@);
    }
    all
}

/* ----------------------------------- layers ----------------------------------- */

/// A layer of a design, flattened.
#[derive(Debug, Clone, Default)]
pub struct Layer {
    pub id: String,
    pub name: String,
    pub layer_type: String,
    pub x: i64,
    pub y: i64,
    pub width: i64,
    pub height: i64,
}

pub struct LayerView {
    pub id: Seq<char>,
    pub name: Seq<char>,
    pub layer_type: Seq<char>,
    pub x: i64,
    pub y: i64,
    pub width: i64,
    pub height: i64,
}

impl View for Layer {
    type V = LayerView;

    open spec fn view(&self) -> LayerView {
        LayerView {
            id: self.id@,
            name: self.name@,
            layer_type: self.layer_type@,
            x: self.x,
            y: self.y,
            width: self.width,
            height: self.height,
        }
    }
}

/// The flattened layer of a node.
pub open spec fn layer_of(n: LayerNode) -> LayerView {
    LayerView {
        id: or_empty(n.id),
        name: or_empty(n.name),
        layer_type: or_empty(n.node_type),
        x: n.x,
        y: n.y,
        width: n.width,
        height: n.height,
    }
}

/// The first `limit` layers of the pages that pass the frame filter, in
/// depth-first order.
pub fn extract_layers(pages: &Vec<LayerNode>, frame_filter: Option<&str>, limit: usize) -> (r: Vec<Layer>)
    ensures
        r@.map_values(|l: Layer| l@) == cap(preorder(filtered_pages(pages@, opt_str(frame_filter))), limit as int).map_values(
            |n: LayerNode| layer_of(n),
        ),
{
    let all = nodes_of_pages(pages, frame_filter);
    let ghost sel = cap(all@.unref(), limit as int);
    let n = if all.len() < limit {
        all.len()
    } else {
        limit
    };
    let mut r: Vec<Layer> = Vec::new();
    let mut i: usize = 0;
    while i < n
        invariant
            n <= all@.len(),
            n == sel.len(),
            sel == cap(all@.unref(), limit as int),
            i <= n,
            r@.len() == i,
            forall|k: int| 0 <= k < i ==> #[trigger] r@[k]@ == layer_of(sel[k]),
        decreases n - i,
    {
        let node = all[i];
        proof {
            assert(sel[i as int] == all@.unref()[i as int]);
        }
        r.push(
            Layer {
                id: text_or_empty(&node.id),
                name: text_or_empty(&node.name),
                layer_type: text_or_empty(&node.node_type),
                x: node.x,
                y: node.y,
                width: node.width,
                height: node.height,
            },
        );
        i += 1;
    }
    proof {
        assert(r@.map_values(|l: Layer| l@) =~= sel.map_values(|n: LayerNode| layer_of(n)));
    }
    r
}


/* ----------------------------------- search ----------------------------------- */

/// A node found by name or text search.
#[derive(Debug, Clone, Default)]
pub struct SearchHit {
    pub id: String,
    pub name: String,
    pub hit_type: String,
    pub x: i64,
    pub y: i64,
    pub width: i64,
    pub height: i64,
    pub text: Option<String>,
    /// Nearest ancestor that is a component-like container (group,
    /// artboard, frame, component, section): callers can drill into the
    /// whole component subtree with its id instead of the whole page.
    pub container_id: Option<String>,
    pub container_name: Option<String>,
    pub container_type: Option<String>,
}

pub struct HitView {
    pub id: Seq<char>,
    pub name: Seq<char>,
    pub hit_type: Seq<char>,
    pub x: i64,
    pub y: i64,
    pub width: i64,
    pub height: i64,
    pub text: Option<Seq<char>>,
    pub container_id: Option<Seq<char>>,
    pub container_name: Option<Seq<char>>,
    pub container_type: Option<Seq<char>>,
}

impl View for SearchHit {
    type V = HitView;

    open spec fn view(&self) -> HitView {
        HitView {
            id: self.id@,
            name: self.name@,
            hit_type: self.hit_type@,
            x: self.x,
            y: self.y,
            width: self.width,
            height: self.height,
            text: opt_text(self.text),
            container_id: opt_text(self.container_id),
            container_name: opt_text(self.container_name),
            container_type: opt_text(self.container_type),
        }
    }
}

/// A component-like container: a group, artboard, frame, component or
/// section.
pub open spec fn is_container(n: LayerNode) -> bool {
    match n.node_type {
        Some(t) => t@ == "group"@ || t@ == "artboard"@ || t@ == "frame"@ || t@ == "component"@ || t@ == "section"@,
        None => false,
    }
}

/// The lowercased name or text of the node contains the query.
pub open spec fn node_matches(n: LayerNode, q: Seq<char>) -> bool {
    ||| seq_contains(lowercase(or_empty(n.name)), q)
    ||| match n.text {
        Some(t) => seq_contains(lowercase(t@), q),
        None => false,
    }
}

/// The names (or texts) of two nodes that agree once lowercased.
pub open spec fn same_but_case(a: Option<String>, b: Option<String>) -> bool {
    match (a, b) {
        (Some(x), Some(y)) => lowercase(x@) == lowercase(y@),
        (None, None) => true,
        _ => false,
    }
}

/// Search is case-insensitive: a node whose name or text, lowercased,
/// contains the (lowercased) query is a hit, and whether a node is a hit
/// does not change when the case of its name or text changes.
pub proof fn lemma_match_ignores_case(n: LayerNode, m: LayerNode, q: Seq<char>)
    ensures
        seq_contains(lowercase(or_empty(n.name)), q) ==> node_matches(n, q),
        (n.text matches Some(t) && seq_contains(lowercase(t@), q)) ==> node_matches(n, q),
        node_matches(n, q) ==> seq_contains(lowercase(or_empty(n.name)), q) || (n.text matches Some(t)
            && seq_contains(lowercase(t@), q)),
        (same_but_case(n.name, m.name) && same_but_case(n.text, m.text)) ==> node_matches(n, q) == node_matches(m, q),
{
}

/// The case of the query does not matter either: queries that agree once
/// trimmed and lowercased find the same hits.
pub proof fn lemma_query_case_ignored(pages: Seq<LayerNode>, frame: Option<Seq<char>>, q1: Seq<char>, q2: Seq<char>, limit: int)
    requires
        lowercase(trim_seq(q1)) == lowercase(trim_seq(q2)),
    ensures
        search_spec(pages, frame, q1, limit) == search_spec(pages, frame, q2, limit),
{
}

/// The hit for a node under its nearest container.
pub open spec fn hit_of(n: LayerNode, c: Option<LayerNode>) -> HitView {
    HitView {
        id: or_empty(n.id),
        name: or_empty(n.name),
        hit_type: or_empty(n.node_type),
        x: n.x,
        y: n.y,
        width: n.width,
        height: n.height,
        text: opt_text(n.text),
        container_id: match c {
            Some(k) => opt_text(k.id),
            None => None,
        },
        container_name: match c {
            Some(k) => opt_text(k.name),
            None => None,
        },
        container_type: match c {
            Some(k) => match k.node_type {
                Some(t) => Some(t@),
                None => Some("container"@),
            },
            None => None,
        },
    }
}

/// The hits of the subtree of `n`, in depth-first order, `c` being the
/// nearest container above `n`.
pub open spec fn hits_node(n: LayerNode, c: Option<LayerNode>, q: Seq<char>) -> Seq<HitView>
    decreases n,
{
    let own = if node_matches(n, q) {
        seq![hit_of(n, c)]
    } else {
        Seq::empty()
    };
    let next = if is_container(n) {
        Some(n)
    } else {
        c
    };
    proof {
        assert(decreases_to!(n => n.children));
        assert(decreases_to!(n.children => n.children@));
    }
    own + hits_all(n.children@, next, q)
}

/// The hits of a forest, in depth-first order.
pub open spec fn hits_all(ns: Seq<LayerNode>, c: Option<LayerNode>, q: Seq<char>) -> Seq<HitView>
    decreases ns,
{
    if ns.len() == 0 {
        Seq::empty()
    } else {
        proof {
            assert(decreases_to!(ns => ns[0]));
            assert(decreases_to!(ns => ns.subrange(1, ns.len() as int)));
        }
        hits_node(ns[0], c, q) + hits_all(ns.subrange(1, ns.len() as int), c, q)
    }
}

/// The hits of the pages, page by page.
pub open spec fn hits_pages(pages: Seq<LayerNode>, q: Seq<char>) -> Seq<HitView>
    decreases pages.len(),
{
    if pages.len() == 0 {
        Seq::empty()
    } else {
        hits_node(pages[0], None, q) + hits_pages(pages.subrange(1, pages.len() as int), q)
    }
}

/// The hits of a search for `query`: the lowercased, trimmed query is
/// looked for in lowercased names and texts; nothing for an empty query or
/// a zero limit.
pub open spec fn search_spec(pages: Seq<LayerNode>, frame: Option<Seq<char>>, query: Seq<char>, limit: int) -> Seq<HitView> {
    let q = lowercase(trim_seq(query));
    if q.len() == 0 || limit == 0 {
        Seq::empty()
    } else {
        cap(hits_pages(filtered_pages(pages, frame), q), limit)
    }
}

fn make_hit(n: &LayerNode, c: Option<&LayerNode>) -> (r: SearchHit)
    ensures
        r@ == hit_of(*n, match c {
            Some(k) => Some(*k),
            None => None,
        }),
{
    let (container_id, container_name, container_type) = match c {
        Some(k) => (
            clone_opt(&k.id),
            clone_opt(&k.name),
            match &k.node_type {
                Some(t) => Some(t.clone()),
                None => Some(String::from_str("container")),
            },
        ),
        None => (None, None, None),
    };
    SearchHit {
        id: text_or_empty(&n.id),
        name: text_or_empty(&n.name),
        hit_type: text_or_empty(&n.node_type),
        x: n.x,
        y: n.y,
        width: n.width,
        height: n.height,
        text: clone_opt(&n.text),
        container_id,
        container_name,
        container_type,
    }
}

fn matches_query(n: &LayerNode, q: &Vec<char>) -> (r: bool)
    ensures
        r == node_matches(*n, q@),
{
    let name = text_or_empty(&n.name);
    let ln = to_lower(name.as_str());
    let lc = chars_of(ln.as_str());
    if contains_chars(lc.as_slice(), q.as_slice()) {
        return true;
    }
    match &n.text {
        Some(t) => {
            let lt = to_lower(t.as_str());
            let tc = chars_of(lt.as_str());
            contains_chars(tc.as_slice(), q.as_slice())
        },
        None => false,
    }
}

fn container_check(n: &LayerNode) -> (r: bool)
    ensures
        r == is_container(*n),
{
    match &n.node_type {
        Some(t) => {
            let c = chars_of(t.as_str());
            crate::text::eq_str(c.as_slice(), "group") || crate::text::eq_str(c.as_slice(), "artboard")
                || crate::text::eq_str(c.as_slice(), "frame") || crate::text::eq_str(c.as_slice(), "component")
                || crate::text::eq_str(c.as_slice(), "section")
        },
        None => false,
    }
}

pub open spec fn opt_deref(c: Option<&LayerNode>) -> Option<LayerNode> {
    match c {
        Some(k) => Some(*k),
        None => None,
    }
}

/// Searches a forest, appending hits until `limit` are held.
fn search_all(ns: &Vec<LayerNode>, c: Option<&LayerNode>, q: &Vec<char>, limit: usize, hits: &mut Vec<SearchHit>)
    requires
        old(hits)@.len() < limit,
    ensures
        final(hits)@.map_values(|h: SearchHit| h@) == cap(
            old(hits)@.map_values(|h: SearchHit| h@) + hits_all(ns@, opt_deref(c), q@),
            limit as int,
        ),
    decreases ns@,
{
    let ghost start = old(hits)@.map_values(|h: SearchHit| h@);
    let ghost cv = opt_deref(c);
    let mut i: usize = 0;
    proof {
        assert(ns@.subrange(0, ns@.len() as int) =~= ns@);
        assert(hits@.map_values(|h: SearchHit| h@) + Seq::<HitView>::empty() =~= hits@.map_values(|h: SearchHit| h@));
    }
    while i < ns.len()
        invariant
            cv == opt_deref(c),
            start == old(hits)@.map_values(|h: SearchHit| h@),
            i <= ns@.len(),
            hits@.len() < limit,
            cap(start + hits_all(ns@, cv, q@), limit as int) == cap(
                hits@.map_values(|h: SearchHit| h@) + hits_all(ns@.subrange(i as int, ns@.len() as int), cv, q@),
                limit as int,
            ),
        decreases ns@.len() - i,
    {
        let node = &ns[i];
        let ghost rest = ns@.subrange(i as int, ns@.len() as int);
        let ghost tail = hits_all(ns@.subrange(i + 1, ns@.len() as int), cv, q@);
        let ghost h0 = hits@.map_values(|h: SearchHit| h@);
        let ghost own = if node_matches(*node, q@) {
            seq![hit_of(*node, cv)]
        } else {
            Seq::<HitView>::empty()
        };
        let ghost next = if is_container(*node) {
            Some(*node)
        } else {
            cv
        };
        let ghost sub = hits_all(node.children@, next, q@);
        proof {
            assert(rest[0] == *node);
            assert(rest.subrange(1, rest.len() as int) =~= ns@.subrange(i + 1, ns@.len() as int));
            assert(hits_all(rest, cv, q@) == hits_node(*node, cv, q@) + tail);
            assert(hits_node(*node, cv, q@) == own + sub);
            assert(h0 + hits_all(rest, cv, q@) =~= (h0 + own) + sub + tail);
        }
        if matches_query(node, q) {
            let h = make_hit(node, c);
            hits.push(h);
            proof {
                assert(hits@.map_values(|h: SearchHit| h@) =~= h0 + own);
            }
            if hits.len() >= limit {
                proof {
                    lemma_cap_full(h0 + own, sub + tail, limit as int);
                    assert((h0 + own) + sub + tail =~= (h0 + own) + (sub + tail));
                    assert(hits@.map_values(|h: SearchHit| h@).len() == limit);
                    assert(hits@.map_values(|h: SearchHit| h@).take(limit as int) =~= hits@.map_values(|h: SearchHit| h@));
                }
                return;
            }
        } else {
            proof {
                assert(h0 + own =~= h0);
            }
        }
        let next_c: Option<&LayerNode> = if container_check(node) {
            Some(node)
        } else {
            c
        };
        let ghost h1 = hits@.map_values(|h: SearchHit| h@);
        proof {
            assert(opt_deref(next_c) == next);
            assert(decreases_to!(ns@ => ns@[i as int]));
            assert(decreases_to!(ns@[i as int] => ns@[i as int].children));
            assert(decreases_to!(ns@[i as int].children => ns@[i as int].children@));
        }
        search_all(&node.children, next_c, q, limit, hits);
        let ghost h2 = hits@.map_values(|h: SearchHit| h@);
        if hits.len() >= limit {
            proof {
                // h2 is (h1 + sub) cut at the limit, which it reached
                if (h1 + sub).len() <= limit {
                    assert(h2 == h1 + sub);
                    lemma_cap_full(h1 + sub, tail, limit as int);
                    assert(h2.take(limit as int) =~= h2);
                } else {
                    lemma_cap_full(h1 + sub, tail, limit as int);
                    assert(h2.len() == limit);
                    assert(h2.take(limit as int) =~= h2);
                }
                assert((h0 + own) + sub + tail =~= (h1 + sub) + tail);
            }
            return;
        }
        proof {
            assert(h2 == h1 + sub);
            assert((h0 + own) + sub + tail =~= h2 + tail);
        }
        i += 1;
    }
    proof {
        assert(ns@.subrange(ns@.len() as int, ns@.len() as int) =~= Seq::<LayerNode>::empty());
        assert(hits_all(Seq::<LayerNode>::empty(), cv, q@) =~= Seq::<HitView>::empty());
        assert(hits@.map_values(|h: SearchHit| h@) + Seq::<HitView>::empty() =~= hits@.map_values(|h: SearchHit| h@));
    }
}


/// Searches the subtree of `n`, appending hits until `limit` are held.
fn search_node(n: &LayerNode, c: Option<&LayerNode>, q: &Vec<char>, limit: usize, hits: &mut Vec<SearchHit>)
    requires
        old(hits)@.len() < limit,
    ensures
        final(hits)@.map_values(|h: SearchHit| h@) == cap(old(hits)@.map_values(|h: SearchHit| h@) + hits_node(*n, opt_deref(c), q@), limit as int),
{
    let ghost cv = opt_deref(c);
    let ghost h0 = hits@.map_values(|h: SearchHit| h@);
    let ghost own = if node_matches(*n, q@) {
        seq![hit_of(*n, cv)]
    } else {
        Seq::<HitView>::empty()
    };
    let ghost next = if is_container(*n) {
        Some(*n)
    } else {
        cv
    };
    let ghost sub = hits_all(n.children@, next, q@);
    proof {
        assert(hits_node(*n, cv, q@) == own + sub);
        assert(h0 + (own + sub) =~= (h0 + own) + sub);
    }
    if matches_query(n, q) {
        let h = make_hit(n, c);
        hits.push(h);
        proof {
            assert(hits@.map_values(|h: SearchHit| h@) =~= h0 + own);
        }
        if hits.len() >= limit {
            proof {
                lemma_cap_full(h0 + own, sub, limit as int);
                assert(hits@.map_values(|h: SearchHit| h@).take(limit as int) =~= hits@.map_values(|h: SearchHit| h@));
            }
            return;
        }
    } else {
        proof {
            assert(h0 + own =~= h0);
        }
    }
    let next_c: Option<&LayerNode> = if container_check(n) {
        Some(n)
    } else {
        c
    };
    proof {
        assert(opt_deref(next_c) == next);
    }
    search_all(&n.children, next_c, q, limit, hits);
}

/// The pages that pass the frame filter.
fn filter_pages<'a>(pages: &'a Vec<LayerNode>, frame_filter: Option<&str>) -> (r: Vec<&'a LayerNode>)
    ensures
        r@.unref() == filtered_pages(pages@, opt_str(frame_filter)),
{
    let ghost f = opt_str(frame_filter);
    let mut r: Vec<&'a LayerNode> = Vec::new();
    let mut i: usize = 0;
    proof {
        assert(pages@.subrange(0, 0) =~= Seq::<LayerNode>::empty());
        assert(r@.unref() =~= Seq::<LayerNode>::empty());
    }
    while i < pages.len()
        invariant
            f == opt_str(frame_filter),
            i <= pages@.len(),
            r@.unref() == filtered_pages(pages@.subrange(0, i as int), f),
        decreases pages@.len() - i,
    {
        let page = &pages[i];
        proof {
            assert(pages@.subrange(0, i + 1).drop_last() =~= pages@.subrange(0, i as int));
            assert(pages@.subrange(0, i + 1).last() == *page);
        }
        if frame_filter.is_none() || ids_equal(opt_as_str(&page.id), frame_filter) {
            let ghost before = r@.unref();
            r.push(page);
            proof {
                assert(r@.unref() =~= before.push(*page));
            }
        }
        i += 1;
    }
    proof {
        assert(pages@.subrange(0, pages@.len() as int) =~= pages@);
    }
    r
}

/// Case-insensitive substring search over node names and text contents
/// (see `search_spec`): depth-first matches, parents before children, at
/// most `limit` of them, each with its nearest component-like ancestor.
pub fn find_nodes(pages: &Vec<LayerNode>, frame_filter: Option<&str>, query: &str, limit: usize) -> (r: Vec<SearchHit>)
    ensures
        r@.map_values(|h: SearchHit| h@) == search_spec(pages@, opt_str(frame_filter), query@, limit as int),
{
    let qc = chars_of(query);
    let qt = trim_chars(qc.as_slice());
    let qs = string_of(qt.as_slice());
    let ql = to_lower(qs.as_str());
    let q = chars_of(ql.as_str());
    let mut hits: Vec<SearchHit> = Vec::new();
    let ghost qv = lowercase(trim_seq(query@));
    proof {
        assert(q@ == qv);
    }
    if q.len() == 0 || limit == 0 {
        proof {
            assert(hits@.map_values(|h: SearchHit| h@) =~= Seq::<HitView>::empty());
        }
        return hits;
    }
    let sel = filter_pages(pages, frame_filter);
    let ghost sv = sel@.unref();
    let ghost total = hits_pages(sv, q@);
    proof {
        assert(sv.subrange(0, sv.len() as int) =~= sv);
        assert(Seq::<HitView>::empty() + total =~= total);
        assert(hits@.map_values(|h: SearchHit| h@) =~= Seq::<HitView>::empty());
    }
    let mut i: usize = 0;
    while i < sel.len()
        invariant
            sv == sel@.unref(),
            sv == filtered_pages(pages@, opt_str(frame_filter)),
            q@ == qv,
            qv == lowercase(trim_seq(query@)),
            qv.len() > 0,
            limit > 0,
            total == hits_pages(sv, q@),
            i <= sel@.len(),
            hits@.len() < limit,
            cap(total, limit as int) == cap(hits@.map_values(|h: SearchHit| h@) + hits_pages(sv.subrange(i as int, sv.len() as int), q@), limit as int),
        decreases sel@.len() - i,
    {
        let page = sel[i];
        let ghost h0 = hits@.map_values(|h: SearchHit| h@);
        let ghost rest = sv.subrange(i as int, sv.len() as int);
        let ghost own = hits_node(*page, None, q@);
        let ghost tail = hits_pages(sv.subrange(i + 1, sv.len() as int), q@);
        proof {
            assert(rest[0] == *page);
            assert(rest.subrange(1, rest.len() as int) =~= sv.subrange(i + 1, sv.len() as int));
            assert(hits_pages(rest, q@) == own + tail);
            assert(h0 + (own + tail) =~= (h0 + own) + tail);
        }
        search_node(page, None, &q, limit, &mut hits);
        let ghost h1 = hits@.map_values(|h: SearchHit| h@);
        if hits.len() >= limit {
            proof {
                if (h0 + own).len() >= limit {
                    lemma_cap_full(h0 + own, tail, limit as int);
                    assert(cap(total, limit as int) == cap(h0 + own, limit as int));
                    assert(h1 == cap(total, limit as int));
                } else {
                    assert(h1 == h0 + own);
                }
            }
            return hits;
        }
        proof {
            assert(h1 == h0 + own);
        }
        i += 1;
    }
    proof {
        assert(sv.subrange(sv.len() as int, sv.len() as int) =~= Seq::<LayerNode>::empty());
        assert(hits_pages(Seq::<LayerNode>::empty(), q@) =~= Seq::<HitView>::empty());
        assert(hits@.map_values(|h: SearchHit| h@) + Seq::<HitView>::empty() =~= hits@.map_values(|h: SearchHit| h@));
    }
    hits
}

/* -------------------------------- design meta --------------------------------- */

/// A page of a design, summarized.
#[derive(Debug, Clone, Default)]
pub struct Frame {
    pub id: String,
    pub name: String,
    pub width: i64,
    pub height: i64,
}

/// Title and frames of a design.
#[derive(Debug, Clone, Default)]
pub struct DesignMeta {
    pub title: String,
    pub frame_count: usize,
    pub frames: Vec<Frame>,
}

pub struct FrameView {
    pub id: Seq<char>,
    pub name: Seq<char>,
    pub width: i64,
    pub height: i64,
}

impl View for Frame {
    type V = FrameView;

    open spec fn view(&self) -> FrameView {
        FrameView { id: self.id@, name: self.name@, width: self.width, height: self.height }
    }
}

/// The frame summary of a page: unnamed pages are "Untitled".
pub open spec fn frame_of(p: LayerNode) -> FrameView {
    FrameView {
        id: or_empty(p.id),
        name: match p.name {
            Some(n) => n@,
            None => "Untitled"@,
        },
        width: p.width,
        height: p.height,
    }
}

/// The title of a design: the given node name when non-empty, else the
/// first frame's name, else "Untitled".
pub open spec fn title_of(pages: Seq<LayerNode>, node_name: Option<Seq<char>>) -> Seq<char> {
    match node_name {
        Some(n) if n.len() > 0 => n,
        _ => if pages.len() > 0 {
            frame_of(pages[0]).name
        } else {
            "Untitled"@
        },
    }
}

/// The title, frame count and frames of a design.
pub fn extract_design_meta(pages: &Vec<LayerNode>, node_name: Option<&str>) -> (r: DesignMeta)
    ensures
        r.frames@.map_values(|f: Frame| f@) == pages@.map_values(|p: LayerNode| frame_of(p)),
        r.frame_count == pages@.len(),
        r.title@ == title_of(pages@, opt_str(node_name)),
{
    let mut frames: Vec<Frame> = Vec::new();
    let mut i: usize = 0;
    while i < pages.len()
        invariant
            i <= pages@.len(),
            frames@.len() == i,
            forall|k: int| 0 <= k < i ==> #[trigger] frames@[k]@ == frame_of(pages@[k]),
        decreases pages@.len() - i,
    {
        let p = &pages[i];
        let name = match &p.name {
            Some(n) => n.clone(),
            None => String::from_str("Untitled"),
        };
        frames.push(Frame { id: text_or_empty(&p.id), name, width: p.width, height: p.height });
        i += 1;
    }
    proof {
        assert(frames@.map_values(|f: Frame| f@) =~= pages@.map_values(|p: LayerNode| frame_of(p)));
    }
    let frame_count = frames.len();
    proof {
        if frames@.len() > 0 {
            assert(frames@[0]@ == frame_of(pages@[0]));
        }
    }
    let title = match node_name {
        Some(n) => {
            if !n.is_empty() {
                String::from_str(n)
            } else if frames.len() > 0 {
                frames[0].name.clone()
            } else {
                String::from_str("Untitled")
            }
        },
        None => {
            if frames.len() > 0 {
                frames[0].name.clone()
            } else {
                String::from_str("Untitled")
            }
        },
    };
    DesignMeta { title, frame_count, frames }
}


/* ---------------------------------- locating ---------------------------------- */

/// The node reached from `n` by following child positions.
pub open spec fn node_at(n: LayerNode, path: Seq<usize>) -> Option<LayerNode>
    decreases path.len(),
{
    if path.len() == 0 {
        Some(n)
    } else if path[0] < n.children@.len() {
        node_at(n.children@[path[0] as int], path.drop_first())
    } else {
        None
    }
}

/// The child positions leading from `node` to the node that `find_node`
/// finds.
pub fn find_path(node: &LayerNode, target_id: &str) -> (r: Option<Vec<usize>>)
    ensures
        match r {
            Some(p) => found_in(*node, target_id@) is Some && node_at(*node, p@) == found_in(*node, target_id@),
            None => found_in(*node, target_id@) is None,
        },
    decreases node,
{
    let id: Option<&str> = match &node.id {
        Some(s) => Some(s.as_str()),
        None => None,
    };
    if ids_equal(id, Some(target_id)) {
        let p: Vec<usize> = Vec::new();
        proof {
            assert(p@.len() == 0);
        }
        return Some(p);
    }
    let mut i: usize = 0;
    proof {
        assert(node.children@.subrange(0, node.children@.len() as int) =~= node.children@);
    }
    while i < node.children.len()
        invariant
            i <= node.children@.len(),
            !ids_equal_spec(opt_text(node.id), Some(target_id@)),
            found_in(*node, target_id@) == found_in_all(node.children@.subrange(i as int, node.children@.len() as int), target_id@),
        decreases node.children@.len() - i,
    {
        proof {
            let rest = node.children@.subrange(i as int, node.children@.len() as int);
            assert(rest[0] == node.children@[i as int]);
            assert(rest.subrange(1, rest.len() as int) =~= node.children@.subrange(i + 1, node.children@.len() as int));
            assert(decreases_to!(*node => node.children));
            assert(decreases_to!(node.children => node.children@));
            assert(decreases_to!(node.children@ => node.children@[i as int]));
        }
        match find_path(&node.children[i], target_id) {
            Some(sub) => {
                let mut p: Vec<usize> = Vec::new();
                p.push(i);
                let ghost sv = sub@;
                let mut sub = sub;
                p.append(&mut sub);
                proof {
                    assert(p@ =~= seq![i].add(sv));
                    assert(p@.drop_first() =~= sv);
                }
                return Some(p);
            },
            None => {},
        }
        i += 1;
    }
    None
}

/// The first page, in order, holding a node whose id equals `target`, and
/// the path to that node within it.
pub open spec fn located(pages: Seq<LayerNode>, target: Seq<char>) -> Option<(int, LayerNode)>
    decreases pages.len(),
{
    if pages.len() == 0 {
        None
    } else {
        match found_in(pages[0], target) {
            Some(x) => Some((0, x)),
            None => match located(pages.subrange(1, pages.len() as int), target) {
                Some((i, x)) => Some((i + 1, x)),
                None => None,
            },
        }
    }
}

/// Where the node with id `target_id` is: its page's position, then the
/// child positions leading to it (the first match in page order, depth
/// first).
pub fn locate_node(pages: &Vec<LayerNode>, target_id: &str) -> (r: Option<Vec<usize>>)
    ensures
        match r {
            Some(p) => p@.len() >= 1 && (p@[0] as int) < pages@.len() && match located(pages@, target_id@) {
                Some((k, x)) => k == p@[0] as int && node_at(pages@[k], p@.drop_first()) == Some(x),
                None => false,
            },
            None => located(pages@, target_id@) is None,
        },
{
    let mut i: usize = 0;
    proof {
        assert(pages@.subrange(0, pages@.len() as int) =~= pages@);
    }
    while i < pages.len()
        invariant
            i <= pages@.len(),
            match located(pages@, target_id@) {
                Some((k, x)) => match located(pages@.subrange(i as int, pages@.len() as int), target_id@) {
                    Some((k2, x2)) => k == k2 + i && x == x2,
                    None => false,
                },
                None => located(pages@.subrange(i as int, pages@.len() as int), target_id@) is None,
            },
        decreases pages@.len() - i,
    {
        let ghost rest = pages@.subrange(i as int, pages@.len() as int);
        proof {
            assert(rest[0] == pages@[i as int]);
            assert(rest.subrange(1, rest.len() as int) =~= pages@.subrange(i + 1, pages@.len() as int));
        }
        match find_path(&pages[i], target_id) {
            Some(sub) => {
                let mut p: Vec<usize> = Vec::new();
                p.push(i);
                let ghost sv = sub@;
                let mut sub = sub;
                p.append(&mut sub);
                proof {
                    assert(p@ =~= seq![i].add(sv));
                    assert(p@.drop_first() =~= sv);
                }
                return Some(p);
            },
            None => {},
        }
        i += 1;
    }
    proof {
        assert(pages@.subrange(pages@.len() as int, pages@.len() as int) =~= Seq::<LayerNode>::empty());
    }
    None
}

} // verus!
