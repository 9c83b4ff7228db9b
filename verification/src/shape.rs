//! Building the layer tree of a design from its genome nodes.
//!
//! Each genome node comes already placed: its coordinates rounded in the
//! frame the tree asks for, whether it falls outside the region filter, and
//! its style and duplicate signature. The build decides the tree's shape:
//! depth limit, type filter (`only`, with `image` meaning any node that
//! renders an image), lifting the children of empty containers, and
//! marking or collapsing nodes that repeat an earlier one.

use vstd::prelude::*;
use crate::genome::{truncate_spec, truncate_text, TextContent};
use crate::layers::or_empty;
use crate::text::{chars_eq, chars_of, lowercase, to_lower};
use crate::tools::opt_text;
use crate::tree::{clone_style, style_view, NodeStyle, StyleView, TreeNode, TreeView};

verus! {

/// A genome node placed for the tree build.
#[derive(Debug, Default)]
pub struct SourceNode {
    pub id: Option<String>,
    pub name: Option<String>,
    pub node_type: Option<String>,
    /// Position, rounded, in the frame of the tree (absolute under flatten).
    pub x: i64,
    pub y: i64,
    pub width: i64,
    pub height: i64,
    /// The text of a text node.
    pub text: Option<String>,
    /// The normalized style of the node (when the tree carries styles).
    pub style: Option<NodeStyle>,
    /// The node lies outside the region the tree is limited to.
    pub outside_region: bool,
    pub has_fills: bool,
    pub has_strokes: bool,
    pub has_slices: bool,
    /// One of the node's fills is an image.
    pub has_image_fill: bool,
    pub snapshot: Option<String>,
    pub snapshot_preview: Option<String>,
    /// The node is the clipping shape of a mask group.
    pub mask_shape: bool,
    /// What identifies the node's content and look, to detect repeats.
    pub signature: String,
    pub children: Vec<SourceNode>,
}


/// The options that shape a tree.
#[derive(Debug)]
pub struct TreeSettings {
    pub with_style: bool,
    pub max_depth: usize,
    pub skip_empty_groups: bool,
    pub only: Option<Vec<String>>,
    pub detect_duplicates: bool,
    pub deduplicate: bool,
    pub text_content: TextContent,
}

/* ---------------------------------- specification --------------------------------- */

/// The type filter in effect: the listed types lowercased; none for an
/// empty list.
pub open spec fn only_types(only: Option<Vec<String>>) -> Option<Seq<Seq<char>>> {
    match only {
        Some(l) => if l@.len() > 0 {
            Some(l@.map_values(|t: String| lowercase(t@)))
        } else {
            None
        },
        None => None,
    }
}

/// A child of the node is a mask group's clipping shape.
pub open spec fn has_mask_child(n: SourceNode) -> bool {
    exists|i: int| 0 <= i < n.children@.len() && (#[trigger] n.children@[i]).mask_shape
}

/// A container that is pure nesting noise: no text, fills, strokes,
/// slices or snapshots, and no mask semantics (neither a clipping shape nor
/// holding one).
pub open spec fn empty_container(n: SourceNode) -> bool {
    &&& n.text is None
    &&& !n.has_fills
    &&& !n.has_strokes
    &&& !n.has_slices
    &&& n.snapshot is None
    &&& n.snapshot_preview is None
    &&& !n.mask_shape
    &&& !has_mask_child(n)
}

/// The text a node carries in the tree.
pub open spec fn text_out(t: Option<String>, mode: TextContent) -> Option<Seq<char>> {
    match mode {
        TextContent::NoText => None,
        TextContent::Full => opt_text(t),
        TextContent::Truncate => match t {
            Some(x) => Some(truncate_spec(x@)),
            None => None,
        },
    }
}

/// The own snapshot of a node: full, else preview.
pub open spec fn snapshot_hash_of(n: SourceNode) -> Option<Seq<char>> {
    match n.snapshot {
        Some(s) => Some(s@),
        None => opt_text(n.snapshot_preview),
    }
}

/// The tree node made of a source node, before children and duplicates.
pub open spec fn base_view(n: SourceNode, s: TreeSettings) -> TreeView {
    TreeView {
        id: or_empty(n.id),
        name: or_empty(n.name),
        node_type: or_empty(n.node_type),
        x: n.x,
        y: n.y,
        width: n.width,
        height: n.height,
        text: text_out(n.text, s.text_content),
        style: if s.with_style {
            match n.style {
                Some(st) => Some(style_view(st)),
                None => None,
            }
        } else {
            None
        },
        children: None,
        duplicate_of: None,
        is_mask_group: if n.children@.len() > 0 && has_mask_child(n) {
            Some(true)
        } else {
            None
        },
        snapshot_hash: snapshot_hash_of(n),
    }
}

/// The node passes the type filter: its lowercased type is listed, or
/// `image` is listed and the node renders an image.
pub open spec fn passes_only(n: SourceNode, only: Option<Seq<Seq<char>>>) -> bool {
    match only {
        None => true,
        Some(l) => l.contains(lowercase(or_empty(n.node_type))) || (l.contains("image"@) && (n.snapshot is Some
            || n.snapshot_preview is Some || n.has_image_fill)),
    }
}

/// The first id recorded for a signature.
pub open spec fn sig_get(sigs: Seq<(Seq<char>, Seq<char>)>, sig: Seq<char>) -> Option<Seq<char>>
    decreases sigs.len(),
{
    if sigs.len() == 0 {
        None
    } else if sigs[0].0 == sig {
        Some(sigs[0].1)
    } else {
        sig_get(sigs.drop_first(), sig)
    }
}

/// The trees a source node turns into, and the signatures recorded after
/// it: nothing outside the region; its children (built to the depth limit)
/// in its place when it fails the type filter or is an empty container
/// below the root; otherwise the node, marked as a duplicate of the first
/// node with the same signature (and cut down to its position when
/// duplicates are collapsed), or recorded as the first of its signature.
pub open spec fn built(n: SourceNode, depth: int, s: TreeSettings, sigs: Seq<(Seq<char>, Seq<char>)>) -> (
    Seq<TreeView>,
    Seq<(Seq<char>, Seq<char>)>,
)
    decreases n,
{
    if n.outside_region {
        (Seq::empty(), sigs)
    } else {
        proof {
            assert(decreases_to!(n => n.children));
            assert(decreases_to!(n.children => n.children@));
        }
        let (kids, sigs1) = if n.children@.len() > 0 && depth < s.max_depth {
            built_all(n.children@, depth + 1, s, sigs)
        } else {
            (Seq::empty(), sigs)
        };
        let node = TreeView {
            children: if kids.len() > 0 {
                Some(kids)
            } else {
                None
            },
            ..base_view(n, s)
        };
        if !passes_only(n, only_types(s.only)) {
            (kids, sigs1)
        } else if s.skip_empty_groups && empty_container(n) && depth > 0 {
            (kids, sigs1)
        } else if s.detect_duplicates {
            match sig_get(sigs1, n.signature@) {
                Some(first) => if first != node.id {
                    if s.deduplicate {
                        (
                            seq![
                                TreeView {
                                    text: None,
                                    style: None,
                                    children: None,
                                    duplicate_of: Some(first),
                                    is_mask_group: None,
                                    snapshot_hash: None,
                                    ..node
                                },
                            ],
                            sigs1,
                        )
                    } else {
                        (seq![TreeView { duplicate_of: Some(first), ..node }], sigs1)
                    }
                } else {
                    (seq![node], sigs1)
                },
                None => (seq![node], sigs1.push((n.signature@, node.id))),
            }
        } else {
            (seq![node], sigs1)
        }
    }
}

/// The trees of a sequence of source nodes, in order, threading the
/// recorded signatures.
pub open spec fn built_all(ns: Seq<SourceNode>, depth: int, s: TreeSettings, sigs: Seq<(Seq<char>, Seq<char>)>) -> (
    Seq<TreeView>,
    Seq<(Seq<char>, Seq<char>)>,
)
    decreases ns,
{
    if ns.len() == 0 {
        (Seq::empty(), sigs)
    } else {
        proof {
            assert(decreases_to!(ns => ns[0]));
            assert(decreases_to!(ns => ns.subrange(1, ns.len() as int)));
        }
        let (a, s1) = built(ns[0], depth, s, sigs);
        let (b, s2) = built_all(ns.subrange(1, ns.len() as int), depth, s, s1);
        (a + b, s2)
    }
}


/* ------------------------------------ the build ------------------------------------ */

/// Recorded signatures as plain text.
pub open spec fn sig_views(sigs: Seq<(Vec<char>, String)>) -> Seq<(Seq<char>, Seq<char>)> {
    sigs.map_values(|e: (Vec<char>, String)| (e.0@, e.1@))
}

/// The type filter as plain text.
pub open spec fn only_view(only: Option<Vec<Vec<char>>>) -> Option<Seq<Seq<char>>> {
    match only {
        Some(l) => Some(l@.map_values(|t: Vec<char>| t@)),
        None => None,
    }
}

fn sig_lookup(sigs: &Vec<(Vec<char>, String)>, sig: &Vec<char>) -> (r: Option<usize>)
    ensures
        match r {
            Some(i) => i < sigs@.len() && sig_get(sig_views(sigs@), sig@) == Some(sigs@[i as int].1@),
            None => sig_get(sig_views(sigs@), sig@) is None,
        },
{
    let ghost sv = sig_views(sigs@);
    let mut i: usize = 0;
    proof {
        assert(sv.subrange(0, sv.len() as int) =~= sv);
    }
    while i < sigs.len()
        invariant
            sv == sig_views(sigs@),
            i <= sigs@.len(),
            sig_get(sv, sig@) == sig_get(sv.subrange(i as int, sv.len() as int), sig@),
        decreases sigs@.len() - i,
    {
        let ghost rest = sv.subrange(i as int, sv.len() as int);
        proof {
            assert(rest[0] == (sigs@[i as int].0@, sigs@[i as int].1@));
            assert(rest.drop_first() =~= sv.subrange(i + 1, sv.len() as int));
        }
        if chars_eq(sigs[i].0.as_slice(), sig.as_slice()) {
            return Some(i);
        }
        i += 1;
    }
    None
}

/// The type filter in effect (see `only_types`).
pub fn normalized_only(only: &Option<Vec<String>>) -> (r: Option<Vec<Vec<char>>>)
    ensures
        only_view(r) == only_types(*only),
{
    match only {
        Some(l) => {
            if l.len() == 0 {
                return None;
            }
            let mut r: Vec<Vec<char>> = Vec::new();
            let mut i: usize = 0;
            while i < l.len()
                invariant
                    i <= l@.len(),
                    r@.map_values(|t: Vec<char>| t@) == l@.subrange(0, i as int).map_values(|t: String| lowercase(t@)),
                decreases l@.len() - i,
            {
                let ghost before = r@.map_values(|t: Vec<char>| t@);
                let lower = to_lower(l[i].as_str());
                r.push(chars_of(lower.as_str()));
                proof {
                    assert(r@.map_values(|t: Vec<char>| t@) =~= before.push(lowercase(l@[i as int]@)));
                    assert(l@.subrange(0, i + 1).map_values(|t: String| lowercase(t@)) =~= l@.subrange(0, i as int).map_values(
                        |t: String| lowercase(t@),
                    ).push(lowercase(l@[i as int]@)));
                }
                i += 1;
            }
            proof {
                assert(l@.subrange(0, l@.len() as int) =~= l@);
            }
            Some(r)
        },
        None => None,
    }
}

fn listed_type(l: &Vec<Vec<char>>, t: &Vec<char>) -> (r: bool)
    ensures
        r == l@.map_values(|x: Vec<char>| x@).contains(t@),
{
    let ghost lv = l@.map_values(|x: Vec<char>| x@);
    let mut i: usize = 0;
    while i < l.len()
        invariant
            lv == l@.map_values(|x: Vec<char>| x@),
            i <= l@.len(),
            forall|k: int| 0 <= k < i ==> lv[k] != t@,
        decreases l@.len() - i,
    {
        if chars_eq(l[i].as_slice(), t.as_slice()) {
            assert(lv[i as int] == t@);
            return true;
        }
        i += 1;
    }
    false
}

fn passes_only_exec(n: &SourceNode, only: &Option<Vec<Vec<char>>>) -> (r: bool)
    ensures
        r == passes_only(*n, only_view(*only)),
{
    match only {
        None => true,
        Some(l) => {
            let t: String = match &n.node_type {
                Some(t) => t.clone(),
                None => String::new(),
            };
            let lt = to_lower(t.as_str());
            let ltc = chars_of(lt.as_str());
            if listed_type(l, &ltc) {
                return true;
            }
            let image = chars_of("image");
            listed_type(l, &image) && (n.snapshot.is_some() || n.snapshot_preview.is_some() || n.has_image_fill)
        },
    }
}

fn mask_child_exec(n: &SourceNode) -> (r: bool)
    ensures
        r == has_mask_child(*n),
{
    let mut i: usize = 0;
    while i < n.children.len()
        invariant
            i <= n.children@.len(),
            forall|k: int| 0 <= k < i ==> !(#[trigger] n.children@[k]).mask_shape,
        decreases n.children@.len() - i,
    {
        if n.children[i].mask_shape {
            return true;
        }
        i += 1;
    }
    false
}

fn clone_opt(o: &Option<String>) -> (r: Option<String>)
    ensures
        opt_text(r) == opt_text(*o),
{
    match o {
        Some(s) => Some(s.clone()),
        None => None,
    }
}

/// The tree node of a source node, before children and duplicates.
fn base_node(n: &SourceNode, s: &TreeSettings) -> (r: TreeNode)
    ensures
        r@ == base_view(*n, *s),
{
    let text = match &n.text {
        Some(t) => match s.text_content {
            TextContent::Full => Some(t.clone()),
            TextContent::Truncate => Some(truncate_text(t.as_str())),
            TextContent::NoText => None,
        },
        None => None,
    };
    let style = if s.with_style {
        match &n.style {
            Some(st) => Some(clone_style(st)),
            None => None,
        }
    } else {
        None
    };
    let is_mask_group = if n.children.len() > 0 && mask_child_exec(n) {
        Some(true)
    } else {
        None
    };
    let snapshot_hash = match &n.snapshot {
        Some(h) => Some(h.clone()),
        None => clone_opt(&n.snapshot_preview),
    };
    let r = TreeNode {
        id: match &n.id {
            Some(x) => x.clone(),
            None => String::new(),
        },
        name: match &n.name {
            Some(x) => x.clone(),
            None => String::new(),
        },
        node_type: match &n.node_type {
            Some(x) => x.clone(),
            None => String::new(),
        },
        x: n.x,
        y: n.y,
        width: n.width,
        height: n.height,
        text,
        style,
        children: None,
        duplicate_of: None,
        is_mask_group,
        snapshot_hash,
    };
    proof {
        assert(r@.text == text_out(n.text, s.text_content));
        assert(r@ =~= base_view(*n, *s));
    }
    r
}

proof fn lemma_tree_views_concat(a: Seq<TreeNode>, b: Seq<TreeNode>)
    ensures
        crate::tree::tree_views(a + b) == crate::tree::tree_views(a) + crate::tree::tree_views(b),
{
    crate::tree::lemma_tree_views_len(a + b);
    crate::tree::lemma_tree_views_len(a);
    crate::tree::lemma_tree_views_len(b);
    assert(crate::tree::tree_views(a + b) =~= crate::tree::tree_views(a) + crate::tree::tree_views(b));
}


/// The trees of one source node (see `built`).
fn build_node(
    n: &SourceNode,
    depth: usize,
    s: &TreeSettings,
    only: &Option<Vec<Vec<char>>>,
    sigs: &mut Vec<(Vec<char>, String)>,
) -> (r: Vec<TreeNode>)
    requires
        depth <= s.max_depth,
        only_view(*only) == only_types(s.only),
    ensures
        (crate::tree::tree_views(r@), sig_views(final(sigs)@)) == built(*n, depth as int, *s, sig_views(old(sigs)@)),
    decreases n, 1int,
{
    let ghost sigs0 = sig_views(sigs@);
    if n.outside_region {
        proof {
            assert(crate::tree::tree_views(Seq::<TreeNode>::empty()) =~= Seq::<TreeView>::empty());
        }
        return Vec::new();
    }
    let kids: Vec<TreeNode> = if n.children.len() > 0 && depth < s.max_depth {
        proof {
            assert(decreases_to!(*n => n.children));
            assert(decreases_to!(n.children => n.children@));
        }
        build_all(&n.children, depth + 1, s, only, sigs)
    } else {
        proof {
            assert(crate::tree::tree_views(Seq::<TreeNode>::empty()) =~= Seq::<TreeView>::empty());
        }
        Vec::new()
    };
    let ghost kv = crate::tree::tree_views(kids@);
    let ghost sigs1 = sig_views(sigs@);
    proof {
        crate::tree::lemma_tree_views_len(kids@);
    }
    let mut node = base_node(n, s);
    let has_kids = kids.len() > 0;
    if !passes_only_exec(n, only) || (s.skip_empty_groups && empty_container_exec(n) && depth > 0) {
        return kids;
    }
    if has_kids {
        node.children = Some(kids);
    }
    let ghost nv = node@;
    proof {
        assert(nv == TreeView { children: if kv.len() > 0 { Some(kv) } else { None }, ..base_view(*n, *s) });
    }
    if s.detect_duplicates {
        let sig = chars_of(n.signature.as_str());
        match sig_lookup(sigs, &sig) {
            Some(i) => {
                let first = sigs[i].1.clone();
                if !first.eq(&node.id) {
                    if s.deduplicate {
                        let stub = TreeNode {
                            id: node.id.clone(),
                            name: node.name.clone(),
                            node_type: node.node_type.clone(),
                            x: node.x,
                            y: node.y,
                            width: node.width,
                            height: node.height,
                            text: None,
                            style: None,
                            children: None,
                            duplicate_of: Some(first),
                            is_mask_group: None,
                            snapshot_hash: None,
                        };
                        let mut r: Vec<TreeNode> = Vec::new();
                        r.push(stub);
                        proof {
                            crate::tree::lemma_tree_views_len(r@);
                            assert(crate::tree::tree_views(r@) =~= seq![stub@]);
                        }
                        return r;
                    } else {
                        node.duplicate_of = Some(first);
                        let mut r: Vec<TreeNode> = Vec::new();
                        r.push(node);
                        proof {
                            crate::tree::lemma_tree_views_len(r@);
                            assert(crate::tree::tree_views(r@) =~= seq![r@[0]@]);
                        }
                        return r;
                    }
                }
            },
            None => {
                let ghost before = sig_views(sigs@);
                sigs.push((sig, node.id.clone()));
                proof {
                    assert(sig_views(sigs@) =~= before.push((n.signature@, nv.id)));
                }
            },
        }
    }
    let mut r: Vec<TreeNode> = Vec::new();
    r.push(node);
    proof {
        crate::tree::lemma_tree_views_len(r@);
        assert(crate::tree::tree_views(r@) =~= seq![nv]);
    }
    r
}

fn empty_container_exec(n: &SourceNode) -> (r: bool)
    ensures
        r == empty_container(*n),
{
    n.text.is_none() && !n.has_fills && !n.has_strokes && !n.has_slices && n.snapshot.is_none()
        && n.snapshot_preview.is_none() && !n.mask_shape && !mask_child_exec(n)
}

/// The trees of a sequence of source nodes (see `built_all`).
fn build_all(
    ns: &Vec<SourceNode>,
    depth: usize,
    s: &TreeSettings,
    only: &Option<Vec<Vec<char>>>,
    sigs: &mut Vec<(Vec<char>, String)>,
) -> (r: Vec<TreeNode>)
    requires
        depth <= s.max_depth,
        only_view(*only) == only_types(s.only),
    ensures
        (crate::tree::tree_views(r@), sig_views(final(sigs)@)) == built_all(ns@, depth as int, *s, sig_views(old(sigs)@)),
    decreases ns@, 0int,
{
    let ghost target = built_all(ns@, depth as int, *s, sig_views(sigs@));
    let mut out: Vec<TreeNode> = Vec::new();
    let mut i: usize = 0;
    proof {
        assert(ns@.subrange(0, ns@.len() as int) =~= ns@);
        assert(crate::tree::tree_views(out@) =~= Seq::<TreeView>::empty());
        let b = built_all(ns@, depth as int, *s, sig_views(sigs@));
        assert(Seq::<TreeView>::empty() + b.0 =~= b.0);
    }
    while i < ns.len()
        invariant
            depth <= s.max_depth,
            only_view(*only) == only_types(s.only),
            i <= ns@.len(),
            target == ({
                let rest = built_all(ns@.subrange(i as int, ns@.len() as int), depth as int, *s, sig_views(sigs@));
                (crate::tree::tree_views(out@) + rest.0, rest.1)
            }),
        decreases ns@.len() - i,
    {
        let ghost rest = ns@.subrange(i as int, ns@.len() as int);
        let ghost s0 = sig_views(sigs@);
        proof {
            assert(rest[0] == ns@[i as int]);
            assert(rest.subrange(1, rest.len() as int) =~= ns@.subrange(i + 1, ns@.len() as int));
            assert(decreases_to!(ns@ => ns@[i as int]));
        }
        let part = build_node(&ns[i], depth, s, only, sigs);
        let ghost before = out@;
        let ghost pv = part@;
        let mut part = part;
        out.append(&mut part);
        proof {
            assert(out@ =~= before + pv);
            lemma_tree_views_concat(before, pv);
            let b1 = built(ns@[i as int], depth as int, *s, s0);
            let b2 = built_all(ns@.subrange(i + 1, ns@.len() as int), depth as int, *s, sig_views(sigs@));
            assert(crate::tree::tree_views(before) + (b1.0 + b2.0) =~= crate::tree::tree_views(out@) + b2.0);
        }
        i += 1;
    }
    proof {
        assert(ns@.subrange(ns@.len() as int, ns@.len() as int) =~= Seq::<SourceNode>::empty());
        assert(crate::tree::tree_views(out@) + Seq::<TreeView>::empty() =~= crate::tree::tree_views(out@));
    }
    out
}

/// Builds the layer tree of the given roots (see `built_all`), starting
/// with no recorded signature.
pub fn build_tree(roots: &Vec<SourceNode>, settings: &TreeSettings) -> (r: Vec<TreeNode>)
    ensures
        crate::tree::tree_views(r@) == built_all(roots@, 0, *settings, Seq::empty()).0,
{
    let only = normalized_only(&settings.only);
    let mut sigs: Vec<(Vec<char>, String)> = Vec::new();
    proof {
        assert(sig_views(sigs@) =~= Seq::<(Seq<char>, Seq<char>)>::empty());
    }
    build_all(roots, 0, settings, &only, &mut sigs)
}

/* ------------------------------------ tree size ------------------------------------ */

/// Number of nodes of a forest of tree views.
pub open spec fn view_count(vs: Seq<TreeView>) -> nat
    decreases vs, 1int,
{
    if vs.len() == 0 {
        0
    } else {
        proof {
            assert(decreases_to!(vs => vs[0]));
            assert(decreases_to!(vs => vs.subrange(1, vs.len() as int)));
        }
        node_count(vs[0]) + view_count(vs.subrange(1, vs.len() as int))
    }
}

/// Number of nodes of a tree view: itself and its descendants.
pub open spec fn node_count(v: TreeView) -> nat
    decreases v, 0int,
{
    match v.children {
        Some(c) => {
            proof {
                assert(decreases_to!(v => v.children));
            }
            1 + view_count(c)
        },
        None => 1,
    }
}

/// Number of source nodes a build can reach from depth `depth` when
/// children are taken only below `max_depth` (as `built` takes them).
pub open spec fn source_count(ns: Seq<SourceNode>, depth: int, max_depth: int) -> nat
    decreases ns, 1int,
{
    if ns.len() == 0 {
        0
    } else {
        proof {
            assert(decreases_to!(ns => ns[0]));
            assert(decreases_to!(ns => ns.subrange(1, ns.len() as int)));
        }
        source_one(ns[0], depth, max_depth) + source_count(ns.subrange(1, ns.len() as int), depth, max_depth)
    }
}

/// Number of source nodes a build can reach from node `n` at `depth`.
pub open spec fn source_one(n: SourceNode, depth: int, max_depth: int) -> nat
    decreases n, 0int,
{
    proof {
        assert(decreases_to!(n => n.children));
        assert(decreases_to!(n.children => n.children@));
    }
    if n.children@.len() > 0 && depth < max_depth {
        1 + source_count(n.children@, depth + 1, max_depth)
    } else {
        1
    }
}

/// No node of the forest lies outside the region (as when no region is
/// asked for).
pub open spec fn region_free(ns: Seq<SourceNode>) -> bool
    decreases ns,
{
    if ns.len() == 0 {
        true
    } else {
        proof {
            assert(decreases_to!(ns => ns[0]));
            assert(decreases_to!(ns[0] => ns[0].children));
            assert(decreases_to!(ns[0].children => ns[0].children@));
            assert(decreases_to!(ns => ns.subrange(1, ns.len() as int)));
        }
        !ns[0].outside_region && region_free(ns[0].children@) && region_free(ns.subrange(1, ns.len() as int))
    }
}

/// Two forests of the same shape: the same number of nodes at each place.
pub open spec fn same_shape(a: Seq<SourceNode>, b: Seq<SourceNode>) -> bool
    decreases a,
{
    if a.len() != b.len() {
        false
    } else if a.len() == 0 {
        true
    } else {
        proof {
            assert(decreases_to!(a => a[0]));
            assert(decreases_to!(a[0] => a[0].children));
            assert(decreases_to!(a[0].children => a[0].children@));
            assert(decreases_to!(a => a.subrange(1, a.len() as int)));
        }
        same_shape(a[0].children@, b[0].children@) && same_shape(a.subrange(1, a.len() as int), b.subrange(1, b.len() as int))
    }
}

/// The settings of a tree asked for with no option: no style, depth 99, no
/// filter, no duplicate detection, truncated text.
pub open spec fn default_settings() -> TreeSettings {
    TreeSettings {
        with_style: false,
        max_depth: 99,
        skip_empty_groups: false,
        only: None,
        detect_duplicates: false,
        deduplicate: true,
        text_content: TextContent::Truncate,
    }
}

proof fn lemma_view_count_concat(a: Seq<TreeView>, b: Seq<TreeView>)
    ensures
        view_count(a + b) == view_count(a) + view_count(b),
    decreases a.len(),
{
    if a.len() == 0 {
        assert(a + b =~= b);
    } else {
        assert((a + b)[0] == a[0]);
        assert((a + b).subrange(1, (a + b).len() as int) =~= a.subrange(1, a.len() as int) + b);
        lemma_view_count_concat(a.subrange(1, a.len() as int), b);
    }
}

proof fn lemma_view_count_one(v: TreeView)
    ensures
        view_count(seq![v]) == node_count(v),
{
    let e = seq![v].subrange(1, 1);
    assert(e =~= Seq::<TreeView>::empty());
    assert(view_count(e) == 0);
    assert(seq![v][0] == v);
}

/// What a node builds into has at most as many nodes as the source nodes
/// it can reach.
proof fn lemma_built_le(n: SourceNode, depth: int, s: TreeSettings, sigs: Seq<(Seq<char>, Seq<char>)>)
    ensures
        view_count(built(n, depth, s, sigs).0) <= source_one(n, depth, s.max_depth as int),
    decreases n, 0int,
{
    if !n.outside_region {
        assert(decreases_to!(n => n.children));
        assert(decreases_to!(n.children => n.children@));
        let (kids, sigs1) = if n.children@.len() > 0 && depth < s.max_depth {
            lemma_built_all_le(n.children@, depth + 1, s, sigs);
            built_all(n.children@, depth + 1, s, sigs)
        } else {
            (Seq::empty(), sigs)
        };
        let node = TreeView {
            children: if kids.len() > 0 {
                Some(kids)
            } else {
                None
            },
            ..base_view(n, s)
        };
        lemma_view_count_one(node);
        lemma_view_count_one(TreeView { duplicate_of: Some(Seq::empty()), ..node });
        let r = built(n, depth, s, sigs).0;
        if r.len() == 1 {
            lemma_view_count_one(r[0]);
            assert(r =~= seq![r[0]]);
        }
    }
}

/// What a forest builds into has at most as many nodes as the source nodes
/// it can reach.
proof fn lemma_built_all_le(ns: Seq<SourceNode>, depth: int, s: TreeSettings, sigs: Seq<(Seq<char>, Seq<char>)>)
    ensures
        view_count(built_all(ns, depth, s, sigs).0) <= source_count(ns, depth, s.max_depth as int),
    decreases ns, 1int,
{
    if ns.len() > 0 {
        assert(decreases_to!(ns => ns[0]));
        assert(decreases_to!(ns => ns.subrange(1, ns.len() as int)));
        let (a, s1) = built(ns[0], depth, s, sigs);
        lemma_built_le(ns[0], depth, s, sigs);
        lemma_built_all_le(ns.subrange(1, ns.len() as int), depth, s, s1);
        let (b, s2) = built_all(ns.subrange(1, ns.len() as int), depth, s, s1);
        lemma_view_count_concat(a, b);
    }
}

/// With no option asked for, a node builds into exactly the source nodes it
/// reaches.
proof fn lemma_default_built(n: SourceNode, depth: int, sigs: Seq<(Seq<char>, Seq<char>)>)
    requires
        region_free(seq![n]),
    ensures
        view_count(built(n, depth, default_settings(), sigs).0) == source_one(n, depth, 99),
    decreases n, 0int,
{
    let s = default_settings();
    assert(seq![n][0] == n);
    assert(decreases_to!(n => n.children));
    assert(decreases_to!(n.children => n.children@));
    let (kids, sigs1) = if n.children@.len() > 0 && depth < s.max_depth {
        lemma_default_built_all(n.children@, depth + 1, sigs);
        built_all(n.children@, depth + 1, s, sigs)
    } else {
        (Seq::empty(), sigs)
    };
    let node = TreeView {
        children: if kids.len() > 0 {
            Some(kids)
        } else {
            None
        },
        ..base_view(n, s)
    };
    assert(only_types(s.only) is None);
    lemma_view_count_one(node);
}

/// With no option asked for, a forest builds into exactly the source nodes
/// it reaches.
proof fn lemma_default_built_all(ns: Seq<SourceNode>, depth: int, sigs: Seq<(Seq<char>, Seq<char>)>)
    requires
        region_free(ns),
    ensures
        view_count(built_all(ns, depth, default_settings(), sigs).0) == source_count(ns, depth, 99),
    decreases ns, 1int,
{
    let s = default_settings();
    if ns.len() > 0 {
        assert(decreases_to!(ns => ns[0]));
        assert(decreases_to!(ns => ns.subrange(1, ns.len() as int)));
        assert(region_free(seq![ns[0]])) by {
            let one = seq![ns[0]];
            let e = one.subrange(1, 1);
            assert(one[0] == ns[0]);
            assert(e =~= Seq::<SourceNode>::empty());
            assert(region_free(e));
        }
        let (a, s1) = built(ns[0], depth, s, sigs);
        lemma_default_built(ns[0], depth, sigs);
        lemma_default_built_all(ns.subrange(1, ns.len() as int), depth, s1);
        let (b, s2) = built_all(ns.subrange(1, ns.len() as int), depth, s, s1);
        lemma_view_count_concat(a, b);
    }
}

/// Taking children to a smaller depth reaches no more source nodes.
proof fn lemma_source_depth(ns: Seq<SourceNode>, depth: int, m1: int, m2: int)
    requires
        m1 <= m2,
    ensures
        source_count(ns, depth, m1) <= source_count(ns, depth, m2),
    decreases ns,
{
    if ns.len() > 0 {
        assert(decreases_to!(ns => ns[0]));
        assert(decreases_to!(ns[0] => ns[0].children));
        assert(decreases_to!(ns[0].children => ns[0].children@));
        assert(decreases_to!(ns => ns.subrange(1, ns.len() as int)));
        lemma_source_depth(ns[0].children@, depth + 1, m1, m2);
        lemma_source_depth(ns.subrange(1, ns.len() as int), depth, m1, m2);
        assert(source_one(ns[0], depth, m1) <= source_one(ns[0], depth, m2));
    }
}

proof fn lemma_same_shape_len(a: Seq<SourceNode>, b: Seq<SourceNode>)
    requires
        same_shape(a, b),
    ensures
        a.len() == b.len(),
{
}

/// Forests of the same shape reach the same number of source nodes.
proof fn lemma_source_shape(a: Seq<SourceNode>, b: Seq<SourceNode>, depth: int, m: int)
    requires
        same_shape(a, b),
    ensures
        source_count(a, depth, m) == source_count(b, depth, m),
    decreases a,
{
    if a.len() > 0 {
        assert(decreases_to!(a => a[0]));
        assert(decreases_to!(a[0] => a[0].children));
        assert(decreases_to!(a[0].children => a[0].children@));
        assert(decreases_to!(a => a.subrange(1, a.len() as int)));
        lemma_source_shape(a[0].children@, b[0].children@, depth + 1, m);
        lemma_source_shape(a.subrange(1, a.len() as int), b.subrange(1, b.len() as int), depth, m);
        lemma_same_shape_len(a[0].children@, b[0].children@);
        assert(source_one(a[0], depth, m) == source_one(b[0], depth, m));
    }
}

/// Every node of a built tree stems from a distinct source node: whatever
/// the settings (filters, region, depth, empty-group skipping, duplicate
/// collapsing), the trees built from `roots` have at most as many nodes as
/// the source nodes within the depth limit.
pub proof fn lemma_build_within_source(roots: Seq<SourceNode>, s: TreeSettings)
    ensures
        view_count(built_all(roots, 0, s, Seq::empty()).0) <= source_count(roots, 0, s.max_depth as int),
{
    lemma_built_all_le(roots, 0, s, Seq::empty());
}

/// Asked for with no option, a tree keeps every source node within depth
/// 99 (when no region cuts nodes away).
pub proof fn lemma_default_build_complete(roots: Seq<SourceNode>)
    requires
        region_free(roots),
    ensures
        view_count(built_all(roots, 0, default_settings(), Seq::empty()).0) == source_count(roots, 0, 99),
{
    lemma_default_built_all(roots, 0, Seq::empty());
}

/// The noise-reduction options never grow a tree: built with any settings
/// of depth at most 99 from a placement `roots`, it has no more nodes than
/// the tree built with no option from a placement `plain` of the same shape
/// that no region cuts.
pub proof fn lemma_options_never_grow(roots: Seq<SourceNode>, plain: Seq<SourceNode>, s: TreeSettings)
    requires
        s.max_depth <= 99,
        same_shape(roots, plain),
        region_free(plain),
    ensures
        view_count(built_all(roots, 0, s, Seq::empty()).0) <= view_count(
            built_all(plain, 0, default_settings(), Seq::empty()).0,
        ),
{
    lemma_built_all_le(roots, 0, s, Seq::empty());
    lemma_source_depth(roots, 0, s.max_depth as int, 99);
    lemma_source_shape(roots, plain, 0, 99);
    lemma_default_built_all(plain, 0, Seq::empty());
}

/// The nodes `count_nodes` counts (those of the stack walk) are the nodes
/// `view_count` counts.
pub proof fn lemma_flat_count(ns: Seq<TreeNode>)
    ensures
        crate::tree::flat_nodes(ns).len() == view_count(crate::tree::tree_views(ns)),
    decreases ns,
{
    if ns.len() > 0 {
        let last = ns[ns.len() - 1];
        let pre = ns.subrange(0, ns.len() - 1);
        assert(decreases_to!(ns => ns[ns.len() - 1]));
        assert(decreases_to!(ns => ns.subrange(0, ns.len() - 1)));
        lemma_flat_count(pre);
        match last.children {
            Some(c) => {
                assert(decreases_to!(last => last.children));
                assert(decreases_to!(last.children => c));
                assert(decreases_to!(c => c@));
                lemma_flat_count(c@);
            },
            None => {},
        }
        let tv = crate::tree::tree_view(last);
        lemma_view_count_concat(crate::tree::tree_views(pre), seq![tv]);
        lemma_view_count_one(tv);
        assert(crate::tree::tree_views(pre).push(tv) =~= crate::tree::tree_views(pre) + seq![tv]);
    }
}

/* ------------------------------- duplicate records ------------------------------- */

/// All nodes of a forest of tree views, each before its descendants.
pub open spec fn all_views(vs: Seq<TreeView>) -> Seq<TreeView>
    decreases vs, 1int,
{
    if vs.len() == 0 {
        Seq::empty()
    } else {
        proof {
            assert(decreases_to!(vs => vs[0]));
            assert(decreases_to!(vs => vs.subrange(1, vs.len() as int)));
        }
        subtree_views(vs[0]) + all_views(vs.subrange(1, vs.len() as int))
    }
}

/// A node of a tree view and all its descendants, the node first.
pub open spec fn subtree_views(v: TreeView) -> Seq<TreeView>
    decreases v, 0int,
{
    match v.children {
        Some(c) => {
            proof {
                assert(decreases_to!(v => v.children));
            }
            seq![v] + all_views(c)
        },
        None => seq![v],
    }
}

/// Some node among `vs` with id `id` is not marked as a duplicate.
pub open spec fn has_unmarked(vs: Seq<TreeView>, id: Seq<char>) -> bool {
    exists|j: int| 0 <= j < vs.len() && (#[trigger] vs[j]).duplicate_of is None && vs[j].id == id
}

/// Some record of `sigs` names the node id `id`.
pub open spec fn recorded(sigs: Seq<(Seq<char>, Seq<char>)>, id: Seq<char>) -> bool {
    exists|i: int| 0 <= i < sigs.len() && (#[trigger] sigs[i]).1 == id
}

proof fn lemma_all_views_concat(a: Seq<TreeView>, b: Seq<TreeView>)
    ensures
        all_views(a + b) == all_views(a) + all_views(b),
    decreases a.len(),
{
    if a.len() == 0 {
        assert(a + b =~= b);
        assert(all_views(a) + all_views(b) =~= all_views(b));
    } else {
        assert((a + b)[0] == a[0]);
        assert((a + b).subrange(1, (a + b).len() as int) =~= a.subrange(1, a.len() as int) + b);
        lemma_all_views_concat(a.subrange(1, a.len() as int), b);
        assert(all_views(a + b) =~= all_views(a) + all_views(b));
    }
}

proof fn lemma_all_views_one(v: TreeView)
    ensures
        all_views(seq![v]) == subtree_views(v),
{
    let e = seq![v].subrange(1, 1);
    assert(e =~= Seq::<TreeView>::empty());
    assert(all_views(e) == Seq::<TreeView>::empty());
    assert(seq![v][0] == v);
    assert(all_views(seq![v]) =~= subtree_views(v));
}

proof fn lemma_sig_get_recorded(sigs: Seq<(Seq<char>, Seq<char>)>, sig: Seq<char>)
    ensures
        sig_get(sigs, sig) matches Some(f) ==> recorded(sigs, f),
    decreases sigs.len(),
{
    if sigs.len() > 0 && sigs[0].0 != sig {
        lemma_sig_get_recorded(sigs.drop_first(), sig);
        if sig_get(sigs, sig) is Some {
            let f = sig_get(sigs, sig)->0;
            let i = choose|i: int| 0 <= i < sigs.drop_first().len() && (#[trigger] sigs.drop_first()[i]).1 == f;
            assert(sigs[i + 1].1 == f);
        }
    } else if sigs.len() > 0 {
        assert(sigs[0].1 == sig_get(sigs, sig)->0);
    }
}

/// The facts a build keeps about the signature records: the records it
/// started with stay as they were, each record it adds names an unmarked
/// node it built, and each node it marks names a recorded node.
pub open spec fn records_kept(
    out: Seq<TreeView>,
    sigs0: Seq<(Seq<char>, Seq<char>)>,
    sigs: Seq<(Seq<char>, Seq<char>)>,
) -> bool {
    &&& sigs.len() >= sigs0.len()
    &&& sigs.subrange(0, sigs0.len() as int) == sigs0
    &&& forall|i: int| sigs0.len() <= i < sigs.len() ==> has_unmarked(all_views(out), #[trigger] sigs[i].1)
    &&& forall|k: int|
        0 <= k < all_views(out).len() && (#[trigger] all_views(out)[k]).duplicate_of is Some ==> recorded(
            sigs,
            all_views(out)[k].duplicate_of->0,
        )
}

/// Records are only appended: what a build starts with stays a prefix.
proof fn lemma_built_prefix(n: SourceNode, depth: int, s: TreeSettings, sigs: Seq<(Seq<char>, Seq<char>)>)
    ensures
        built(n, depth, s, sigs).1.len() >= sigs.len(),
        built(n, depth, s, sigs).1.subrange(0, sigs.len() as int) == sigs,
    decreases n, 0int,
{
    if !n.outside_region {
        assert(decreases_to!(n => n.children));
        assert(decreases_to!(n.children => n.children@));
        if n.children@.len() > 0 && depth < s.max_depth {
            lemma_built_all_prefix(n.children@, depth + 1, s, sigs);
        } else {
            assert(sigs.subrange(0, sigs.len() as int) =~= sigs);
        }
        let r = built(n, depth, s, sigs).1;
        let sigs1 = if n.children@.len() > 0 && depth < s.max_depth {
            built_all(n.children@, depth + 1, s, sigs).1
        } else {
            sigs
        };
        assert(r.subrange(0, sigs.len() as int) =~= sigs1.subrange(0, sigs.len() as int));
    } else {
        assert(sigs.subrange(0, sigs.len() as int) =~= sigs);
    }
}

proof fn lemma_built_all_prefix(ns: Seq<SourceNode>, depth: int, s: TreeSettings, sigs: Seq<(Seq<char>, Seq<char>)>)
    ensures
        built_all(ns, depth, s, sigs).1.len() >= sigs.len(),
        built_all(ns, depth, s, sigs).1.subrange(0, sigs.len() as int) == sigs,
    decreases ns, 1int,
{
    if ns.len() > 0 {
        assert(decreases_to!(ns => ns[0]));
        assert(decreases_to!(ns => ns.subrange(1, ns.len() as int)));
        let s1 = built(ns[0], depth, s, sigs).1;
        lemma_built_prefix(ns[0], depth, s, sigs);
        lemma_built_all_prefix(ns.subrange(1, ns.len() as int), depth, s, s1);
        let s2 = built_all(ns, depth, s, sigs).1;
        assert(s2.subrange(0, sigs.len() as int) =~= s2.subrange(0, s1.len() as int).subrange(0, sigs.len() as int));
    } else {
        assert(sigs.subrange(0, sigs.len() as int) =~= sigs);
    }
}

proof fn lemma_subtree_of(v: TreeView, kids: Seq<TreeView>)
    requires
        v.children == (if kids.len() > 0 {
            Some(kids)
        } else {
            None::<Seq<TreeView>>
        }),
    ensures
        all_views(seq![v]) == seq![v] + all_views(kids),
{
    lemma_all_views_one(v);
    if kids.len() == 0 {
        assert(all_views(kids) == Seq::<TreeView>::empty());
        assert(seq![v] + all_views(kids) =~= seq![v]);
    }
}

proof fn lemma_records_node(
    v: TreeView,
    kids: Seq<TreeView>,
    sigs: Seq<(Seq<char>, Seq<char>)>,
    sigs1: Seq<(Seq<char>, Seq<char>)>,
)
    requires
        v.children == (if kids.len() > 0 {
            Some(kids)
        } else {
            None::<Seq<TreeView>>
        }),
        records_kept(kids, sigs, sigs1),
        v.duplicate_of is Some ==> recorded(sigs1, v.duplicate_of->0),
    ensures
        records_kept(seq![v], sigs, sigs1),
{
    lemma_subtree_of(v, kids);
    let av = all_views(seq![v]);
    let ak = all_views(kids);
    assert forall|i: int| sigs.len() <= i < sigs1.len() implies has_unmarked(av, #[trigger] sigs1[i].1) by {
        assert(has_unmarked(ak, sigs1[i].1));
        let j = choose|j: int| 0 <= j < ak.len() && (#[trigger] ak[j]).duplicate_of is None && ak[j].id == sigs1[i].1;
        assert(av[j + 1] == ak[j]);
    }
    assert forall|k: int| 0 <= k < av.len() && (#[trigger] av[k]).duplicate_of is Some implies recorded(
        sigs1,
        av[k].duplicate_of->0,
    ) by {
        if k > 0 {
            assert(av[k] == ak[k - 1]);
        }
    }
}

proof fn lemma_records_new(
    v: TreeView,
    kids: Seq<TreeView>,
    sigs: Seq<(Seq<char>, Seq<char>)>,
    sigs1: Seq<(Seq<char>, Seq<char>)>,
    sig: Seq<char>,
)
    requires
        v.children == (if kids.len() > 0 {
            Some(kids)
        } else {
            None::<Seq<TreeView>>
        }),
        records_kept(kids, sigs, sigs1),
        v.duplicate_of is None,
    ensures
        records_kept(seq![v], sigs, sigs1.push((sig, v.id))),
{
    lemma_subtree_of(v, kids);
    let av = all_views(seq![v]);
    let ak = all_views(kids);
    let sigs2 = sigs1.push((sig, v.id));
    assert(sigs2.subrange(0, sigs.len() as int) =~= sigs1.subrange(0, sigs.len() as int));
    assert forall|i: int| sigs.len() <= i < sigs2.len() implies has_unmarked(av, #[trigger] sigs2[i].1) by {
        if i < sigs1.len() {
            assert(sigs2[i] == sigs1[i]);
            assert(has_unmarked(ak, sigs1[i].1));
            let j = choose|j: int| 0 <= j < ak.len() && (#[trigger] ak[j]).duplicate_of is None && ak[j].id == sigs1[i].1;
            assert(av[j + 1] == ak[j]);
        } else {
            assert(av[0] == v);
        }
    }
    assert forall|k: int| 0 <= k < av.len() && (#[trigger] av[k]).duplicate_of is Some implies recorded(
        sigs2,
        av[k].duplicate_of->0,
    ) by {
        assert(k > 0);
        assert(av[k] == ak[k - 1]);
        let i = choose|i: int| 0 <= i < sigs1.len() && (#[trigger] sigs1[i]).1 == av[k].duplicate_of->0;
        assert(sigs2[i] == sigs1[i]);
    }
}

proof fn lemma_records_concat(
    a: Seq<TreeView>,
    b: Seq<TreeView>,
    s0: Seq<(Seq<char>, Seq<char>)>,
    s1: Seq<(Seq<char>, Seq<char>)>,
    s2: Seq<(Seq<char>, Seq<char>)>,
)
    requires
        records_kept(a, s0, s1),
        records_kept(b, s1, s2),
    ensures
        records_kept(a + b, s0, s2),
{
    lemma_all_views_concat(a, b);
    let aa = all_views(a);
    let ab = all_views(b);
    let al = all_views(a + b);
    assert(s2.subrange(0, s0.len() as int) =~= s2.subrange(0, s1.len() as int).subrange(0, s0.len() as int));
    assert forall|i: int| s0.len() <= i < s2.len() implies has_unmarked(al, #[trigger] s2[i].1) by {
        if i < s1.len() {
            assert(s2[i] == s2.subrange(0, s1.len() as int)[i]);
            assert(s2[i] == s1[i]);
            assert(has_unmarked(aa, s1[i].1));
            let j = choose|j: int| 0 <= j < aa.len() && (#[trigger] aa[j]).duplicate_of is None && aa[j].id == s1[i].1;
            assert(al[j] == aa[j]);
        } else {
            assert(has_unmarked(ab, s2[i].1));
            let j = choose|j: int| 0 <= j < ab.len() && (#[trigger] ab[j]).duplicate_of is None && ab[j].id == s2[i].1;
            assert(al[aa.len() + j] == ab[j]);
        }
    }
    assert forall|k: int| 0 <= k < al.len() && (#[trigger] al[k]).duplicate_of is Some implies recorded(
        s2,
        al[k].duplicate_of->0,
    ) by {
        if k < aa.len() {
            assert(al[k] == aa[k]);
            let i = choose|i: int| 0 <= i < s1.len() && (#[trigger] s1[i]).1 == al[k].duplicate_of->0;
            assert(s2[i] == s2.subrange(0, s1.len() as int)[i]);
        } else {
            assert(al[k] == ab[k - aa.len()]);
        }
    }
}

proof fn lemma_records_empty(sigs: Seq<(Seq<char>, Seq<char>)>)
    ensures
        records_kept(Seq::empty(), sigs, sigs),
{
    assert(all_views(Seq::<TreeView>::empty()) == Seq::<TreeView>::empty());
    assert(sigs.subrange(0, sigs.len() as int) =~= sigs);
}

/// Without collapsing, a build keeps its signature records (see
/// `records_kept`).
proof fn lemma_built_records(n: SourceNode, depth: int, s: TreeSettings, sigs: Seq<(Seq<char>, Seq<char>)>)
    requires
        !s.deduplicate,
    ensures
        records_kept(built(n, depth, s, sigs).0, sigs, built(n, depth, s, sigs).1),
    decreases n, 0int,
{
    if n.outside_region {
        lemma_records_empty(sigs);
    } else {
        assert(decreases_to!(n => n.children));
        assert(decreases_to!(n.children => n.children@));
        let (kids, sigs1) = if n.children@.len() > 0 && depth < s.max_depth {
            built_all(n.children@, depth + 1, s, sigs)
        } else {
            (Seq::empty(), sigs)
        };
        if n.children@.len() > 0 && depth < s.max_depth {
            lemma_built_all_records(n.children@, depth + 1, s, sigs);
        } else {
            lemma_records_empty(sigs);
        }
        let node = TreeView {
            children: if kids.len() > 0 {
                Some(kids)
            } else {
                None
            },
            ..base_view(n, s)
        };
        if !passes_only(n, only_types(s.only)) {
        } else if s.skip_empty_groups && empty_container(n) && depth > 0 {
        } else if s.detect_duplicates {
            match sig_get(sigs1, n.signature@) {
                Some(first) => {
                    lemma_sig_get_recorded(sigs1, n.signature@);
                    if first != node.id {
                        lemma_records_node(TreeView { duplicate_of: Some(first), ..node }, kids, sigs, sigs1);
                    } else {
                        lemma_records_node(node, kids, sigs, sigs1);
                    }
                },
                None => {
                    lemma_records_new(node, kids, sigs, sigs1, n.signature@);
                },
            }
        } else {
            lemma_records_node(node, kids, sigs, sigs1);
        }
    }
}

proof fn lemma_built_all_records(ns: Seq<SourceNode>, depth: int, s: TreeSettings, sigs: Seq<(Seq<char>, Seq<char>)>)
    requires
        !s.deduplicate,
    ensures
        records_kept(built_all(ns, depth, s, sigs).0, sigs, built_all(ns, depth, s, sigs).1),
    decreases ns, 1int,
{
    if ns.len() == 0 {
        lemma_records_empty(sigs);
    } else {
        assert(decreases_to!(ns => ns[0]));
        assert(decreases_to!(ns => ns.subrange(1, ns.len() as int)));
        let (a, s1) = built(ns[0], depth, s, sigs);
        lemma_built_records(ns[0], depth, s, sigs);
        lemma_built_all_records(ns.subrange(1, ns.len() as int), depth, s, s1);
        lemma_records_concat(a, built_all(ns.subrange(1, ns.len() as int), depth, s, s1).0, sigs, s1, built_all(ns.subrange(1, ns.len() as int), depth, s, s1).1);
    }
}

/// Duplicate detection keeps the first node of each signature as its
/// canonical instance: with duplicates marked (not collapsed), every node
/// marked `duplicate_of` names a node of the built trees that is not itself
/// marked.
pub proof fn lemma_duplicates_name_canonical(roots: Seq<SourceNode>, s: TreeSettings)
    requires
        !s.deduplicate,
    ensures
        ({
            let all = all_views(built_all(roots, 0, s, Seq::empty()).0);
            forall|k: int|
                0 <= k < all.len() && (#[trigger] all[k]).duplicate_of is Some ==> has_unmarked(
                    all,
                    all[k].duplicate_of->0,
                )
        }),
{
    lemma_built_all_records(roots, 0, s, Seq::empty());
    let r = built_all(roots, 0, s, Seq::empty());
    let all = all_views(r.0);
    assert forall|k: int| 0 <= k < all.len() && (#[trigger] all[k]).duplicate_of is Some implies has_unmarked(
        all,
        all[k].duplicate_of->0,
    ) by {
        let i = choose|i: int| 0 <= i < r.1.len() && (#[trigger] r.1[i]).1 == all[k].duplicate_of->0;
        assert(has_unmarked(all, r.1[i].1));
    }
}

/// A signature's record never changes: a build only appends records to
/// those it starts with, so the first record of a signature, which later
/// repeats name, stays in place.
pub proof fn lemma_signature_records_append_only(roots: Seq<SourceNode>, s: TreeSettings, sigs: Seq<(Seq<char>, Seq<char>)>)
    ensures
        built_all(roots, 0, s, sigs).1.len() >= sigs.len(),
        built_all(roots, 0, s, sigs).1.subrange(0, sigs.len() as int) == sigs,
{
    lemma_built_all_prefix(roots, 0, s, sigs);
}

} // verus!
