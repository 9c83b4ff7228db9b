//! Layer-tree output nodes and their normalized styles, with their
//! mathematical views, deep copies and the depth-first flattening that the
//! diff works on.
//!
//! Numeric style values are carried as IEEE-754 binary64 bit patterns
//! (`f64::to_bits`): the library only moves and compares them.

use vstd::prelude::*;

verus! {

/* ---------------------------------- types ----------------------------------- */

/// One stop of a gradient: its color and its position (binary64 bits).
#[derive(Debug, Default)]
pub struct GradientStopStyle {
    pub color: String,
    pub position: u64,
}

/// A gradient fill: its kind, stops and angle (binary64 bits).
#[derive(Debug, Default)]
pub struct GradientStyle {
    pub gradient_type: String,
    pub stops: Vec<GradientStopStyle>,
    pub angle: Option<u64>,
}

/// Normalized style of one node; `None` means "not set".
#[derive(Debug, Default)]
pub struct NodeStyle {
    pub background: Option<String>,
    pub color: Option<String>,
    pub font_size: Option<u64>,
    pub font_weight: Option<u64>,
    pub border_radius: Option<u64>,
    pub opacity: Option<u64>,
    pub font_family: Option<String>,
    pub line_height: Option<u64>,
    pub letter_spacing: Option<u64>,
    pub stroke_width: Option<u64>,
    pub stroke_color: Option<String>,
    pub gradient: Option<GradientStyle>,
    pub text_align: Option<String>,
}

/// One node of an extracted layer tree.
#[derive(Debug, Default)]
pub struct TreeNode {
    pub id: String,
    pub name: String,
    pub node_type: String,
    pub x: i64,
    pub y: i64,
    pub width: i64,
    pub height: i64,
    pub text: Option<String>,
    pub style: Option<NodeStyle>,
    pub children: Option<Vec<TreeNode>>,
    pub duplicate_of: Option<String>,
    pub is_mask_group: Option<bool>,
    pub snapshot_hash: Option<String>,
}

/* ----------------------------------- views ---------------------------------- */

pub struct GradientView {
    pub gradient_type: Seq<char>,
    pub stops: Seq<(Seq<char>, u64)>,
    pub angle: Option<u64>,
}

pub struct StyleView {
    pub background: Option<Seq<char>>,
    pub color: Option<Seq<char>>,
    pub font_size: Option<u64>,
    pub font_weight: Option<u64>,
    pub border_radius: Option<u64>,
    pub opacity: Option<u64>,
    pub font_family: Option<Seq<char>>,
    pub line_height: Option<u64>,
    pub letter_spacing: Option<u64>,
    pub stroke_width: Option<u64>,
    pub stroke_color: Option<Seq<char>>,
    pub gradient: Option<GradientView>,
    pub text_align: Option<Seq<char>>,
}

pub struct TreeView {
    pub id: Seq<char>,
    pub name: Seq<char>,
    pub node_type: Seq<char>,
    pub x: i64,
    pub y: i64,
    pub width: i64,
    pub height: i64,
    pub text: Option<Seq<char>>,
    pub style: Option<StyleView>,
    pub children: Option<Seq<TreeView>>,
    pub duplicate_of: Option<Seq<char>>,
    pub is_mask_group: Option<bool>,
    pub snapshot_hash: Option<Seq<char>>,
}

pub open spec fn sv(o: Option<String>) -> Option<Seq<char>> {
    match o {
        Some(s) => Some(s@),
        None => None,
    }
}

pub open spec fn gradient_view(g: GradientStyle) -> GradientView {
    GradientView {
        gradient_type: g.gradient_type@,
        stops: g.stops@.map_values(|s: GradientStopStyle| (s.color@, s.position)),
        angle: g.angle,
    }
}

pub open spec fn style_view(s: NodeStyle) -> StyleView {
    StyleView {
        background: sv(s.background),
        color: sv(s.color),
        font_size: s.font_size,
        font_weight: s.font_weight,
        border_radius: s.border_radius,
        opacity: s.opacity,
        font_family: sv(s.font_family),
        line_height: s.line_height,
        letter_spacing: s.letter_spacing,
        stroke_width: s.stroke_width,
        stroke_color: sv(s.stroke_color),
        gradient: match s.gradient {
            Some(g) => Some(gradient_view(g)),
            None => None,
        },
        text_align: sv(s.text_align),
    }
}

pub open spec fn tree_view(n: TreeNode) -> TreeView
    decreases n,
{
    TreeView {
        id: n.id@,
        name: n.name@,
        node_type: n.node_type@,
        x: n.x,
        y: n.y,
        width: n.width,
        height: n.height,
        text: sv(n.text),
        style: match n.style {
            Some(s) => Some(style_view(s)),
            None => None,
        },
        children: match n.children {
            Some(c) => {
                proof {
                    assert(decreases_to!(n => n.children));
                    assert(decreases_to!(n.children => c));
                    assert(decreases_to!(c => c@));
                }
                Some(tree_views(c@))
            },
            None => None,
        },
        duplicate_of: sv(n.duplicate_of),
        is_mask_group: n.is_mask_group,
        snapshot_hash: sv(n.snapshot_hash),
    }
}

pub open spec fn tree_views(ns: Seq<TreeNode>) -> Seq<TreeView>
    decreases ns,
{
    if ns.len() == 0 {
        Seq::empty()
    } else {
        proof {
            assert(decreases_to!(ns => ns[ns.len() - 1]));
            assert(decreases_to!(ns => ns.subrange(0, ns.len() - 1)));
        }
        tree_views(ns.subrange(0, ns.len() - 1)).push(tree_view(ns[ns.len() - 1]))
    }
}

impl View for TreeNode {
    type V = TreeView;

    open spec fn view(&self) -> TreeView {
        tree_view(*self)
    }
}

/* --------------------------------- flattening -------------------------------- */

/// Depth-first order of a stack walk: the last root first, each node before
/// its subtree, children visited last-to-first.
pub open spec fn flat_nodes(ns: Seq<TreeNode>) -> Seq<TreeNode>
    decreases ns,
{
    if ns.len() == 0 {
        Seq::empty()
    } else {
        let last = ns[ns.len() - 1];
        proof {
            assert(decreases_to!(ns => ns[ns.len() - 1]));
            assert(decreases_to!(ns => ns.subrange(0, ns.len() - 1)));
        }
        let sub = match last.children {
            Some(c) => {
                proof {
                    assert(decreases_to!(last => last.children));
                    assert(decreases_to!(last.children => c));
                    assert(decreases_to!(c => c@));
                }
                flat_nodes(c@)
            },
            None => Seq::empty(),
        };
        seq![last] + sub + flat_nodes(ns.subrange(0, ns.len() - 1))
    }
}

pub proof fn lemma_tree_views_len(ns: Seq<TreeNode>)
    ensures
        tree_views(ns).len() == ns.len(),
        forall|k: int| 0 <= k < ns.len() ==> #[trigger] tree_views(ns)[k] == tree_view(ns[k]),
    decreases ns.len(),
{
    if ns.len() > 0 {
        lemma_tree_views_len(ns.subrange(0, ns.len() - 1));
    }
}

pub proof fn lemma_views_len_pub(o: Option<Vec<TreeNode>>)
    ensures
        match o {
            Some(c) => tree_views(c@).len() == c@.len(),
            None => true,
        },
{
    match o {
        Some(c) => lemma_tree_views_len(c@),
        None => {},
    }
}

fn flatten_into<'a>(ns: &'a Vec<TreeNode>, out: &mut Vec<&'a TreeNode>)
    ensures
        final(out)@.unref() == old(out)@.unref() + flat_nodes(ns@),
    decreases ns@,
{
    let mut i = ns.len();
    let ghost start = out@.unref();
    proof {
        assert(ns@.subrange(0, ns@.len() as int) =~= ns@);
        assert(start =~= start + Seq::<TreeNode>::empty());
    }
    while i > 0
        invariant
            i <= ns@.len(),
            start + flat_nodes(ns@) == out@.unref() + flat_nodes(ns@.subrange(0, i as int)),
        decreases i,
    {
        let node = &ns[i - 1];
        let ghost before = out@.unref();
        let ghost pre = ns@.subrange(0, i as int);
        proof {
            assert(pre[pre.len() - 1] == ns@[i - 1]);
            assert(pre.subrange(0, pre.len() - 1) =~= ns@.subrange(0, i - 1));
        }
        out.push(node);
        proof {
            assert(out@.unref() =~= before.push(*node));
        }
        match &node.children {
            Some(c) => {
                proof {
                    assert(decreases_to!(ns@ => ns@[i - 1]));
                    assert(decreases_to!(ns@[i - 1] => ns@[i - 1].children));
                    assert(decreases_to!(ns@[i - 1].children => *c));
                    assert(decreases_to!(*c => c@));
                }
                let ghost mid = out@.unref();
                flatten_into(c, out);
                proof {
                    assert(out@.unref() =~= before + seq![*node] + flat_nodes(c@));
                    assert(start + flat_nodes(ns@) =~= out@.unref() + flat_nodes(
                        ns@.subrange(0, i - 1),
                    ));
                }
            },
            None => {
                proof {
                    assert(start + flat_nodes(ns@) =~= out@.unref() + flat_nodes(
                        ns@.subrange(0, i - 1),
                    ));
                }
            },
        }
        i -= 1;
    }
    proof {
        assert(ns@.subrange(0, 0) =~= Seq::<TreeNode>::empty());
        assert(out@.unref() =~= start + flat_nodes(ns@));
    }
}

/// All nodes of a forest in stack-walk order (see `flat_nodes`).
pub fn flatten_tree<'a>(nodes: &'a Vec<TreeNode>) -> (r: Vec<&'a TreeNode>)
    ensures
        r@.unref() == flat_nodes(nodes@),
{
    let mut out: Vec<&'a TreeNode> = Vec::new();
    proof {
        assert(out@.unref() =~= Seq::<TreeNode>::empty());
    }
    flatten_into(nodes, &mut out);
    proof {
        assert(out@.unref() =~= flat_nodes(nodes@));
    }
    out
}

/* -------------------------------- deep copies -------------------------------- */

pub fn clone_opt_string(o: &Option<String>) -> (r: Option<String>)
    ensures
        sv(r) == sv(*o),
{
    match o {
        Some(s) => Some(s.clone()),
        None => None,
    }
}

pub fn clone_gradient(g: &GradientStyle) -> (r: GradientStyle)
    ensures
        gradient_view(r) == gradient_view(*g),
{
    let mut stops: Vec<GradientStopStyle> = Vec::new();
    let mut i: usize = 0;
    while i < g.stops.len()
        invariant
            i <= g.stops@.len(),
            stops@.len() == i,
            forall|k: int|
                0 <= k < i ==> (#[trigger] stops@[k]).color@ == g.stops@[k].color@
                    && stops@[k].position == g.stops@[k].position,
        decreases g.stops@.len() - i,
    {
        stops.push(GradientStopStyle { color: g.stops[i].color.clone(), position: g.stops[i].position });
        i += 1;
    }
    let r = GradientStyle { gradient_type: g.gradient_type.clone(), stops, angle: g.angle };
    assert(gradient_view(r).stops =~= gradient_view(*g).stops);
    r
}

pub fn clone_style(s: &NodeStyle) -> (r: NodeStyle)
    ensures
        style_view(r) == style_view(*s),
{
    NodeStyle {
        background: clone_opt_string(&s.background),
        color: clone_opt_string(&s.color),
        font_size: s.font_size,
        font_weight: s.font_weight,
        border_radius: s.border_radius,
        opacity: s.opacity,
        font_family: clone_opt_string(&s.font_family),
        line_height: s.line_height,
        letter_spacing: s.letter_spacing,
        stroke_width: s.stroke_width,
        stroke_color: clone_opt_string(&s.stroke_color),
        gradient: match &s.gradient {
            Some(g) => Some(clone_gradient(g)),
            None => None,
        },
        text_align: clone_opt_string(&s.text_align),
    }
}

/// A deep copy of a node and its subtree.
pub fn clone_node(n: &TreeNode) -> (r: TreeNode)
    ensures
        r@ == n@,
    decreases *n,
{
    let children = match &n.children {
        Some(c) => {
            let mut out: Vec<TreeNode> = Vec::new();
            let mut i: usize = 0;
            while i < c.len()
                invariant
                    n.children == Some(*c),
                    i <= c@.len(),
                    out@.len() == i,
                    forall|k: int| 0 <= k < i ==> (#[trigger] out@[k])@ == c@[k]@,
                decreases c@.len() - i,
            {
                proof {
                    let nn = *n;
                    assert(decreases_to!(nn => nn.children));
                    assert(nn.children->0 == *c);
                    assert(decreases_to!(nn.children => nn.children->0));
                    assert(decreases_to!(*c => c@));
                    assert(decreases_to!(c@ => c@[i as int]));
                }
                out.push(clone_node(&c[i]));
                i += 1;
            }
            proof {
                lemma_tree_views_len(out@);
                lemma_tree_views_len(c@);
                assert(tree_views(out@) =~= tree_views(c@));
            }
            Some(out)
        },
        None => None,
    };
    TreeNode {
        id: n.id.clone(),
        name: n.name.clone(),
        node_type: n.node_type.clone(),
        x: n.x,
        y: n.y,
        width: n.width,
        height: n.height,
        text: clone_opt_string(&n.text),
        style: match &n.style {
            Some(s) => Some(clone_style(s)),
            None => None,
        },
        children,
        duplicate_of: clone_opt_string(&n.duplicate_of),
        is_mask_group: n.is_mask_group,
        snapshot_hash: clone_opt_string(&n.snapshot_hash),
    }
}

/// The view of a node with its subtree removed.
pub open spec fn stripped(v: TreeView) -> TreeView {
    TreeView { children: None, ..v }
}

/// A copy of a node without its children.
pub fn strip_children(n: &TreeNode) -> (r: TreeNode)
    ensures
        r@ == stripped(n@),
{
    TreeNode {
        id: n.id.clone(),
        name: n.name.clone(),
        node_type: n.node_type.clone(),
        x: n.x,
        y: n.y,
        width: n.width,
        height: n.height,
        text: clone_opt_string(&n.text),
        style: match &n.style {
            Some(s) => Some(clone_style(s)),
            None => None,
        },
        children: None,
        duplicate_of: clone_opt_string(&n.duplicate_of),
        is_mask_group: n.is_mask_group,
        snapshot_hash: clone_opt_string(&n.snapshot_hash),
    }
}

/// Number of nodes of a forest.
pub fn count_nodes(nodes: &Vec<TreeNode>) -> (r: usize)
    requires
        flat_nodes(nodes@).len() <= usize::MAX,
    ensures
        r == flat_nodes(nodes@).len(),
{
    let flat = flatten_tree(nodes);
    flat.len()
}

} // verus!
