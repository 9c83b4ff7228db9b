//! Diff of two layer trees: nodes are paired by id, then same-name nodes
//! whose ids differ are paired by minimum total geometry distance among
//! nodes of the same type. Unpaired nodes are added (second tree) or
//! removed (first tree); single-page root containers of equal viewport are
//! not reported as added or removed.

use vstd::prelude::*;
use crate::assign::{
    assignment_cost, bounded_costs, hungarian_min, is_permutation, is_square, sat_square, saturating_square, COST_INF,
};
use crate::text::{lemma_lt_irrefl, lemma_lt_total, lemma_lt_trans, seq_lt, chars_lt, chars_of};
use crate::tree::{
    clone_node, flat_nodes, flatten_tree, strip_children, stripped, GradientView, StyleView,
    TreeNode, TreeView,
};

verus! {

/* ------------------------------ result types ------------------------------- */

/// A node present in both trees whose payload differs.
#[derive(Debug)]
pub struct ChangedNode {
    pub id: String,
    pub name: String,
    pub fields: Vec<String>,
    /// The node in the first tree.
    pub before: Option<TreeNode>,
    /// The node in the second tree.
    pub after: Option<TreeNode>,
}

/// Result of comparing two trees.
#[derive(Debug)]
pub struct TreeDiff {
    pub added: Vec<TreeNode>,
    pub removed: Vec<TreeNode>,
    pub changed: Vec<ChangedNode>,
}

pub struct ChangedView {
    pub id: Seq<char>,
    pub name: Seq<char>,
    pub fields: Seq<Seq<char>>,
    pub before: Option<TreeView>,
    pub after: Option<TreeView>,
}

pub open spec fn opt_tree_view(o: Option<TreeNode>) -> Option<TreeView> {
    match o {
        Some(n) => Some(n@),
        None => None,
    }
}

pub open spec fn changed_view(c: ChangedNode) -> ChangedView {
    ChangedView {
        id: c.id@,
        name: c.name@,
        fields: c.fields@.map_values(|s: String| s@),
        before: opt_tree_view(c.before),
        after: opt_tree_view(c.after),
    }
}

/* ------------------------------ node comparison ------------------------------ */

pub open spec fn gradient_kind(s: StyleView) -> Option<Seq<char>> {
    match s.gradient {
        Some(g) => Some(g.gradient_type),
        None => None,
    }
}

/// The bit pattern of a binary64 NaN: all exponent bits set, a non-zero
/// fraction.
pub open spec fn is_nan_bits(x: u64) -> bool {
    x / 4503599627370496 % 2048 == 2047 && x % 4503599627370496 != 0
}

/// Two optional binary64 numbers, given by their bit patterns, print the
/// same under `{:?}`: both absent, or equal bit patterns, or both NaN
/// (every NaN prints as `NaN`).
pub open spec fn num_sig_eq(a: Option<u64>, b: Option<u64>) -> bool {
    match (a, b) {
        (None, None) => true,
        (Some(x), Some(y)) => x == y || (is_nan_bits(x) && is_nan_bits(y)),
        _ => false,
    }
}

/// Two styles print the same signature: background, color, font size,
/// radius, stroke width, gradient kind and opacity agree, the numbers as
/// `num_sig_eq` says.
pub open spec fn style_sig_eq(a: Option<StyleView>, b: Option<StyleView>) -> bool {
    match (a, b) {
        (None, None) => true,
        (Some(x), Some(y)) => {
            &&& x.background == y.background
            &&& x.color == y.color
            &&& num_sig_eq(x.font_size, y.font_size)
            &&& num_sig_eq(x.border_radius, y.border_radius)
            &&& num_sig_eq(x.stroke_width, y.stroke_width)
            &&& gradient_kind(x) == gradient_kind(y)
            &&& num_sig_eq(x.opacity, y.opacity)
        },
        _ => false,
    }
}

pub open spec fn child_count(v: TreeView) -> Option<nat> {
    match v.children {
        Some(c) => Some(c.len()),
        None => None,
    }
}

/// The payload fields that differ between two nodes, in the order
/// text, style, childrenCount, rect.
pub open spec fn changed_fields_spec(a: TreeView, b: TreeView) -> Seq<Seq<char>> {
    let f0 = Seq::<Seq<char>>::empty();
    let f1 = if a.text != b.text {
        f0.push("text"@)
    } else {
        f0
    };
    let f2 = if !style_sig_eq(a.style, b.style) {
        f1.push("style"@)
    } else {
        f1
    };
    let f3 = if child_count(a) != child_count(b) {
        f2.push("childrenCount"@)
    } else {
        f2
    };
    if a.x != b.x || a.y != b.y || a.width != b.width || a.height != b.height {
        f3.push("rect"@)
    } else {
        f3
    }
}

fn opt_string_eq(a: &Option<String>, b: &Option<String>) -> (r: bool)
    ensures
        r == (crate::tree::sv(*a) == crate::tree::sv(*b)),
{
    match (a, b) {
        (Some(x), Some(y)) => x.eq(y),
        (None, None) => true,
        _ => false,
    }
}

fn num_sig_equal(a: Option<u64>, b: Option<u64>) -> (r: bool)
    ensures
        r == num_sig_eq(a, b),
{
    match (a, b) {
        (None, None) => true,
        (Some(x), Some(y)) => {
            let nan_x = x / 4503599627370496 % 2048 == 2047 && x % 4503599627370496 != 0;
            let nan_y = y / 4503599627370496 % 2048 == 2047 && y % 4503599627370496 != 0;
            x == y || (nan_x && nan_y)
        },
        _ => false,
    }
}

fn style_sig_equal(a: &Option<crate::tree::NodeStyle>, b: &Option<crate::tree::NodeStyle>) -> (r: bool)
    ensures
        r == style_sig_eq(
            match *a {
                Some(s) => Some(crate::tree::style_view(s)),
                None => None,
            },
            match *b {
                Some(s) => Some(crate::tree::style_view(s)),
                None => None,
            },
        ),
{
    match (a, b) {
        (None, None) => true,
        (Some(x), Some(y)) => {
            let gk = match (&x.gradient, &y.gradient) {
                (Some(g), Some(h)) => g.gradient_type.eq(&h.gradient_type),
                (None, None) => true,
                _ => false,
            };
            opt_string_eq(&x.background, &y.background) && opt_string_eq(&x.color, &y.color)
                && num_sig_equal(x.font_size, y.font_size) && num_sig_equal(x.border_radius, y.border_radius)
                && num_sig_equal(x.stroke_width, y.stroke_width) && gk && num_sig_equal(x.opacity, y.opacity)
        },
        _ => false,
    }
}

/// The payload fields that differ between two nodes; `None` when none do.
pub fn changed_fields(a: &TreeNode, b: &TreeNode) -> (r: Option<Vec<String>>)
    ensures
        match r {
            Some(v) => v@.map_values(|s: String| s@) == changed_fields_spec(a@, b@)
                && v@.len() > 0,
            None => changed_fields_spec(a@, b@).len() == 0,
        },
{
    let mut fields: Vec<String> = Vec::new();
    let ghost va = a@;
    let ghost vb = b@;
    if !opt_string_eq(&a.text, &b.text) {
        fields.push(String::from_str("text"));
    }
    if !style_sig_equal(&a.style, &b.style) {
        fields.push(String::from_str("style"));
    }
    let ca: Option<usize> = match &a.children {
        Some(c) => Some(c.len()),
        None => None,
    };
    let cb: Option<usize> = match &b.children {
        Some(c) => Some(c.len()),
        None => None,
    };
    proof {
        crate::tree::lemma_views_len_pub(a.children);
        crate::tree::lemma_views_len_pub(b.children);
    }
    if ca != cb {
        fields.push(String::from_str("childrenCount"));
    }
    if a.x != b.x || a.y != b.y || a.width != b.width || a.height != b.height {
        fields.push(String::from_str("rect"));
    }
    proof {
        assert(fields@.map_values(|s: String| s@) =~= changed_fields_spec(va, vb));
    }
    if fields.len() == 0 {
        None
    } else {
        Some(fields)
    }
}

/* -------------------------------- entries ----------------------------------- */

/// The views of a sequence of node references.
pub open spec fn views_of(f: Seq<&TreeNode>) -> Seq<TreeView> {
    f.unref().map_values(|n: TreeNode| n@)
}

/// All nodes of a forest, as views, in stack-walk order.
pub open spec fn flat_views(ns: Seq<TreeNode>) -> Seq<TreeView> {
    flat_nodes(ns).map_values(|n: TreeNode| n@)
}

/// Position `k` holds the last node with its id: the node that id stands
/// for (an id map keeps the last insertion).
pub open spec fn is_entry(f: Seq<TreeView>, k: int) -> bool {
    &&& 0 <= k < f.len()
    &&& forall|t: int| k < t < f.len() ==> (#[trigger] f[t]).id != f[k].id
}

pub open spec fn has_id(f: Seq<TreeView>, id: Seq<char>) -> bool {
    exists|t: int| 0 <= t < f.len() && (#[trigger] f[t]).id == id
}

proof fn lemma_entry_exists(f: Seq<TreeView>, t: int)
    requires
        0 <= t < f.len(),
    ensures
        exists|k: int| is_entry(f, k) && f[k].id == f[t].id,
    decreases f.len() - t,
{
    if !is_entry(f, t) {
        let t2 = choose|t2: int| t < t2 < f.len() && (#[trigger] f[t2]).id == f[t].id;
        lemma_entry_exists(f, t2);
    }
}

proof fn lemma_entries_distinct(f: Seq<TreeView>, k1: int, k2: int)
    requires
        is_entry(f, k1),
        is_entry(f, k2),
        k1 != k2,
    ensures
        f[k1].id != f[k2].id,
{
    if k1 < k2 {
        assert(f[k2].id != f[k1].id);
    } else {
        assert(f[k1].id != f[k2].id);
    }
}

/// The positions of `f` that are entries, in increasing order.
fn last_entries(f: &Vec<&TreeNode>) -> (e: Vec<usize>)
    ensures
        forall|p: int| 0 <= p < e@.len() ==> is_entry(views_of(f@), #[trigger] e@[p] as int),
        forall|p: int, q: int| 0 <= p < q < e@.len() ==> e@[p] < e@[q],
        forall|k: int| is_entry(views_of(f@), k) ==> exists|p: int| 0 <= p < e@.len() && #[trigger] e@[p] == k,
        e@.len() <= f@.len(),
{
    let ghost fv = views_of(f@);
    let n = f.len();
    let mut e: Vec<usize> = Vec::new();
    let mut k: usize = 0;
    while k < n
        invariant
            n == f@.len(),
            fv == views_of(f@),
            fv.len() == n,
            k <= n,
            e@.len() <= k,
            forall|p: int| 0 <= p < e@.len() ==> is_entry(fv, #[trigger] e@[p] as int) && e@[p] < k,
            forall|p: int, q: int| 0 <= p < q < e@.len() ==> e@[p] < e@[q],
            forall|k2: int| 0 <= k2 < k && is_entry(fv, k2) ==> exists|p: int| 0 <= p < e@.len() && #[trigger] e@[p] == k2,
        decreases n - k,
    {
        let mut t: usize = k + 1;
        let mut last = true;
        while t < n
            invariant
                n == f@.len(),
                fv == views_of(f@),
                fv.len() == n,
                k < n,
                k + 1 <= t <= n,
                last == (forall|t2: int| k < t2 < t ==> fv[t2].id != fv[k as int].id),
            decreases n - t,
        {
            proof {
                assert(fv[t as int].id == f@[t as int].id@);
                assert(fv[k as int].id == f@[k as int].id@);
            }
            if f[t].id.eq(&f[k].id) {
                last = false;
            }
            t += 1;
        }
        let ghost old_e = e@;
        if last {
            e.push(k);
            assert(e@[e@.len() - 1] == k);
        }
        proof {
            assert forall|k2: int| 0 <= k2 < k + 1 && is_entry(fv, k2) implies exists|p: int|
                0 <= p < e@.len() && #[trigger] e@[p] == k2 by {
                if k2 < k {
                    let p = choose|p: int| 0 <= p < old_e.len() && #[trigger] old_e[p] == k2;
                    assert(e@[p] == k2);
                } else {
                    assert(last);
                    assert(e@[e@.len() - 1] == k2);
                }
            }
        }
        k += 1;
    }
    e
}

/* --------------------------------- pairing ---------------------------------- */

/// Node types whose containers are page-level wrappers.
pub open spec fn is_page_type(t: Seq<char>) -> bool {
    t == "artboard"@ || t == "page"@ || t == "frame"@ || t == "canvas"@ || t == "board"@
}

/// Both trees are a single page of the same viewport size.
pub open spec fn single_page(ra: Seq<TreeView>, rb: Seq<TreeView>) -> bool {
    ra.len() == 1 && rb.len() == 1 && ra[0].width == rb[0].width && ra[0].height == rb[0].height
}

/// A page-level root container of a single-page pair: not reported as added
/// or removed.
pub open spec fn is_wrapper(roots: Seq<TreeView>, single: bool, n: TreeView) -> bool {
    single && is_page_type(n.node_type) && has_id(roots, n.id)
}

/// Entry `i` of the first tree may be paired with entry `j` of the second:
/// same id, or (neither id occurring in the other tree) same non-empty name
/// and same type.
pub open spec fn may_pair(fa: Seq<TreeView>, fb: Seq<TreeView>, i: int, j: int) -> bool {
    &&& is_entry(fa, i)
    &&& is_entry(fb, j)
    &&& (fa[i].id == fb[j].id || (!has_id(fa, fb[j].id) && !has_id(fb, fa[i].id) && fb[j].name.len() > 0
        && fa[i].name == fb[j].name && fa[i].node_type == fb[j].node_type))
}

pub open spec fn paired_a(pairs: Seq<(int, int)>, i: int) -> bool {
    exists|p: int| 0 <= p < pairs.len() && (#[trigger] pairs[p]).0 == i
}

pub open spec fn paired_b(pairs: Seq<(int, int)>, j: int) -> bool {
    exists|p: int| 0 <= p < pairs.len() && (#[trigger] pairs[p]).1 == j
}

/// A one-to-one pairing of entries in which every entry of the second tree
/// whose id occurs in the first tree is paired.
pub open spec fn valid_pairing(fa: Seq<TreeView>, fb: Seq<TreeView>, pairs: Seq<(int, int)>) -> bool {
    &&& forall|p: int| 0 <= p < pairs.len() ==> may_pair(fa, fb, (#[trigger] pairs[p]).0, pairs[p].1)
    &&& forall|p: int, q: int|
        0 <= p < q < pairs.len() ==> (#[trigger] pairs[p]).0 != (#[trigger] pairs[q]).0 && pairs[p].1
            != pairs[q].1
    &&& forall|j: int| is_entry(fb, j) && has_id(fa, fb[j].id) ==> paired_b(pairs, j)
}

/// The change records of a pairing, in pairing order, for pairs whose
/// payload differs.
pub open spec fn changes_of(fa: Seq<TreeView>, fb: Seq<TreeView>, pairs: Seq<(int, int)>) -> Seq<ChangedView>
    decreases pairs.len(),
{
    if pairs.len() == 0 {
        Seq::empty()
    } else {
        let rest = changes_of(fa, fb, pairs.drop_last());
        let i = pairs.last().0;
        let j = pairs.last().1;
        let f = changed_fields_spec(fa[i], fb[j]);
        if f.len() > 0 {
            rest.push(ChangedView { id: fb[j].id, name: fb[j].name, fields: f, before: Some(fa[i]), after: Some(fb[j]) })
        } else {
            rest
        }
    }
}

/// `q` lists, once each, exactly the entries of `f` that are neither paired
/// nor page wrappers.
pub open spec fn leftovers(f: Seq<TreeView>, roots: Seq<TreeView>, single: bool, paired: spec_fn(int) -> bool, q: Seq<int>) -> bool {
    &&& q.no_duplicates()
    &&& forall|k: int| 0 <= k < q.len() ==> is_entry(f, #[trigger] q[k]) && !paired(q[k]) && !is_wrapper(roots, single, f[q[k]])
    &&& forall|t: int| is_entry(f, t) && !paired(t) && !is_wrapper(roots, single, f[t]) ==> q.contains(t)
}

/// `d` is the diff of `a` and `b` under the pairing `pairs`, with leftover
/// entries `qa` (removed) and `qb` (added).
pub open spec fn diff_result(a: Seq<TreeNode>, b: Seq<TreeNode>, pairs: Seq<(int, int)>, qa: Seq<int>, qb: Seq<int>, d: TreeDiff) -> bool {
    let fa = flat_views(a);
    let fb = flat_views(b);
    let ra = crate::tree::tree_views(a);
    let rb = crate::tree::tree_views(b);
    let single = single_page(ra, rb);
    &&& valid_pairing(fa, fb, pairs)
    &&& groups_settled(fa, fb, pairs)
    &&& leftovers(fa, ra, single, |i: int| paired_a(pairs, i), qa)
    &&& leftovers(fb, rb, single, |j: int| paired_b(pairs, j), qb)
    &&& d.changed@.map_values(|c: ChangedNode| changed_view(c)) == changes_of(fa, fb, pairs)
    &&& d.added@.map_values(|n: TreeNode| n@) == qb.map_values(|j: int| stripped(fb[j]))
    &&& d.removed@.map_values(|n: TreeNode| n@) == qa.map_values(|i: int| stripped(fa[i]))
}

/// Bookkeeping of a pairing in progress.
pub open spec fn state_ok(fa: Seq<TreeView>, fb: Seq<TreeView>, pa: Seq<bool>, pb: Seq<bool>, pairs: Seq<(int, int)>, changed: Seq<ChangedNode>) -> bool {
    &&& pa.len() == fa.len()
    &&& pb.len() == fb.len()
    &&& forall|p: int| 0 <= p < pairs.len() ==> may_pair(fa, fb, (#[trigger] pairs[p]).0, pairs[p].1)
    &&& forall|p: int, q: int|
        0 <= p < q < pairs.len() ==> (#[trigger] pairs[p]).0 != (#[trigger] pairs[q]).0 && pairs[p].1
            != pairs[q].1
    &&& forall|i: int| 0 <= i < pa.len() ==> (pa[i] <==> paired_a(pairs, i))
    &&& forall|j: int| 0 <= j < pb.len() ==> (pb[j] <==> paired_b(pairs, j))
    &&& changed.map_values(|c: ChangedNode| changed_view(c)) == changes_of(fa, fb, pairs)
}

/// Records the pairing of entry `i` of the first tree with entry `j` of the
/// second, with its change record when their payloads differ.
fn record_pair(
    fa: &Vec<&TreeNode>,
    fb: &Vec<&TreeNode>,
    i: usize,
    j: usize,
    pa: &mut Vec<bool>,
    pb: &mut Vec<bool>,
    changed: &mut Vec<ChangedNode>,
    Ghost(pairs): Ghost<Seq<(int, int)>>,
) -> (new_pairs: Ghost<Seq<(int, int)>>)
    requires
        state_ok(views_of(fa@), views_of(fb@), old(pa)@, old(pb)@, pairs, old(changed)@),
        may_pair(views_of(fa@), views_of(fb@), i as int, j as int),
        !old(pa)@[i as int],
        !old(pb)@[j as int],
    ensures
        new_pairs@ == pairs.push((i as int, j as int)),
        state_ok(views_of(fa@), views_of(fb@), final(pa)@, final(pb)@, new_pairs@, final(changed)@),
        final(pa)@ == old(pa)@.update(i as int, true),
        final(pb)@ == old(pb)@.update(j as int, true),
{
    let ghost fav = views_of(fa@);
    let ghost fbv = views_of(fb@);
    let ghost np = pairs.push((i as int, j as int));
    pa.set(i, true);
    pb.set(j, true);
    let ghost old_changed = changed@;
    let na: &TreeNode = fa[i];
    let nb: &TreeNode = fb[j];
    proof {
        assert(fav[i as int] == na@);
        assert(fbv[j as int] == nb@);
    }
    match changed_fields(na, nb) {
        Some(fields) => {
            let rec = ChangedNode {
                id: nb.id.clone(),
                name: nb.name.clone(),
                fields,
                before: Some(clone_node(na)),
                after: Some(clone_node(nb)),
            };
            changed.push(rec);
            proof {
                assert(np.drop_last() =~= pairs);
                assert(changed@.map_values(|c: ChangedNode| changed_view(c)) =~= old_changed.map_values(|c: ChangedNode| changed_view(c)).push(changed_view(rec)));
            }
        },
        None => {
            proof {
                assert(np.drop_last() =~= pairs);
            }
        },
    }
    proof {
        assert forall|k: int| 0 <= k < pa@.len() implies (pa@[k] <==> paired_a(np, k)) by {
            if k == i {
                assert(np[np.len() - 1].0 == i);
            } else {
                if paired_a(pairs, k) {
                    let p = choose|p: int| 0 <= p < pairs.len() && (#[trigger] pairs[p]).0 == k;
                    assert(np[p].0 == k);
                }
                if paired_a(np, k) {
                    let p = choose|p: int| 0 <= p < np.len() && (#[trigger] np[p]).0 == k;
                    assert(pairs[p].0 == k);
                }
            }
        }
        assert forall|k: int| 0 <= k < pb@.len() implies (pb@[k] <==> paired_b(np, k)) by {
            if k == j {
                assert(np[np.len() - 1].1 == j);
            } else {
                if paired_b(pairs, k) {
                    let p = choose|p: int| 0 <= p < pairs.len() && (#[trigger] pairs[p]).1 == k;
                    assert(np[p].1 == k);
                }
                if paired_b(np, k) {
                    let p = choose|p: int| 0 <= p < np.len() && (#[trigger] np[p]).1 == k;
                    assert(pairs[p].1 == k);
                }
            }
        }
        assert forall|p: int, q: int| 0 <= p < q < np.len() implies (#[trigger] np[p]).0 != (#[trigger] np[q]).0 && np[p].1 != np[q].1 by {
            if q == np.len() - 1 {
                assert(np[p] == pairs[p]);
                if pairs[p].0 == i {
                    assert(paired_a(pairs, i as int));
                }
                if pairs[p].1 == j {
                    assert(paired_b(pairs, j as int));
                }
            } else {
                assert(np[p] == pairs[p] && np[q] == pairs[q]);
            }
        }
        assert forall|p: int| 0 <= p < np.len() implies may_pair(fav, fbv, (#[trigger] np[p]).0, np[p].1) by {
            if p < pairs.len() {
                assert(np[p] == pairs[p]);
            }
        }
    }
    Ghost(np)
}

/// The positions listed by `e` are exactly the entries of `f`, increasing.
pub open spec fn entries_listed(f: Seq<TreeView>, e: Seq<usize>) -> bool {
    &&& forall|p: int| 0 <= p < e.len() ==> is_entry(f, #[trigger] e[p] as int)
    &&& forall|p: int, q: int| 0 <= p < q < e.len() ==> e[p] < e[q]
    &&& forall|k: int| is_entry(f, k) ==> exists|p: int| 0 <= p < e.len() && #[trigger] e[p] == k
}

/// Pairs entries of equal id.
fn pair_by_id(
    fa: &Vec<&TreeNode>,
    fb: &Vec<&TreeNode>,
    ea: &Vec<usize>,
    eb: &Vec<usize>,
    pa: &mut Vec<bool>,
    pb: &mut Vec<bool>,
    changed: &mut Vec<ChangedNode>,
) -> (pairs: Ghost<Seq<(int, int)>>)
    requires
        entries_listed(views_of(fa@), ea@),
        entries_listed(views_of(fb@), eb@),
        state_ok(views_of(fa@), views_of(fb@), old(pa)@, old(pb)@, Seq::empty(), old(changed)@),
    ensures
        state_ok(views_of(fa@), views_of(fb@), final(pa)@, final(pb)@, pairs@, final(changed)@),
        forall|j: int| is_entry(views_of(fb@), j) && has_id(views_of(fa@), views_of(fb@)[j].id) ==> final(pb)@[j],
        forall|i: int| is_entry(views_of(fa@), i) && has_id(views_of(fb@), views_of(fa@)[i].id) ==> final(pa)@[i],
        forall|p: int| 0 <= p < pairs@.len() ==> views_of(fa@)[(#[trigger] pairs@[p]).0].id == views_of(fb@)[pairs@[p].1].id,
{
    let ghost fav = views_of(fa@);
    let ghost fbv = views_of(fb@);
    let ghost mut pairs: Seq<(int, int)> = Seq::empty();
    let mut e: usize = 0;
    while e < eb.len()
        invariant
            fav == views_of(fa@),
            fbv == views_of(fb@),
            fav.len() == fa@.len(),
            fbv.len() == fb@.len(),
            entries_listed(fav, ea@),
            entries_listed(fbv, eb@),
            e <= eb@.len(),
            state_ok(fav, fbv, pa@, pb@, pairs, changed@),
            forall|p: int| 0 <= p < pairs.len() ==> fav[(#[trigger] pairs[p]).0].id == fbv[pairs[p].1].id,
            forall|p: int| 0 <= p < pairs.len() ==> exists|e2: int| 0 <= e2 < e && #[trigger] eb@[e2] == (#[trigger] pairs[p]).1,
            forall|e2: int| 0 <= e2 < e && has_id(fav, fbv[eb@[e2] as int].id) ==> pb@[#[trigger] eb@[e2] as int],
        decreases eb@.len() - e,
    {
        let j = eb[e];
        proof {
            assert(is_entry(fbv, j as int));
            assert(fbv[j as int].id == fb@[j as int].id@);
        }
        let mut k: usize = 0;
        while k < ea.len() && !fa[ea[k]].id.eq(&fb[j].id)
            invariant
                fav == views_of(fa@),
                fbv == views_of(fb@),
                fav.len() == fa@.len(),
                entries_listed(fav, ea@),
                j < fb@.len(),
                fbv[j as int].id == fb@[j as int].id@,
                k <= ea@.len(),
                forall|k2: int| 0 <= k2 < k ==> fav[#[trigger] ea@[k2] as int].id != fbv[j as int].id,
            decreases ea@.len() - k,
        {
            proof {
                assert(is_entry(fav, ea@[k as int] as int));
                assert(fav[ea@[k as int] as int].id == fa@[ea@[k as int] as int].id@);
            }
            k += 1;
        }
        if k < ea.len() {
            let i = ea[k];
            proof {
                assert(is_entry(fav, i as int));
                assert(fav[i as int].id == fa@[i as int].id@);
                assert(fav[i as int].id == fbv[j as int].id);
                // j has not been paired yet: earlier steps paired earlier entries
                if pb@[j as int] {
                    let p = choose|p: int| 0 <= p < pairs.len() && (#[trigger] pairs[p]).1 == j;
                    let e2 = choose|e2: int| 0 <= e2 < e && #[trigger] eb@[e2] == (#[trigger] pairs[p]).1;
                    assert(eb@[e2] < eb@[e as int]);
                }
                if pa@[i as int] {
                    let p = choose|p: int| 0 <= p < pairs.len() && (#[trigger] pairs[p]).0 == i;
                    let e2 = choose|e2: int| 0 <= e2 < e && #[trigger] eb@[e2] == (#[trigger] pairs[p]).1;
                    assert(eb@[e2] < eb@[e as int]);
                    lemma_entries_distinct(fbv, pairs[p].1, j as int);
                }
            }
            let ghost old_pairs = pairs;
            let Ghost(np) = record_pair(fa, fb, i, j, pa, pb, changed, Ghost(pairs));
            proof {
                pairs = np;
                assert forall|p: int| 0 <= p < pairs.len() implies exists|e2: int| 0 <= e2 < e + 1 && #[trigger] eb@[e2] == (#[trigger] pairs[p]).1 by {
                    if p < old_pairs.len() {
                        assert(pairs[p] == old_pairs[p]);
                        let e2 = choose|e2: int| 0 <= e2 < e && #[trigger] eb@[e2] == (#[trigger] old_pairs[p]).1;
                        assert(eb@[e2] == pairs[p].1);
                    } else {
                        assert(eb@[e as int] == pairs[p].1);
                    }
                }
                assert forall|p: int| 0 <= p < pairs.len() implies fav[(#[trigger] pairs[p]).0].id == fbv[pairs[p].1].id by {
                    if p < old_pairs.len() {
                        assert(pairs[p] == old_pairs[p]);
                    }
                }
            }
        } else {
            proof {
                if has_id(fav, fbv[j as int].id) {
                    let t = choose|t: int| 0 <= t < fav.len() && (#[trigger] fav[t]).id == fbv[j as int].id;
                    lemma_entry_exists(fav, t);
                    let k2 = choose|k2: int| is_entry(fav, k2) && fav[k2].id == fav[t].id;
                    let p = choose|p: int| 0 <= p < ea@.len() && #[trigger] ea@[p] == k2;
                    assert(fav[ea@[p] as int].id != fbv[j as int].id);
                }
            }
        }
        e += 1;
    }
    proof {
        assert forall|j: int| is_entry(fbv, j) && has_id(fav, fbv[j].id) implies pb@[j] by {
            let e2 = choose|e2: int| 0 <= e2 < eb@.len() && #[trigger] eb@[e2] == j;
        }
        assert forall|i: int| is_entry(fav, i) && has_id(fbv, fav[i].id) implies pa@[i] by {
            let t = choose|t: int| 0 <= t < fbv.len() && (#[trigger] fbv[t]).id == fav[i].id;
            lemma_entry_exists(fbv, t);
            let j = choose|j: int| is_entry(fbv, j) && fbv[j].id == fbv[t].id;
            let e2 = choose|e2: int| 0 <= e2 < eb@.len() && #[trigger] eb@[e2] == j;
            assert(has_id(fav, fbv[j].id));
            assert(pb@[j]);
            let p = choose|p: int| 0 <= p < pairs.len() && (#[trigger] pairs[p]).1 == j;
            let i2 = pairs[p].0;
            assert(may_pair(fav, fbv, i2, j));
            assert(fav[i2].id == fbv[j].id);
            if i2 != i {
                lemma_entries_distinct(fav, i2, i);
            }
            assert(paired_a(pairs, i));
        }
    }
    Ghost(pairs)
}

/* ------------------------------ name fallback ------------------------------- */

/// Squared geometry distance of two nodes: the saturated squares of the
/// x, y, width and height differences, summed (differences and sum wrap on
/// overflow, as in a release build).
pub open spec fn geo_spec(a: TreeView, b: TreeView) -> i64 {
    let dx = sat_square(a.x.wrapping_sub(b.x) as int) as i64;
    let dy = sat_square(a.y.wrapping_sub(b.y) as int) as i64;
    let dw = sat_square(a.width.wrapping_sub(b.width) as int) as i64;
    let dh = sat_square(a.height.wrapping_sub(b.height) as int) as i64;
    dx.wrapping_add(dy).wrapping_add(dw).wrapping_add(dh)
}

pub fn geo_distance(a: &TreeNode, b: &TreeNode) -> (r: i64)
    ensures
        r == geo_spec(a@, b@),
{
    let dx = saturating_square(a.x.wrapping_sub(b.x));
    let dy = saturating_square(a.y.wrapping_sub(b.y));
    let dw = saturating_square(a.width.wrapping_sub(b.width));
    let dh = saturating_square(a.height.wrapping_sub(b.height));
    dx.wrapping_add(dy).wrapping_add(dw).wrapping_add(dh)
}

/// The cost matrix of a name group: `n = max(rows, columns)`, entries
/// `COST_INF` except real row/column pairs of equal type, which hold their
/// geometry distance.
pub open spec fn cost_ok(fa: Seq<TreeView>, fb: Seq<TreeView>, members: Seq<usize>, cands: Seq<usize>, cost: Seq<Vec<i64>>) -> bool {
    let n = if members.len() >= cands.len() { members.len() } else { cands.len() };
    &&& is_square(cost, n as int)
    &&& forall|g: int, c: int| 0 <= g < n && 0 <= c < n ==> (#[trigger] cost[g]@[c]) == (
        if g < members.len() && c < cands.len() && fa[cands[c] as int].node_type == fb[members[g] as int].node_type {
            geo_spec(fa[cands[c] as int], fb[members[g] as int])
        } else {
            COST_INF
        })
}

/// Member `g` of a name group claims a candidate: the assignment gives it a
/// real candidate at a cost below `COST_INF`.
pub open spec fn group_claims(cost: Seq<Vec<i64>>, a: Seq<usize>, na: int, g: int) -> bool {
    a[g] < na && cost[g]@[a[g] as int] < COST_INF
}

/// Member `g` takes the candidate it claims: no earlier member claimed it.
#[verifier::opaque]
pub open spec fn group_takes(cost: Seq<Vec<i64>>, a: Seq<usize>, na: int, g: int) -> bool {
    &&& group_claims(cost, a, na, g)
    &&& forall|h: int| 0 <= h < g && #[trigger] group_claims(cost, a, na, h) ==> a[h] != a[g]
}

/// Some member below `g` took candidate `c`.
#[verifier::opaque]
pub open spec fn col_taken(cost: Seq<Vec<i64>>, a: Seq<usize>, na: int, g: int, c: int) -> bool {
    exists|h: int| 0 <= h < g && #[trigger] group_takes(cost, a, na, h) && a[h] == c
}

/// The pairs of a name group (`members` of the second tree, `cands` of the
/// first) follow an assignment `a` of its cost matrix, of least total cost
/// when the matrix is bounded: member `g` is paired exactly when it takes a
/// candidate, and then with that candidate.
#[verifier::opaque]
pub open spec fn group_assigned(
    fa: Seq<TreeView>,
    fb: Seq<TreeView>,
    members: Seq<usize>,
    cands: Seq<usize>,
    cost: Seq<Vec<i64>>,
    a: Seq<usize>,
    pairs: Seq<(int, int)>,
) -> bool {
    let na = cands.len() as int;
    let nb = members.len() as int;
    let n = if nb >= na { nb } else { na };
    &&& na > 0 ==> {
        &&& cost_ok(fa, fb, members, cands, cost)
        &&& a.len() == n
        &&& forall|k: int| 0 <= k < n ==> #[trigger] a[k] < n
        &&& bounded_costs(cost) ==> is_permutation(a, n)
        &&& bounded_costs(cost) ==> forall|b: Seq<usize>|
            is_permutation(b, n) ==> assignment_cost(cost, a) <= #[trigger] assignment_cost(cost, b)
    }
    &&& forall|g: int| 0 <= g < nb ==> (paired_b(pairs, #[trigger] members[g] as int) <==> (na > 0 && group_takes(cost, a, na, g)))
    &&& forall|g: int|
        0 <= g < nb && na > 0 && #[trigger] group_takes(cost, a, na, g) ==> pairs.contains(
            (cands[a[g] as int] as int, members[g] as int),
        )
}

/// A name group whose members are all settled follows its assignment.
proof fn lemma_group_settled(
    fa: Seq<TreeView>,
    fb: Seq<TreeView>,
    members: Seq<usize>,
    cands: Seq<usize>,
    cost: Seq<Vec<i64>>,
    a: Seq<usize>,
    pairs: Seq<(int, int)>,
    pb: Seq<bool>,
)
    requires
        forall|j: int| 0 <= j < pb.len() ==> (pb[j] <==> paired_b(pairs, j)),
        forall|g: int| 0 <= g < members.len() ==> (#[trigger] members[g] as int) < pb.len(),
        ({
            let na = cands.len() as int;
            let nb = members.len() as int;
            let n = if nb >= na { nb } else { na };
            &&& na > 0 ==> {
                &&& cost_ok(fa, fb, members, cands, cost)
                &&& a.len() == n
                &&& forall|k: int| 0 <= k < n ==> #[trigger] a[k] < n
                &&& bounded_costs(cost) ==> is_permutation(a, n)
                &&& bounded_costs(cost) ==> forall|b: Seq<usize>|
                    is_permutation(b, n) ==> assignment_cost(cost, a) <= #[trigger] assignment_cost(cost, b)
            }
            &&& na > 0 ==> forall|g2: int| 0 <= g2 < nb ==> (pb[#[trigger] members[g2] as int] <==> group_takes(cost, a, na, g2))
            &&& na == 0 ==> forall|g2: int| 0 <= g2 < nb ==> !pb[#[trigger] members[g2] as int]
            &&& na > 0 ==> forall|g2: int|
                0 <= g2 < nb && #[trigger] group_takes(cost, a, na, g2) ==> pairs.contains(
                    (cands[a[g2] as int] as int, members[g2] as int),
                )
        }),
    ensures
        group_assigned(fa, fb, members, cands, cost, a, pairs),
{
    reveal(group_assigned);
}

/// One member's turn in settling a name group: member `g` is paired exactly
/// when it takes its candidate, which then counts as taken.
proof fn lemma_group_step(
    cost: Seq<Vec<i64>>,
    a: Seq<usize>,
    na: int,
    g: int,
    members: Seq<usize>,
    cands: Seq<usize>,
    pa_b: Seq<bool>,
    pa: Seq<bool>,
    pb_b: Seq<bool>,
    pb: Seq<bool>,
    pairs_b: Seq<(int, int)>,
    pairs: Seq<(int, int)>,
    paired: bool,
)
    requires
        na > 0,
        na <= cands.len(),
        0 <= g < members.len(),
        g < a.len(),
        forall|p: int, q: int| 0 <= p < q < cands.len() ==> cands[p] != cands[q],
        forall|p: int, q: int| 0 <= p < q < members.len() ==> members[p] != members[q],
        forall|c: int| 0 <= c < na ==> (pa_b[#[trigger] cands[c] as int] <==> col_taken(cost, a, na, g, c)),
        forall|g2: int| 0 <= g2 < g ==> (pb_b[#[trigger] members[g2] as int] <==> group_takes(cost, a, na, g2)),
        forall|g2: int|
            0 <= g2 < g && #[trigger] group_takes(cost, a, na, g2) ==> pairs_b.contains(
                (cands[a[g2] as int] as int, members[g2] as int),
            ),
        paired ==> {
            &&& group_claims(cost, a, na, g)
            &&& !pa_b[cands[a[g] as int] as int]
            &&& pairs == pairs_b.push((cands[a[g] as int] as int, members[g] as int))
            &&& pa == pa_b.update(cands[a[g] as int] as int, true)
            &&& pb == pb_b.update(members[g] as int, true)
        },
        !paired ==> pa == pa_b && pb == pb_b && pairs == pairs_b,
        !paired && group_claims(cost, a, na, g) ==> pa_b[cands[a[g] as int] as int],
        forall|c: int| 0 <= c < cands.len() ==> (#[trigger] cands[c] as int) < pa_b.len(),
        forall|g2: int| 0 <= g2 < members.len() ==> (#[trigger] members[g2] as int) < pb_b.len(),
        !pb_b[members[g] as int],
    ensures
        forall|c: int| 0 <= c < na ==> (pa[#[trigger] cands[c] as int] <==> col_taken(cost, a, na, g + 1, c)),
        forall|g2: int| 0 <= g2 < g + 1 ==> (pb[#[trigger] members[g2] as int] <==> group_takes(cost, a, na, g2)),
        forall|g2: int|
            0 <= g2 < g + 1 && #[trigger] group_takes(cost, a, na, g2) ==> pairs.contains(
                (cands[a[g2] as int] as int, members[g2] as int),
            ),
{
    reveal(group_takes);
    reveal(col_taken);
    let col = a[g] as int;
    if paired {
        assert(!col_taken(cost, a, na, g, col));
        assert forall|h: int| 0 <= h < g && #[trigger] group_claims(cost, a, na, h) implies a[h] != a[g] by {
            if a[h] == a[g] {
                lemma_first_claimant(cost, a, na, g, col);
            }
        }
        assert(group_takes(cost, a, na, g));
    } else {
        assert(!group_takes(cost, a, na, g)) by {
            if group_takes(cost, a, na, g) {
                assert(col_taken(cost, a, na, g, col));
                let h = choose|h: int| 0 <= h < g && #[trigger] group_takes(cost, a, na, h) && a[h] == col;
                assert(group_claims(cost, a, na, h));
            }
        }
    }
    assert forall|c: int| 0 <= c < na implies (pa[#[trigger] cands[c] as int] <==> col_taken(cost, a, na, g + 1, c)) by {
        if col_taken(cost, a, na, g + 1, c) {
            let h = choose|h: int| 0 <= h < g + 1 && #[trigger] group_takes(cost, a, na, h) && a[h] == c;
            if h < g {
                assert(col_taken(cost, a, na, g, c));
            }
        }
        if col_taken(cost, a, na, g, c) {
            let h = choose|h: int| 0 <= h < g && #[trigger] group_takes(cost, a, na, h) && a[h] == c;
            assert(0 <= h < g + 1);
        }
        if paired && c == col {
            assert(0 <= g < g + 1 && group_takes(cost, a, na, g) && a[g] == c);
        }
        if paired && c != col {
            if c < col {
                assert(cands[c] != cands[col]);
            } else {
                assert(cands[col] != cands[c]);
            }
        }
    }
    assert forall|g2: int| 0 <= g2 < g + 1 implies (pb[#[trigger] members[g2] as int] <==> group_takes(cost, a, na, g2)) by {
        if g2 < g {
            assert(members[g2] != members[g]);
        }
    }
    assert forall|g2: int|
        0 <= g2 < g + 1 && #[trigger] group_takes(cost, a, na, g2) implies pairs.contains(
            (cands[a[g2] as int] as int, members[g2] as int),
        ) by {
        if g2 < g {
            let q = choose|q: int| 0 <= q < pairs_b.len() && pairs_b[q] == (cands[a[g2] as int] as int, members[g2] as int);
            assert(pairs[q] == pairs_b[q]);
        } else {
            assert(pairs[pairs.len() - 1] == (cands[col] as int, members[g] as int));
        }
    }
}

/// If some member below `g` claims candidate `c`, the first of them took it.
proof fn lemma_first_claimant(cost: Seq<Vec<i64>>, a: Seq<usize>, na: int, g: int, c: int)
    requires
        exists|h: int| 0 <= h < g && #[trigger] group_claims(cost, a, na, h) && a[h] == c,
    ensures
        col_taken(cost, a, na, g, c),
    decreases g,
{
    reveal(group_takes);
    reveal(col_taken);
    if exists|h: int| 0 <= h < g - 1 && #[trigger] group_claims(cost, a, na, h) && a[h] == c {
        lemma_first_claimant(cost, a, na, g - 1, c);
        let h = choose|h: int| 0 <= h < g - 1 && #[trigger] group_takes(cost, a, na, h) && a[h] == c;
        assert(0 <= h < g && group_takes(cost, a, na, h) && a[h] == c);
    } else {
        let h = g - 1;
        assert(group_claims(cost, a, na, h) && a[h] == c);
        assert(group_takes(cost, a, na, h));
    }
}


/// Entry `j` of `f` carries the name `n` and its id does not occur in
/// `other`: it can only be paired by name.
pub open spec fn unmatched_named(f: Seq<TreeView>, other: Seq<TreeView>, n: Seq<char>, j: int) -> bool {
    is_entry(f, j) && !has_id(other, f[j].id) && f[j].name == n
}

/// `s` lists, in increasing id order, the entries of `f` named `n` whose id
/// does not occur in `other`: the name group `n` on the side of `f`.
pub open spec fn name_group(f: Seq<TreeView>, other: Seq<TreeView>, n: Seq<char>, s: Seq<usize>) -> bool {
    &&& forall|p: int| 0 <= p < s.len() ==> unmatched_named(f, other, n, #[trigger] s[p] as int)
    &&& forall|j: int| unmatched_named(f, other, n, j) ==> s.contains(j as usize)
    &&& forall|p: int, q: int| 0 <= p < q < s.len() ==> seq_lt(f[s[p] as int].id, f[s[q] as int].id)
}

/// Two sequences with the same elements, each strictly increasing by id,
/// are equal.
proof fn lemma_sorted_unique(f: Seq<TreeView>, s1: Seq<usize>, s2: Seq<usize>)
    requires
        forall|x: usize| s1.contains(x) <==> s2.contains(x),
        forall|p: int, q: int| 0 <= p < q < s1.len() ==> seq_lt(f[s1[p] as int].id, f[s1[q] as int].id),
        forall|p: int, q: int| 0 <= p < q < s2.len() ==> seq_lt(f[s2[p] as int].id, f[s2[q] as int].id),
    ensures
        s1 == s2,
    decreases s1.len(),
{
    if s1.len() == 0 {
        if s2.len() > 0 {
            assert(s2.contains(s2[0]));
        }
        assert(s1 =~= s2);
    } else {
        assert(s1.contains(s1[0]));
        let q = choose|q: int| 0 <= q < s2.len() && s2[q] == s1[0];
        assert(s2.contains(s2[0]));
        let p = choose|p: int| 0 <= p < s1.len() && s1[p] == s2[0];
        if q > 0 {
            assert(seq_lt(f[s2[0] as int].id, f[s2[q] as int].id));
            if p == 0 {
                lemma_lt_irrefl(f[s1[0] as int].id);
            } else {
                assert(seq_lt(f[s1[0] as int].id, f[s1[p] as int].id));
                lemma_lt_trans(f[s1[0] as int].id, f[s1[p] as int].id, f[s1[0] as int].id);
                lemma_lt_irrefl(f[s1[0] as int].id);
            }
        }
        assert(s2[0] == s1[0]);
        let t1 = s1.drop_first();
        let t2 = s2.drop_first();
        assert forall|x: usize| t1.contains(x) <==> t2.contains(x) by {
            if t1.contains(x) {
                let i = choose|i: int| 0 <= i < t1.len() && t1[i] == x;
                assert(s1[i + 1] == x);
                if x == s1[0] {
                    assert(seq_lt(f[s1[0] as int].id, f[s1[i + 1] as int].id));
                    lemma_lt_irrefl(f[x as int].id);
                }
                assert(s1.contains(x));
                let j = choose|j: int| 0 <= j < s2.len() && s2[j] == x;
                assert(t2[j - 1] == x);
            }
            if t2.contains(x) {
                let i = choose|i: int| 0 <= i < t2.len() && t2[i] == x;
                assert(s2[i + 1] == x);
                if x == s2[0] {
                    assert(seq_lt(f[s2[0] as int].id, f[s2[i + 1] as int].id));
                    lemma_lt_irrefl(f[x as int].id);
                }
                assert(s2.contains(x));
                let j = choose|j: int| 0 <= j < s1.len() && s1[j] == x;
                assert(t1[j - 1] == x);
            }
        }
        assert forall|a: int, b: int| 0 <= a < b < t1.len() implies seq_lt(f[t1[a] as int].id, f[t1[b] as int].id) by {
            assert(t1[a] == s1[a + 1] && t1[b] == s1[b + 1]);
        }
        assert forall|a: int, b: int| 0 <= a < b < t2.len() implies seq_lt(f[t2[a] as int].id, f[t2[b] as int].id) by {
            assert(t2[a] == s2[a + 1] && t2[b] == s2[b + 1]);
        }
        lemma_sorted_unique(f, t1, t2);
        assert(s1 =~= s2) by {
            assert forall|i: int| 0 <= i < s1.len() implies s1[i] == s2[i] by {
                if i > 0 {
                    assert(s1[i] == t1[i - 1]);
                    assert(s2[i] == t2[i - 1]);
                }
            }
        }
    }
}

/// A name group has one listing.
proof fn lemma_name_group_unique(f: Seq<TreeView>, other: Seq<TreeView>, n: Seq<char>, s1: Seq<usize>, s2: Seq<usize>)
    requires
        name_group(f, other, n, s1),
        name_group(f, other, n, s2),
    ensures
        s1 == s2,
{
    assert forall|x: usize| s1.contains(x) <==> s2.contains(x) by {
        if s1.contains(x) {
            let p = choose|p: int| 0 <= p < s1.len() && s1[p] == x;
            assert(unmatched_named(f, other, n, s1[p] as int));
            assert((x as int) as usize == x);
        }
        if s2.contains(x) {
            let p = choose|p: int| 0 <= p < s2.len() && s2[p] == x;
            assert(unmatched_named(f, other, n, s2[p] as int));
            assert((x as int) as usize == x);
        }
    }
    lemma_sorted_unique(f, s1, s2);
}

/// Pairs added later, none of them joining a member of the group, leave a
/// settled name group settled.
proof fn lemma_group_extend(
    fa: Seq<TreeView>,
    fb: Seq<TreeView>,
    members: Seq<usize>,
    cands: Seq<usize>,
    cost: Seq<Vec<i64>>,
    a: Seq<usize>,
    pairs: Seq<(int, int)>,
    pairs2: Seq<(int, int)>,
)
    requires
        group_assigned(fa, fb, members, cands, cost, a, pairs),
        pairs.len() <= pairs2.len(),
        pairs2.subrange(0, pairs.len() as int) == pairs,
        forall|p: int| pairs.len() <= p < pairs2.len() ==> !members.contains((#[trigger] pairs2[p]).1 as usize),
    ensures
        group_assigned(fa, fb, members, cands, cost, a, pairs2),
{
    reveal(group_assigned);
    let na = cands.len() as int;
    assert forall|g: int| 0 <= g < members.len() implies (paired_b(pairs2, #[trigger] members[g] as int) <==> paired_b(pairs, members[g] as int)) by {
        let m = members[g] as int;
        if paired_b(pairs2, m) {
            let p = choose|p: int| 0 <= p < pairs2.len() && (#[trigger] pairs2[p]).1 == m;
            if p >= pairs.len() {
                assert(members.contains(pairs2[p].1 as usize));
            } else {
                assert(pairs[p] == pairs2[p]);
            }
        }
        if paired_b(pairs, m) {
            let p = choose|p: int| 0 <= p < pairs.len() && (#[trigger] pairs[p]).1 == m;
            assert(pairs2[p] == pairs[p]);
        }
    }
    assert forall|g: int|
        0 <= g < members.len() && na > 0 && #[trigger] group_takes(cost, a, na, g) implies pairs2.contains(
            (cands[a[g] as int] as int, members[g] as int),
        ) by {
        let p = choose|p: int| 0 <= p < pairs.len() && pairs[p] == (cands[a[g] as int] as int, members[g] as int);
        assert(pairs2[p] == pairs[p]);
    }
}

/// Every name group of the second tree that has members is paired with the
/// same-name group of the first tree as its assignment of least total
/// geometry distance says (see `group_assigned`).
pub open spec fn groups_settled(fa: Seq<TreeView>, fb: Seq<TreeView>, pairs: Seq<(int, int)>) -> bool {
    forall|n: Seq<char>, members: Seq<usize>, cands: Seq<usize>|
        n.len() > 0 && members.len() > 0 && #[trigger] name_group(fb, fa, n, members) && #[trigger] name_group(fa, fb, n, cands)
            ==> exists|cost: Seq<Vec<i64>>, x: Seq<usize>| group_assigned(fa, fb, members, cands, cost, x, pairs)
}

/// The groups settled so far, by name: both listings, the cost matrix and
/// the assignment.
spec fn settled_so_far(
    fa: Seq<TreeView>,
    fb: Seq<TreeView>,
    gm: Map<Seq<char>, (Seq<usize>, Seq<usize>, Seq<Vec<i64>>, Seq<usize>)>,
    pairs: Seq<(int, int)>,
) -> bool {
    forall|n: Seq<char>| #[trigger] gm.dom().contains(n) ==> {
        &&& n.len() > 0
        &&& name_group(fb, fa, n, gm[n].0)
        &&& name_group(fa, fb, n, gm[n].1)
        &&& group_assigned(fa, fb, gm[n].0, gm[n].1, gm[n].2, gm[n].3, pairs)
    }
}

/// Settling the group of a new name keeps the earlier groups settled.
proof fn lemma_settled_extend(
    fa: Seq<TreeView>,
    fb: Seq<TreeView>,
    gm: Map<Seq<char>, (Seq<usize>, Seq<usize>, Seq<Vec<i64>>, Seq<usize>)>,
    pairs: Seq<(int, int)>,
    pairs2: Seq<(int, int)>,
    members: Seq<usize>,
    n: Seq<char>,
)
    requires
        settled_so_far(fa, fb, gm, pairs),
        pairs.len() <= pairs2.len(),
        pairs2.subrange(0, pairs.len() as int) == pairs,
        forall|p: int| pairs.len() <= p < pairs2.len() ==> members.contains((#[trigger] pairs2[p]).1 as usize),
        forall|g: int| 0 <= g < members.len() ==> fb[#[trigger] members[g] as int].name == n,
        !gm.dom().contains(n),
    ensures
        settled_so_far(fa, fb, gm, pairs2),
{
    assert forall|n2: Seq<char>| #[trigger] gm.dom().contains(n2) implies {
        &&& n2.len() > 0
        &&& name_group(fb, fa, n2, gm[n2].0)
        &&& name_group(fa, fb, n2, gm[n2].1)
        &&& group_assigned(fa, fb, gm[n2].0, gm[n2].1, gm[n2].2, gm[n2].3, pairs2)
    } by {
        let m2 = gm[n2].0;
        assert forall|p: int| pairs.len() <= p < pairs2.len() implies !m2.contains((#[trigger] pairs2[p]).1 as usize) by {
            let x = pairs2[p].1 as usize;
            if m2.contains(x) {
                let g2 = choose|g2: int| 0 <= g2 < m2.len() && m2[g2] == x;
                assert(unmatched_named(fb, fa, n2, m2[g2] as int));
                let g = choose|g: int| 0 <= g < members.len() && members[g] == x;
                assert(fb[members[g] as int].name == n);
            }
        }
        lemma_group_extend(fa, fb, m2, gm[n2].1, gm[n2].2, gm[n2].3, pairs, pairs2);
    }
}

/// Once every unpaired entry of the second tree has been through its group,
/// all name groups are settled.
proof fn lemma_groups_settled(
    fa: Seq<TreeView>,
    fb: Seq<TreeView>,
    gm: Map<Seq<char>, (Seq<usize>, Seq<usize>, Seq<Vec<i64>>, Seq<usize>)>,
    pairs: Seq<(int, int)>,
    bs: Seq<usize>,
    pb0: Seq<bool>,
)
    requires
        settled_so_far(fa, fb, gm, pairs),
        forall|q: int| 0 <= q < bs.len() && fb[#[trigger] bs[q] as int].name.len() > 0 ==> gm.dom().contains(fb[bs[q] as int].name),
        forall|j: int| is_entry(fb, j) && !pb0[j] ==> bs.contains(j as usize),
        forall|j: int| is_entry(fb, j) && !has_id(fa, fb[j].id) ==> !pb0[j],
    ensures
        groups_settled(fa, fb, pairs),
{
    assert forall|n: Seq<char>, members: Seq<usize>, cands: Seq<usize>|
        n.len() > 0 && members.len() > 0 && #[trigger] name_group(fb, fa, n, members) && #[trigger] name_group(fa, fb, n, cands)
        implies exists|cost: Seq<Vec<i64>>, x: Seq<usize>| group_assigned(fa, fb, members, cands, cost, x, pairs) by {
        let j = members[0] as int;
        assert(unmatched_named(fb, fa, n, j));
        assert(bs.contains(j as usize));
        let q = choose|q: int| 0 <= q < bs.len() && bs[q] == j as usize;
        assert(fb[bs[q] as int].name == n);
        assert(gm.dom().contains(n));
        lemma_name_group_unique(fb, fa, n, members, gm[n].0);
        lemma_name_group_unique(fa, fb, n, cands, gm[n].1);
        assert(group_assigned(fa, fb, members, cands, gm[n].2, gm[n].3, pairs));
    }
}

fn build_cost(fa: &Vec<&TreeNode>, fb: &Vec<&TreeNode>, members: &Vec<usize>, cands: &Vec<usize>) -> (cost: Vec<Vec<i64>>)
    requires
        forall|g: int| 0 <= g < members@.len() ==> (#[trigger] members@[g]) < fb@.len(),
        forall|c: int| 0 <= c < cands@.len() ==> (#[trigger] cands@[c]) < fa@.len(),
    ensures
        cost_ok(views_of(fa@), views_of(fb@), members@, cands@, cost@),
{
    let ghost fav = views_of(fa@);
    let ghost fbv = views_of(fb@);
    let nb = members.len();
    let na = cands.len();
    let n = if nb >= na { nb } else { na };
    let mut cost: Vec<Vec<i64>> = Vec::new();
    let mut g: usize = 0;
    while g < n
        invariant
            fav == views_of(fa@),
            fbv == views_of(fb@),
            nb == members@.len(),
            na == cands@.len(),
            n == if nb >= na { nb } else { na },
            forall|g2: int| 0 <= g2 < members@.len() ==> (#[trigger] members@[g2]) < fb@.len(),
            forall|c: int| 0 <= c < cands@.len() ==> (#[trigger] cands@[c]) < fa@.len(),
            g <= n,
            cost@.len() == g,
            forall|g2: int| 0 <= g2 < g ==> (#[trigger] cost@[g2])@.len() == n,
            forall|g2: int, c: int| 0 <= g2 < g && 0 <= c < n ==> (#[trigger] cost@[g2]@[c]) == (
                if g2 < nb && c < na && fav[cands@[c] as int].node_type == fbv[members@[g2] as int].node_type {
                    geo_spec(fav[cands@[c] as int], fbv[members@[g2] as int])
                } else {
                    COST_INF
                }),
        decreases n - g,
    {
        let mut row: Vec<i64> = Vec::new();
        let mut c: usize = 0;
        while c < n
            invariant
                fav == views_of(fa@),
                fbv == views_of(fb@),
                nb == members@.len(),
                na == cands@.len(),
                g < n,
                forall|g2: int| 0 <= g2 < members@.len() ==> (#[trigger] members@[g2]) < fb@.len(),
                forall|c2: int| 0 <= c2 < cands@.len() ==> (#[trigger] cands@[c2]) < fa@.len(),
                c <= n,
                row@.len() == c,
                forall|c2: int| 0 <= c2 < c ==> (#[trigger] row@[c2]) == (
                    if g < nb && c2 < na && fav[cands@[c2] as int].node_type == fbv[members@[g as int] as int].node_type {
                        geo_spec(fav[cands@[c2] as int], fbv[members@[g as int] as int])
                    } else {
                        COST_INF
                    }),
            decreases n - c,
        {
            let mut v = COST_INF;
            if g < nb && c < na {
                let na_node: &TreeNode = fa[cands[c]];
                let nb_node: &TreeNode = fb[members[g]];
                proof {
                    assert(fav[cands@[c as int] as int] == na_node@);
                    assert(fbv[members@[g as int] as int] == nb_node@);
                }
                if na_node.node_type.eq(&nb_node.node_type) {
                    v = geo_distance(na_node, nb_node);
                }
            }
            row.push(v);
            c += 1;
        }
        cost.push(row);
        g += 1;
    }
    cost
}

/// Entries of the first tree, not yet paired, with the given name.
fn name_candidates(fa: &Vec<&TreeNode>, ea: &Vec<usize>, pa: &Vec<bool>, name: &String) -> (r: Vec<usize>)
    requires
        entries_listed(views_of(fa@), ea@),
        pa@.len() == fa@.len(),
    ensures
        forall|c: int| 0 <= c < r@.len() ==> is_entry(views_of(fa@), #[trigger] r@[c] as int) && !pa@[r@[c] as int]
            && views_of(fa@)[r@[c] as int].name == name@,
        forall|p: int, q: int| 0 <= p < q < r@.len() ==> r@[p] < r@[q],
        forall|i: int| is_entry(views_of(fa@), i) && !pa@[i] && views_of(fa@)[i].name == name@ ==> r@.contains(i as usize),
        r@.len() <= ea@.len(),
{
    let ghost fav = views_of(fa@);
    let mut r: Vec<usize> = Vec::new();
    let mut k: usize = 0;
    while k < ea.len()
        invariant
            fav == views_of(fa@),
            fav.len() == fa@.len(),
            entries_listed(fav, ea@),
            pa@.len() == fa@.len(),
            k <= ea@.len(),
            r@.len() <= k,
            forall|c: int| 0 <= c < r@.len() ==> is_entry(fav, #[trigger] r@[c] as int) && !pa@[r@[c] as int]
                && fav[r@[c] as int].name == name@,
            forall|p: int, q: int| 0 <= p < q < r@.len() ==> r@[p] < r@[q],
            forall|c: int| 0 <= c < r@.len() ==> exists|k2: int| 0 <= k2 < k && #[trigger] ea@[k2] == #[trigger] r@[c],
            forall|k2: int| 0 <= k2 < k && !pa@[#[trigger] ea@[k2] as int] && fav[ea@[k2] as int].name == name@ ==> r@.contains(ea@[k2]),
        decreases ea@.len() - k,
    {
        let i = ea[k];
        proof {
            assert(is_entry(fav, i as int));
            assert(fav[i as int].name == fa@[i as int].name@);
        }
        if !pa[i] && fa[i].name.eq(name) {
            proof {
                assert forall|c: int| 0 <= c < r@.len() implies r@[c] < i by {
                    let k2 = choose|k2: int| 0 <= k2 < k && #[trigger] ea@[k2] == r@[c];
                    assert(ea@[k2] < ea@[k as int]);
                }
            }
            let ghost old_r = r@;
            r.push(i);
            proof {
                assert forall|c: int| 0 <= c < r@.len() implies exists|k2: int| 0 <= k2 < k + 1 && #[trigger] ea@[k2] == #[trigger] r@[c] by {
                    if c < old_r.len() {
                        assert(r@[c] == old_r[c]);
                        let k2 = choose|k2: int| 0 <= k2 < k && #[trigger] ea@[k2] == old_r[c];
                        assert(ea@[k2] == r@[c]);
                    } else {
                        assert(ea@[k as int] == r@[c]);
                    }
                }
                assert forall|k2: int| 0 <= k2 < k + 1 && !pa@[#[trigger] ea@[k2] as int] && fav[ea@[k2] as int].name == name@ implies r@.contains(ea@[k2]) by {
                    if k2 < k {
                        let c = choose|c: int| 0 <= c < old_r.len() && old_r[c] == ea@[k2];
                        assert(r@[c] == ea@[k2]);
                    } else {
                        assert(r@[r@.len() - 1] == ea@[k2]);
                    }
                }
            }
        }
        k += 1;
    }
    proof {
        assert forall|i: int| is_entry(fav, i) && !pa@[i] && fav[i].name == name@ implies r@.contains(i as usize) by {
            let p = choose|p: int| 0 <= p < ea@.len() && #[trigger] ea@[p] == i;
            assert(!pa@[ea@[p] as int]);
        }
    }
    r
}

fn is_page_type_exec(t: &String) -> (r: bool)
    ensures
        r == is_page_type(t@),
{
    let c = chars_of(t.as_str());
    crate::text::eq_str(c.as_slice(), "artboard") || crate::text::eq_str(c.as_slice(), "page")
        || crate::text::eq_str(c.as_slice(), "frame") || crate::text::eq_str(c.as_slice(), "canvas")
        || crate::text::eq_str(c.as_slice(), "board")
}

/// Whether `n` is a page wrapper of the forest `roots`.
fn wrapper_check(roots: &Vec<TreeNode>, single: bool, n: &TreeNode) -> (r: bool)
    ensures
        r == is_wrapper(crate::tree::tree_views(roots@), single, n@),
{
    let ghost rv = crate::tree::tree_views(roots@);
    proof {
        crate::tree::lemma_tree_views_len(roots@);
    }
    if !single || !is_page_type_exec(&n.node_type) {
        return false;
    }
    let mut k: usize = 0;
    while k < roots.len()
        invariant
            single,
            is_page_type(n@.node_type),
            rv == crate::tree::tree_views(roots@),
            rv.len() == roots@.len(),
            forall|t: int| 0 <= t < roots@.len() ==> #[trigger] rv[t] == roots@[t]@,
            k <= roots@.len(),
            forall|t: int| 0 <= t < k ==> (#[trigger] rv[t]).id != n@.id,
        decreases roots@.len() - k,
    {
        if roots[k].id.eq(&n.id) {
            assert(rv[k as int].id == n@.id);
            return true;
        }
        k += 1;
    }
    false
}

/// Pairs the members of one name group with candidates of the first tree by
/// minimum total geometry distance among same-type nodes; the members left
/// over are added unless they are page wrappers.
#[verifier::spinoff_prover]
#[verifier::rlimit(80)]
fn settle_group(
    fa: &Vec<&TreeNode>,
    fb: &Vec<&TreeNode>,
    rb: &Vec<TreeNode>,
    single: bool,
    name: &String,
    members: &Vec<usize>,
    cands: &Vec<usize>,
    pa: &mut Vec<bool>,
    pb: &mut Vec<bool>,
    changed: &mut Vec<ChangedNode>,
    added: &mut Vec<TreeNode>,
    Ghost(pairs): Ghost<Seq<(int, int)>>,
    Ghost(qb): Ghost<Seq<int>>,
) -> (res: Ghost<(Seq<(int, int)>, Seq<int>, Seq<Vec<i64>>, Seq<usize>)>)
    requires
        state_ok(views_of(fa@), views_of(fb@), old(pa)@, old(pb)@, pairs, old(changed)@),
        name@.len() > 0,
        members@.len() < usize::MAX,
        cands@.len() < usize::MAX,
        forall|p: int, q: int| 0 <= p < q < members@.len() ==> members@[p] != members@[q],
        forall|g: int| 0 <= g < members@.len() ==> {
            let m = #[trigger] members@[g] as int;
            &&& is_entry(views_of(fb@), m)
            &&& !old(pb)@[m]
            &&& !has_id(views_of(fa@), views_of(fb@)[m].id)
            &&& views_of(fb@)[m].name == name@
            &&& !qb.contains(m)
        },
        forall|p: int, q: int| 0 <= p < q < cands@.len() ==> cands@[p] != cands@[q],
        forall|c: int| 0 <= c < cands@.len() ==> {
            let i = #[trigger] cands@[c] as int;
            &&& is_entry(views_of(fa@), i)
            &&& !old(pa)@[i]
            &&& !has_id(views_of(fb@), views_of(fa@)[i].id)
            &&& views_of(fa@)[i].name == name@
        },
        qb.no_duplicates(),
        forall|k: int| 0 <= k < qb.len() ==> is_entry(views_of(fb@), #[trigger] qb[k]) && !old(pb)@[qb[k]]
            && !is_wrapper(crate::tree::tree_views(rb@), single, views_of(fb@)[qb[k]]),
        old(added)@.map_values(|n: TreeNode| n@) == qb.map_values(|j: int| stripped(views_of(fb@)[j])),
    ensures
        state_ok(views_of(fa@), views_of(fb@), final(pa)@, final(pb)@, res@.0, final(changed)@),
        res@.0.len() >= pairs.len(),
        res@.0.subrange(0, pairs.len() as int) == pairs,
        forall|p: int| pairs.len() <= p < res@.0.len() ==> members@.contains((#[trigger] res@.0[p]).1 as usize),
        forall|j: int| 0 <= j < final(pb)@.len() && final(pb)@[j] != old(pb)@[j] ==> members@.contains(j as usize),
        forall|i: int| 0 <= i < old(pa)@.len() && old(pa)@[i] ==> final(pa)@[i],
        forall|j: int| 0 <= j < old(pb)@.len() && old(pb)@[j] ==> final(pb)@[j],
        forall|g: int| 0 <= g < members@.len() ==> final(pb)@[#[trigger] members@[g] as int] || res@.1.contains(members@[g] as int)
            || is_wrapper(crate::tree::tree_views(rb@), single, views_of(fb@)[members@[g] as int]),
        res@.1.no_duplicates(),
        forall|k: int| 0 <= k < res@.1.len() ==> is_entry(views_of(fb@), #[trigger] res@.1[k]) && !final(pb)@[res@.1[k]]
            && !is_wrapper(crate::tree::tree_views(rb@), single, views_of(fb@)[res@.1[k]]),
        forall|k: int| 0 <= k < res@.1.len() ==> qb.contains(#[trigger] res@.1[k]) || members@.contains(res@.1[k] as usize),
        forall|k: int| 0 <= k < qb.len() ==> res@.1.contains(#[trigger] qb[k]),
        final(added)@.map_values(|n: TreeNode| n@) == res@.1.map_values(|j: int| stripped(views_of(fb@)[j])),
        group_assigned(views_of(fa@), views_of(fb@), members@, cands@, res@.2, res@.3, res@.0),
{
    let ghost fav = views_of(fa@);
    let ghost fbv = views_of(fb@);
    let ghost rbv = crate::tree::tree_views(rb@);
    let ghost pa0 = pa@;
    let ghost pb0 = pb@;
    let ghost mut cur_pairs = pairs;
    let ghost mut cur_qb = qb;
    let nb = members.len();
    let na = cands.len();
    let assign: Vec<usize>;
    let cost: Vec<Vec<i64>>;
    if na == 0 {
        assign = Vec::new();
        cost = Vec::new();
    } else {
        cost = build_cost(fa, fb, members, cands);
        assign = hungarian_min(&cost);
    }
    proof {
        reveal(col_taken);
    }
    let mut g: usize = 0;
    while g < nb
        invariant
            fav == views_of(fa@),
            fbv == views_of(fb@),
            rbv == crate::tree::tree_views(rb@),
            nb == members@.len(),
            na == cands@.len(),
            na > 0 ==> cost_ok(fav, fbv, members@, cands@, cost@),
            na > 0 ==> assign@.len() == (if nb >= na { nb } else { na }),
            na > 0 ==> forall|k: int| 0 <= k < assign@.len() ==> assign@[k] < (if nb >= na { nb } else { na }),
            g <= nb,
            name@.len() > 0,
            state_ok(fav, fbv, pa@, pb@, cur_pairs, changed@),
            cur_pairs.len() >= pairs.len(),
            cur_pairs.subrange(0, pairs.len() as int) == pairs,
            forall|p: int| pairs.len() <= p < cur_pairs.len() ==> members@.contains((#[trigger] cur_pairs[p]).1 as usize),
            forall|p: int, q: int| 0 <= p < q < members@.len() ==> members@[p] != members@[q],
            forall|g2: int| 0 <= g2 < members@.len() ==> {
                let m = #[trigger] members@[g2] as int;
                &&& is_entry(fbv, m)
                &&& !pb0[m]
                &&& !has_id(fav, fbv[m].id)
                &&& fbv[m].name == name@
                &&& !qb.contains(m)
            },
            forall|g2: int| g <= g2 < members@.len() ==> !pb@[#[trigger] members@[g2] as int] && !cur_qb.contains(members@[g2] as int),
            forall|c: int| 0 <= c < cands@.len() ==> {
                let i = #[trigger] cands@[c] as int;
                &&& is_entry(fav, i)
                &&& !has_id(fbv, fav[i].id)
                &&& fav[i].name == name@
            },
            pa@.len() == pa0.len(),
            pb@.len() == pb0.len(),
            forall|j: int| 0 <= j < pb@.len() && pb@[j] != pb0[j] ==> members@.contains(j as usize),
            forall|i: int| 0 <= i < pa0.len() && pa0[i] ==> pa@[i],
            forall|j: int| 0 <= j < pb0.len() && pb0[j] ==> pb@[j],
            forall|g2: int| 0 <= g2 < g ==> pb@[#[trigger] members@[g2] as int] || cur_qb.contains(members@[g2] as int)
                || is_wrapper(rbv, single, fbv[members@[g2] as int]),
            cur_qb.no_duplicates(),
            forall|k: int| 0 <= k < cur_qb.len() ==> is_entry(fbv, #[trigger] cur_qb[k]) && !pb@[cur_qb[k]]
                && !is_wrapper(rbv, single, fbv[cur_qb[k]]),
            forall|k: int| 0 <= k < cur_qb.len() ==> qb.contains(#[trigger] cur_qb[k]) || members@.contains(cur_qb[k] as usize),
            forall|k: int| 0 <= k < qb.len() ==> cur_qb.contains(#[trigger] qb[k]),
            added@.map_values(|n: TreeNode| n@) == cur_qb.map_values(|j: int| stripped(fbv[j])),
            na > 0 ==> assign@.len() == (if nb >= na { nb } else { na }),
            forall|p: int, q: int| 0 <= p < q < cands@.len() ==> cands@[p] != cands@[q],
            na > 0 && bounded_costs(cost@) ==> is_permutation(assign@, (if nb >= na { nb } else { na }) as int),
            na > 0 && bounded_costs(cost@) ==> forall|b: Seq<usize>|
                is_permutation(b, (if nb >= na { nb } else { na }) as int) ==> assignment_cost(cost@, assign@)
                    <= #[trigger] assignment_cost(cost@, b),
            na > 0 ==> forall|g2: int| 0 <= g2 < g ==> (pb@[#[trigger] members@[g2] as int] <==> group_takes(cost@, assign@, na as int, g2)),
            na == 0 ==> forall|g2: int| 0 <= g2 < g ==> !pb@[#[trigger] members@[g2] as int],
            na > 0 ==> forall|c: int| 0 <= c < na ==> (pa@[#[trigger] cands@[c] as int] <==> col_taken(cost@, assign@, na as int, g as int, c)),
            na > 0 ==> forall|g2: int|
                0 <= g2 < g && #[trigger] group_takes(cost@, assign@, na as int, g2) ==> cur_pairs.contains(
                    (cands@[assign@[g2] as int] as int, members@[g2] as int),
                ),
        decreases nb - g,
    {
        let j = members[g];
        proof {
            assert(is_entry(fbv, j as int));
            assert(fbv[j as int] == fb@[j as int]@);
        }
        let ghost pa_b = pa@;
        let ghost pb_b = pb@;
        let ghost pairs_b = cur_pairs;
        let mut paired = false;
        if na > 0 {
            let col = assign[g];
            if col < na && cost[g][col] < COST_INF {
                let i = cands[col];
                if !pa[i] {
                    proof {
                        assert(cost@[g as int]@[col as int] != COST_INF);
                        assert(fav[i as int].node_type == fbv[j as int].node_type);
                        assert(may_pair(fav, fbv, i as int, j as int));
                        assert(!pb@[j as int]);
                    }
                    let ghost old_pairs = cur_pairs;
                    let Ghost(np) = record_pair(fa, fb, i, j, pa, pb, changed, Ghost(cur_pairs));
                    proof {
                        cur_pairs = np;
                        assert(cur_pairs.subrange(0, pairs.len() as int) =~= old_pairs.subrange(0, pairs.len() as int));
                        assert forall|p: int| pairs.len() <= p < cur_pairs.len() implies members@.contains((#[trigger] cur_pairs[p]).1 as usize) by {
                            if p == cur_pairs.len() - 1 {
                                assert(members@[g as int] == j);
                            } else {
                                assert(cur_pairs[p] == old_pairs[p]);
                            }
                        }
                        assert forall|g2: int| g + 1 <= g2 < members@.len() implies !pb@[#[trigger] members@[g2] as int] by {
                            assert(members@[g2] != members@[g as int]);
                        }
                        assert forall|k: int| 0 <= k < cur_qb.len() implies !pb@[#[trigger] cur_qb[k]] by {
                            if cur_qb[k] == j {
                                assert(cur_qb.contains(members@[g as int] as int));
                            }
                        }
                        assert forall|j2: int| 0 <= j2 < pb@.len() && pb@[j2] != pb0[j2] implies members@.contains(j2 as usize) by {
                            if j2 == j {
                                assert(members@[g as int] == j);
                            }
                        }
                    }
                    paired = true;
                }
            }
        }
        proof {
            if na > 0 {
                let col = assign@[g as int] as int;
                if !paired {
                    assert(pa@ == pa_b && pb@ == pb_b && cur_pairs == pairs_b);
                }
                lemma_group_step(
                    cost@,
                    assign@,
                    na as int,
                    g as int,
                    members@,
                    cands@,
                    pa_b,
                    pa@,
                    pb_b,
                    pb@,
                    pairs_b,
                    cur_pairs,
                    paired,
                );
            } else {
                assert(!paired);
                assert(pb@ == pb_b);
                assert forall|g2: int| 0 <= g2 < g + 1 implies !pb@[#[trigger] members@[g2] as int] by {}
            }
        }
        if !paired {
            let node: &TreeNode = fb[j];
            if !wrapper_check(rb, single, node) {
                let ghost old_added = added@;
                let ghost old_qb = cur_qb;
                let stripped_node = strip_children(node);
                assert(stripped_node@ == stripped(fbv[j as int]));
                added.push(stripped_node);
                proof {
                    cur_qb = cur_qb.push(j as int);
                    assert(added@.map_values(|n: TreeNode| n@) =~= old_added.map_values(|n: TreeNode| n@).push(stripped(fbv[j as int])));
                    assert(cur_qb.map_values(|j2: int| stripped(fbv[j2])) =~= old_qb.map_values(|j2: int| stripped(fbv[j2])).push(stripped(fbv[j as int])));
                    assert forall|k: int| 0 <= k < qb.len() implies cur_qb.contains(#[trigger] qb[k]) by {
                        assert(old_qb.contains(qb[k]));
                        let p = choose|p: int| 0 <= p < old_qb.len() && old_qb[p] == qb[k];
                        assert(cur_qb[p] == qb[k]);
                    }
                    assert forall|k: int| 0 <= k < cur_qb.len() implies qb.contains(#[trigger] cur_qb[k]) || members@.contains(cur_qb[k] as usize) by {
                        if k == cur_qb.len() - 1 {
                            assert(members@[g as int] == j);
                        } else {
                            assert(cur_qb[k] == old_qb[k]);
                        }
                    }
                    assert forall|g2: int| g + 1 <= g2 < members@.len() implies !cur_qb.contains(#[trigger] members@[g2] as int) by {
                        assert(members@[g2] != members@[g as int]);
                        if cur_qb.contains(members@[g2] as int) {
                            let p = choose|p: int| 0 <= p < cur_qb.len() && cur_qb[p] == members@[g2] as int;
                            assert(p < old_qb.len());
                            assert(old_qb[p] == members@[g2] as int);
                        }
                    }
                    assert forall|g2: int| 0 <= g2 < g + 1 implies pb@[#[trigger] members@[g2] as int] || cur_qb.contains(members@[g2] as int)
                        || is_wrapper(rbv, single, fbv[members@[g2] as int]) by {
                        if g2 == g {
                            assert(cur_qb[cur_qb.len() - 1] == j);
                        } else if old_qb.contains(members@[g2] as int) {
                            let p = choose|p: int| 0 <= p < old_qb.len() && old_qb[p] == members@[g2] as int;
                            assert(cur_qb[p] == members@[g2] as int);
                        }
                    }
                }
            }
        }
        g += 1;
    }
    proof {
        lemma_group_settled(fav, fbv, members@, cands@, cost@, assign@, cur_pairs, pb@);
    }
    Ghost((cur_pairs, cur_qb, cost@, assign@))
}

/* --------------------------------- sorting ---------------------------------- */

/// `r` holds the same positions as `s`, ordered by increasing id.
pub open spec fn sorted_by_id(f: Seq<TreeView>, s: Seq<usize>, r: Seq<usize>) -> bool {
    &&& r.len() == s.len()
    &&& forall|x: usize| r.contains(x) <==> s.contains(x)
    &&& forall|p: int, q: int| 0 <= p < q < r.len() ==> seq_lt(f[r[p] as int].id, f[r[q] as int].id)
}

#[verifier::spinoff_prover]
#[verifier::rlimit(40)]
proof fn lemma_insert_sorted(
    fv: Seq<TreeView>,
    s: Seq<usize>,
    k: int,
    old_r: Seq<usize>,
    r: Seq<usize>,
    pos: int,
    x: usize,
)
    requires
        0 <= k < s.len(),
        x == s[k],
        forall|p: int| 0 <= p < s.len() ==> (#[trigger] s[p]) < fv.len(),
        forall|p: int| 0 <= p < old_r.len() ==> old_r[p] < fv.len(),
        old_r.len() == k,
        forall|y: usize| old_r.contains(y) <==> s.subrange(0, k).contains(y),
        forall|p: int, q: int| 0 <= p < q < old_r.len() ==> seq_lt(fv[old_r[p] as int].id, fv[old_r[q] as int].id),
        0 <= pos <= old_r.len(),
        r == old_r.insert(pos, x),
        forall|p: int| 0 <= p < pos ==> seq_lt(fv[old_r[p] as int].id, fv[x as int].id),
        pos < old_r.len() ==> seq_lt(fv[x as int].id, fv[old_r[pos] as int].id),
    ensures
        r.len() == k + 1,
        forall|p: int| 0 <= p < r.len() ==> r[p] < fv.len(),
        forall|y: usize| r.contains(y) <==> s.subrange(0, k + 1).contains(y),
        forall|p: int, q: int| 0 <= p < q < r.len() ==> seq_lt(fv[r[p] as int].id, fv[r[q] as int].id),
{
    old_r.insert_ensures(pos, x);
    let sk = s.subrange(0, k);
    let sk1 = s.subrange(0, k + 1);
    assert(sk1 =~= sk.push(x));
    assert forall|p: int| 0 <= p < r.len() implies r[p] < fv.len() by {
        if p < pos {
        } else if p > pos {
            assert(r[p] == old_r[p - 1]);
        }
    }
    assert forall|y: usize| r.contains(y) <==> sk1.contains(y) by {
        if r.contains(y) {
            let q = choose|q: int| 0 <= q < r.len() && #[trigger] r[q] == y;
            if y != x {
                if q < pos {
                    assert(old_r[q] == y);
                } else {
                    assert(old_r[q - 1] == y);
                }
                assert(old_r.contains(y));
                assert(sk.contains(y));
                let q2 = choose|q2: int| 0 <= q2 < sk.len() && #[trigger] sk[q2] == y;
                assert(sk1[q2] == y);
            } else {
                assert(sk1[k] == y);
            }
        }
        if sk1.contains(y) {
            if y == x {
                assert(r[pos] == y);
            } else {
                let q = choose|q: int| 0 <= q < sk1.len() && #[trigger] sk1[q] == y;
                assert(q < k);
                assert(sk[q] == y);
                assert(sk.contains(y));
                assert(old_r.contains(y));
                let q2 = choose|q2: int| 0 <= q2 < old_r.len() && #[trigger] old_r[q2] == y;
                if q2 < pos {
                    assert(r[q2] == y);
                } else {
                    assert(r[q2 + 1] == y);
                }
            }
        }
    }
    assert forall|p: int, q: int| 0 <= p < q < r.len() implies seq_lt(fv[r[p] as int].id, fv[r[q] as int].id) by {
        if q < pos {
            assert(r[p] == old_r[p] && r[q] == old_r[q]);
        } else if q == pos {
            assert(r[p] == old_r[p]);
        } else if p > pos {
            assert(r[p] == old_r[p - 1] && r[q] == old_r[q - 1]);
        } else if p == pos {
            assert(r[q] == old_r[q - 1]);
            if q - 1 > pos {
                lemma_lt_trans(fv[x as int].id, fv[old_r[pos] as int].id, fv[old_r[q - 1] as int].id);
            }
        } else {
            assert(r[p] == old_r[p] && r[q] == old_r[q - 1]);
            if q - 1 > pos {
                lemma_lt_trans(fv[x as int].id, fv[old_r[pos] as int].id, fv[old_r[q - 1] as int].id);
            }
            lemma_lt_trans(fv[old_r[p] as int].id, fv[x as int].id, fv[old_r[q - 1] as int].id);
        }
    }
}

/// Sorts positions of distinct ids by id (insertion sort).
fn sort_by_id(f: &Vec<&TreeNode>, s: &Vec<usize>) -> (r: Vec<usize>)
    requires
        forall|p: int| 0 <= p < s@.len() ==> (#[trigger] s@[p]) < f@.len(),
        forall|p: int, q: int| 0 <= p < q < s@.len() ==> views_of(f@)[s@[p] as int].id != views_of(f@)[s@[q] as int].id,
    ensures
        sorted_by_id(views_of(f@), s@, r@),
{
    let ghost fv = views_of(f@);
    let mut r: Vec<usize> = Vec::new();
    let mut k: usize = 0;
    while k < s.len()
        invariant
            fv == views_of(f@),
            fv.len() == f@.len(),
            k <= s@.len(),
            forall|p: int| 0 <= p < s@.len() ==> (#[trigger] s@[p]) < f@.len(),
            forall|p: int, q: int| 0 <= p < q < s@.len() ==> fv[s@[p] as int].id != fv[s@[q] as int].id,
            r@.len() == k,
            forall|p: int| 0 <= p < r@.len() ==> r@[p] < f@.len(),
            forall|x: usize| r@.contains(x) <==> s@.subrange(0, k as int).contains(x),
            forall|p: int, q: int| 0 <= p < q < r@.len() ==> seq_lt(fv[r@[p] as int].id, fv[r@[q] as int].id),
        decreases s@.len() - k,
    {
        let x = s[k];
        let xid = chars_of(f[x].id.as_str());
        let mut pos: usize = 0;
        while pos < r.len() && !chars_lt(xid.as_slice(), chars_of(f[r[pos]].id.as_str()).as_slice())
            invariant
                fv == views_of(f@),
                fv.len() == f@.len(),
                x < f@.len(),
                xid@ == fv[x as int].id,
                pos <= r@.len(),
                forall|p: int| 0 <= p < r@.len() ==> r@[p] < f@.len(),
                forall|p: int| 0 <= p < pos ==> !seq_lt(fv[x as int].id, fv[r@[p] as int].id),
            decreases r@.len() - pos,
        {
            pos += 1;
        }
        proof {
            // every element of r is some earlier s element, with an id distinct from x's
            assert forall|p: int| 0 <= p < r@.len() implies fv[r@[p] as int].id != fv[x as int].id by {
                let sk = s@.subrange(0, k as int);
                assert(r@.contains(r@[p]));
                assert(sk.contains(r@[p]));
                let q = choose|q: int| 0 <= q < sk.len() && #[trigger] sk[q] == r@[p];
                assert(s@[q] == r@[p]);
            }
            assert forall|p: int| 0 <= p < pos implies seq_lt(fv[r@[p] as int].id, fv[x as int].id) by {
                lemma_lt_total(fv[r@[p] as int].id, fv[x as int].id);
            }
        }
        let ghost old_r = r@;
        r.insert(pos, x);
        proof {
            lemma_insert_sorted(fv, s@, k as int, old_r, r@, pos as int, x);
        }
        k += 1;
    }
    proof {
        assert(s@.subrange(0, s@.len() as int) =~= s@);
    }
    r
}


/* ------------------------------ grouping by name ----------------------------- */

/// The positions listed by `e` whose flag in `pb` is not set, in the order of `e`.
fn unpaired_entries(e: &Vec<usize>, pb: &Vec<bool>) -> (r: Vec<usize>)
    requires
        forall|p: int| 0 <= p < e@.len() ==> (#[trigger] e@[p]) < pb@.len(),
        forall|p: int, q: int| 0 <= p < q < e@.len() ==> e@[p] < e@[q],
    ensures
        forall|p: int| 0 <= p < r@.len() ==> e@.contains(#[trigger] r@[p]) && !pb@[r@[p] as int],
        forall|p: int, q: int| 0 <= p < q < r@.len() ==> r@[p] < r@[q],
        forall|p: int| 0 <= p < e@.len() && !pb@[#[trigger] e@[p] as int] ==> r@.contains(e@[p]),
        r@.len() <= e@.len(),
{
    let mut r: Vec<usize> = Vec::new();
    let mut k: usize = 0;
    while k < e.len()
        invariant
            forall|p: int| 0 <= p < e@.len() ==> (#[trigger] e@[p]) < pb@.len(),
            forall|p: int, q: int| 0 <= p < q < e@.len() ==> e@[p] < e@[q],
            k <= e@.len(),
            r@.len() <= k,
            forall|p: int| 0 <= p < r@.len() ==> exists|t: int| 0 <= t < k && #[trigger] e@[t] == #[trigger] r@[p],
            forall|p: int| 0 <= p < r@.len() ==> !pb@[#[trigger] r@[p] as int],
            forall|p: int, q: int| 0 <= p < q < r@.len() ==> r@[p] < r@[q],
            forall|p: int| 0 <= p < k && !pb@[#[trigger] e@[p] as int] ==> r@.contains(e@[p]),
        decreases e@.len() - k,
    {
        let x = e[k];
        if !pb[x] {
            proof {
                assert forall|p: int| 0 <= p < r@.len() implies r@[p] < x by {
                    let t = choose|t: int| 0 <= t < k && #[trigger] e@[t] == r@[p];
                    assert(e@[t] < e@[k as int]);
                }
            }
            let ghost old_r = r@;
            r.push(x);
            proof {
                assert forall|p: int| 0 <= p < r@.len() implies exists|t: int| 0 <= t < k + 1 && #[trigger] e@[t] == #[trigger] r@[p] by {
                    if p < old_r.len() {
                        assert(r@[p] == old_r[p]);
                        let t = choose|t: int| 0 <= t < k && #[trigger] e@[t] == old_r[p];
                        assert(e@[t] == r@[p]);
                    } else {
                        assert(e@[k as int] == r@[p]);
                    }
                }
                assert forall|p: int| 0 <= p < k + 1 && !pb@[#[trigger] e@[p] as int] implies r@.contains(e@[p]) by {
                    if p < k {
                        let q = choose|q: int| 0 <= q < old_r.len() && old_r[q] == e@[p];
                        assert(r@[q] == e@[p]);
                    } else {
                        assert(r@[r@.len() - 1] == e@[p]);
                    }
                }
            }
        }
        k += 1;
    }
    proof {
        assert forall|p: int| 0 <= p < r@.len() implies e@.contains(#[trigger] r@[p]) by {
            let t = choose|t: int| 0 <= t < k && #[trigger] e@[t] == r@[p];
        }
    }
    r
}

/// Marks, from position `k` on, every position of `bs` not yet done whose
/// node carries `name`, and returns those nodes' positions in `fb`.
fn collect_group(fb: &Vec<&TreeNode>, bs: &Vec<usize>, done: &mut Vec<bool>, k: usize, name: &String) -> (members: Vec<usize>)
    requires
        k < bs@.len(),
        old(done)@.len() == bs@.len(),
        !old(done)@[k as int],
        forall|p: int| 0 <= p < bs@.len() ==> (#[trigger] bs@[p]) < fb@.len(),
        forall|p: int, q: int| 0 <= p < q < bs@.len() ==> bs@[p] != bs@[q],
        views_of(fb@)[bs@[k as int] as int].name == name@,
        forall|p: int, q: int| 0 <= p < q < bs@.len() ==> seq_lt(views_of(fb@)[bs@[p] as int].id, views_of(fb@)[bs@[q] as int].id),
    ensures
        forall|p: int| k <= p < bs@.len() && !old(done)@[p] && views_of(fb@)[#[trigger] bs@[p] as int].name == name@ ==> members@.contains(bs@[p]),
        forall|g: int, h: int| 0 <= g < h < members@.len() ==> seq_lt(views_of(fb@)[members@[g] as int].id, views_of(fb@)[members@[h] as int].id),
        final(done)@.len() == bs@.len(),
        final(done)@[k as int],
        forall|p: int| 0 <= p < bs@.len() && old(done)@[p] ==> final(done)@[p],
        forall|p: int| 0 <= p < bs@.len() && final(done)@[p] && !old(done)@[p] ==> members@.contains(#[trigger] bs@[p]),
        forall|g: int| 0 <= g < members@.len() ==> bs@.contains(#[trigger] members@[g]) && views_of(fb@)[members@[g] as int].name == name@,
        forall|g: int, p: int| 0 <= g < members@.len() && 0 <= p < bs@.len() && #[trigger] bs@[p] == #[trigger] members@[g]
            ==> !old(done)@[p] && final(done)@[p],
        forall|g: int, h: int| 0 <= g < h < members@.len() ==> members@[g] != members@[h],
        members@.len() <= bs@.len(),
{
    let ghost fbv = views_of(fb@);
    let ghost done0 = done@;
    let mut members: Vec<usize> = Vec::new();
    members.push(bs[k]);
    done.set(k, true);
    let ghost mut pos: Seq<int> = seq![k as int];
    let n = bs.len();
    let mut p: usize = k + 1;
    proof {
        assert forall|t: int| 0 <= t < bs@.len() && done@[t] && !done0[t] implies exists|g: int| 0 <= g < pos.len() && #[trigger] pos[g] == t by {
            assert(t == k);
            assert(pos[0] == k);
        }
    }
    while p < bs.len()
        invariant
            fbv == views_of(fb@),
            k < bs@.len(),
            k < p <= bs@.len(),
            done@.len() == bs@.len(),
            done0.len() == bs@.len(),
            done@[k as int],
            forall|t: int| 0 <= t < bs@.len() ==> (#[trigger] bs@[t]) < fb@.len(),
            forall|t: int, q: int| 0 <= t < q < bs@.len() ==> bs@[t] != bs@[q],
            forall|t: int| 0 <= t < bs@.len() && done0[t] ==> done@[t],
            forall|t: int| p <= t < bs@.len() ==> done@[t] == done0[t],
            members@.len() == pos.len(),
            members@.len() <= p - k,
            forall|g: int| 0 <= g < pos.len() ==> k <= #[trigger] pos[g] < p && bs@[pos[g]] == members@[g]
                && !done0[pos[g]] && done@[pos[g]] && fbv[members@[g] as int].name == name@,
            forall|g: int, h: int| 0 <= g < h < pos.len() ==> pos[g] < pos[h],
            forall|t: int| 0 <= t < bs@.len() && done@[t] && !done0[t] ==> exists|g: int| 0 <= g < pos.len() && #[trigger] pos[g] == t,
            forall|t: int| k <= t < p && !done0[t] && fbv[#[trigger] bs@[t] as int].name == name@ ==> done@[t],
            forall|t: int, q: int| 0 <= t < q < bs@.len() ==> seq_lt(fbv[bs@[t] as int].id, fbv[bs@[q] as int].id),
        decreases bs@.len() - p,
    {
        let x = bs[p];
        proof {
            assert(fbv[x as int].name == fb@[x as int].name@);
        }
        let ghost old_pos = pos;
        let ghost old_done = done@;
        if !done[p] && fb[x].name.eq(name) {
            members.push(x);
            done.set(p, true);
            proof {
                pos = pos.push(p as int);
            }
        }
        proof {
            assert forall|t: int| 0 <= t < bs@.len() && done@[t] && !done0[t] implies exists|g: int| 0 <= g < pos.len() && #[trigger] pos[g] == t by {
                if t == p && !old_done[t] {
                    assert(pos[pos.len() - 1] == t);
                } else {
                    let g = choose|g: int| 0 <= g < old_pos.len() && #[trigger] old_pos[g] == t;
                    assert(pos[g] == t);
                }
            }
        }
        p += 1;
    }
    proof {
        assert forall|t: int| 0 <= t < bs@.len() && done@[t] && !done0[t] implies members@.contains(#[trigger] bs@[t]) by {
            let g = choose|g: int| 0 <= g < pos.len() && #[trigger] pos[g] == t;
            assert(members@[g] == bs@[t]);
        }
        assert forall|g: int| 0 <= g < members@.len() implies bs@.contains(#[trigger] members@[g]) by {
            assert(bs@[pos[g]] == members@[g]);
        }
        assert forall|g: int, t: int| 0 <= g < members@.len() && 0 <= t < bs@.len() && #[trigger] bs@[t] == #[trigger] members@[g]
            implies !done0[t] && done@[t] by {
            if t != pos[g] {
                assert(bs@[pos[g]] == members@[g]);
                if t < pos[g] {
                    assert(bs@[t] != bs@[pos[g]]);
                } else {
                    assert(bs@[pos[g]] != bs@[t]);
                }
            }
        }
        assert forall|g: int, h: int| 0 <= g < h < members@.len() implies members@[g] != members@[h] by {
            assert(pos[g] < pos[h]);
            assert(bs@[pos[g]] != bs@[pos[h]]);
        }
        assert forall|g: int, h: int| 0 <= g < h < members@.len() implies seq_lt(fbv[members@[g] as int].id, fbv[members@[h] as int].id) by {
            assert(pos[g] < pos[h]);
            assert(bs@[pos[g]] == members@[g] && bs@[pos[h]] == members@[h]);
        }
        assert forall|t: int| k <= t < bs@.len() && !done0[t] && fbv[#[trigger] bs@[t] as int].name == name@ implies members@.contains(bs@[t]) by {
            assert(done@[t]);
            let g = choose|g: int| 0 <= g < pos.len() && #[trigger] pos[g] == t;
            assert(members@[g] == bs@[t]);
        }
    }
    members
}


/// Name fallback: the entries of the second tree left unpaired by id are
/// taken in id order; a nameless one is added, the others are settled in
/// groups of equal name against the unpaired same-name entries of the first
/// tree (in id order).
#[verifier::spinoff_prover]
#[verifier::rlimit(60)]
fn pair_by_name(
    fa: &Vec<&TreeNode>,
    fb: &Vec<&TreeNode>,
    ea: &Vec<usize>,
    eb: &Vec<usize>,
    rb: &Vec<TreeNode>,
    single: bool,
    pa: &mut Vec<bool>,
    pb: &mut Vec<bool>,
    changed: &mut Vec<ChangedNode>,
    added: &mut Vec<TreeNode>,
    Ghost(pairs): Ghost<Seq<(int, int)>>,
) -> (res: Ghost<(Seq<(int, int)>, Seq<int>)>)
    requires
        entries_listed(views_of(fa@), ea@),
        entries_listed(views_of(fb@), eb@),
        ea@.len() <= fa@.len(),
        eb@.len() <= fb@.len(),
        fa@.len() < usize::MAX,
        fb@.len() < usize::MAX,
        state_ok(views_of(fa@), views_of(fb@), old(pa)@, old(pb)@, pairs, old(changed)@),
        forall|j: int| is_entry(views_of(fb@), j) && has_id(views_of(fa@), views_of(fb@)[j].id) ==> old(pb)@[j],
        forall|i: int| is_entry(views_of(fa@), i) && has_id(views_of(fb@), views_of(fa@)[i].id) ==> old(pa)@[i],
        forall|p: int| 0 <= p < pairs.len() ==> views_of(fa@)[(#[trigger] pairs[p]).0].id == views_of(fb@)[pairs[p].1].id,
        old(added)@.len() == 0,
    ensures
        state_ok(views_of(fa@), views_of(fb@), final(pa)@, final(pb)@, res@.0, final(changed)@),
        groups_settled(views_of(fa@), views_of(fb@), res@.0),
        forall|j: int| 0 <= j < old(pb)@.len() && old(pb)@[j] ==> final(pb)@[j],
        forall|i: int| 0 <= i < old(pa)@.len() && old(pa)@[i] ==> final(pa)@[i],
        leftovers(views_of(fb@), crate::tree::tree_views(rb@), single, |j: int| paired_b(res@.0, j), res@.1),
        final(added)@.map_values(|n: TreeNode| n@) == res@.1.map_values(|j: int| stripped(views_of(fb@)[j])),
{
    let ghost fav = views_of(fa@);
    let ghost fbv = views_of(fb@);
    let ghost rbv = crate::tree::tree_views(rb@);
    let ghost pa0 = pa@;
    let ghost pb0 = pb@;
    let unp = unpaired_entries(eb, pb);
    proof {
        assert forall|p: int, q: int| 0 <= p < q < unp@.len() implies fbv[unp@[p] as int].id != fbv[unp@[q] as int].id by {
            let tp = choose|t: int| 0 <= t < eb@.len() && eb@[t] == unp@[p];
            let tq = choose|t: int| 0 <= t < eb@.len() && eb@[t] == unp@[q];
            assert(is_entry(fbv, eb@[tp] as int));
            assert(is_entry(fbv, eb@[tq] as int));
            lemma_entries_distinct(fbv, unp@[p] as int, unp@[q] as int);
        }
        assert forall|p: int| 0 <= p < unp@.len() implies (#[trigger] unp@[p]) < fb@.len() by {
            let t = choose|t: int| 0 <= t < eb@.len() && eb@[t] == unp@[p];
            assert(is_entry(fbv, eb@[t] as int));
        }
    }
    let bs = sort_by_id(fb, &unp);
    let nbs = bs.len();
    let mut done: Vec<bool> = Vec::new();
    let mut t: usize = 0;
    while t < nbs
        invariant
            t <= nbs,
            done@.len() == t,
            forall|q: int| 0 <= q < t ==> !done@[q],
        decreases nbs - t,
    {
        done.push(false);
        t += 1;
    }
    proof {
        assert forall|p: int| 0 <= p < bs@.len() implies is_entry(fbv, #[trigger] bs@[p] as int) && !pb0[bs@[p] as int] by {
            assert(bs@.contains(bs@[p]));
            assert(unp@.contains(bs@[p]));
            let q = choose|q: int| 0 <= q < unp@.len() && unp@[q] == bs@[p];
            assert(eb@.contains(unp@[q]));
            let t2 = choose|t2: int| 0 <= t2 < eb@.len() && eb@[t2] == unp@[q];
            assert(is_entry(fbv, eb@[t2] as int));
        }
        assert forall|p: int, q: int| 0 <= p < q < bs@.len() implies bs@[p] != bs@[q] by {
            if bs@[p] == bs@[q] {
                lemma_lt_irrefl(fbv[bs@[p] as int].id);
            }
        }
        assert forall|j: int| is_entry(fbv, j) && !pb0[j] implies bs@.contains(j as usize) by {
            let t2 = choose|t2: int| 0 <= t2 < eb@.len() && #[trigger] eb@[t2] == j;
            assert(unp@.contains(eb@[t2]));
        }
        assert forall|j: int| is_entry(fbv, j) && !has_id(fav, fbv[j].id) implies !pb0[j] by {
            if pb0[j] {
                assert(paired_b(pairs, j));
                let p = choose|p: int| 0 <= p < pairs.len() && (#[trigger] pairs[p]).1 == j;
                assert(may_pair(fav, fbv, pairs[p].0, pairs[p].1));
                assert(fav[pairs[p].0].id == fbv[j].id);
            }
        }
    }
    let ghost mut gm: Map<Seq<char>, (Seq<usize>, Seq<usize>, Seq<Vec<i64>>, Seq<usize>)> = Map::empty();
    let ghost mut cur_pairs = pairs;
    let ghost mut cur_qb: Seq<int> = Seq::empty();
    let mut k: usize = 0;
    while k < nbs
        invariant
            fav == views_of(fa@),
            fbv == views_of(fb@),
            rbv == crate::tree::tree_views(rb@),
            fav.len() == fa@.len(),
            fbv.len() == fb@.len(),
            fa@.len() < usize::MAX,
            fb@.len() < usize::MAX,
            entries_listed(fav, ea@),
            ea@.len() <= fa@.len(),
            nbs == bs@.len(),
            bs@.len() <= fb@.len(),
            forall|p: int| 0 <= p < bs@.len() ==> is_entry(fbv, #[trigger] bs@[p] as int) && !pb0[bs@[p] as int],
            forall|p: int, q: int| 0 <= p < q < bs@.len() ==> bs@[p] != bs@[q],
            forall|j: int| is_entry(fbv, j) && !pb0[j] ==> bs@.contains(j as usize),
            forall|j: int| is_entry(fbv, j) && has_id(fav, fbv[j].id) ==> pb0[j],
            pb0.len() == fbv.len(),
            pa0.len() == fav.len(),
            done@.len() == bs@.len(),
            k <= nbs,
            forall|p: int| 0 <= p < k ==> done@[p],
            state_ok(fav, fbv, pa@, pb@, cur_pairs, changed@),
            forall|j: int| 0 <= j < pb0.len() && pb0[j] ==> pb@[j],
            forall|i: int| 0 <= i < pa0.len() && pa0[i] ==> pa@[i],
            forall|i: int| is_entry(fav, i) && has_id(fbv, fav[i].id) ==> pa@[i],
            forall|p: int| 0 <= p < bs@.len() && done@[p] ==> pb@[#[trigger] bs@[p] as int] || cur_qb.contains(bs@[p] as int)
                || is_wrapper(rbv, single, fbv[bs@[p] as int]),
            forall|p: int| 0 <= p < bs@.len() && !done@[p] ==> !pb@[#[trigger] bs@[p] as int] && !cur_qb.contains(bs@[p] as int),
            cur_qb.no_duplicates(),
            forall|q: int| 0 <= q < cur_qb.len() ==> is_entry(fbv, #[trigger] cur_qb[q]) && !pb@[cur_qb[q]]
                && !is_wrapper(rbv, single, fbv[cur_qb[q]]),
            added@.map_values(|n: TreeNode| n@) == cur_qb.map_values(|j: int| stripped(fbv[j])),
            forall|j: int| is_entry(fbv, j) && !has_id(fav, fbv[j].id) ==> !pb0[j],
            forall|p: int, q: int| 0 <= p < q < bs@.len() ==> seq_lt(fbv[bs@[p] as int].id, fbv[bs@[q] as int].id),
            forall|p: int| 0 <= p < cur_pairs.len() ==> fav[(#[trigger] cur_pairs[p]).0].id == fbv[cur_pairs[p].1].id
                || gm.dom().contains(fbv[cur_pairs[p].1].name),
            forall|q: int| 0 <= q < bs@.len() && !done@[q] ==> !gm.dom().contains(fbv[#[trigger] bs@[q] as int].name),
            forall|q: int| 0 <= q < bs@.len() && done@[q] && fbv[#[trigger] bs@[q] as int].name.len() > 0
                ==> gm.dom().contains(fbv[bs@[q] as int].name),
            settled_so_far(fav, fbv, gm, cur_pairs),
        decreases nbs - k,
    {
        if !done[k] {
            let j = bs[k];
            let node: &TreeNode = fb[j];
            proof {
                assert(fbv[j as int] == node@);
            }
            if node.name.as_str().is_empty() {
                done.set(k, true);
                if !wrapper_check(rb, single, node) {
                    let ghost old_added = added@;
                    let ghost old_qb = cur_qb;
                    let sn = strip_children(node);
                    added.push(sn);
                    proof {
                        cur_qb = cur_qb.push(j as int);
                        assert(added@.map_values(|n: TreeNode| n@) =~= old_added.map_values(|n: TreeNode| n@).push(stripped(fbv[j as int])));
                        assert(cur_qb.map_values(|j2: int| stripped(fbv[j2])) =~= old_qb.map_values(|j2: int| stripped(fbv[j2])).push(stripped(fbv[j as int])));
                        assert forall|p: int| 0 <= p < bs@.len() && !done@[p] implies !pb@[#[trigger] bs@[p] as int] && !cur_qb.contains(bs@[p] as int) by {
                            assert(p != k);
                            assert(bs@[p] != bs@[k as int]);
                            if cur_qb.contains(bs@[p] as int) {
                                let q = choose|q: int| 0 <= q < cur_qb.len() && cur_qb[q] == bs@[p] as int;
                                assert(old_qb[q] == bs@[p] as int);
                            }
                        }
                        assert forall|p: int| 0 <= p < bs@.len() && done@[p] implies pb@[#[trigger] bs@[p] as int] || cur_qb.contains(bs@[p] as int)
                            || is_wrapper(rbv, single, fbv[bs@[p] as int]) by {
                            if p == k {
                                assert(cur_qb[cur_qb.len() - 1] == j);
                            } else if old_qb.contains(bs@[p] as int) {
                                let q = choose|q: int| 0 <= q < old_qb.len() && old_qb[q] == bs@[p] as int;
                                assert(cur_qb[q] == bs@[p] as int);
                            }
                        }
                    }
                }
            } else {
                let name = node.name.clone();
                let ghost done_before = done@;
                let ghost pb_before = pb@;
                let ghost qb_before = cur_qb;
                let ghost pairs_before = cur_pairs;
                proof {
                    assert(!gm.dom().contains(fbv[bs@[k as int] as int].name));
                }
                let members = collect_group(fb, &bs, &mut done, k, &name);
                let c0 = name_candidates(fa, ea, pa, &name);
                proof {
                    assert forall|p: int, q: int| 0 <= p < q < c0@.len() implies fav[c0@[p] as int].id != fav[c0@[q] as int].id by {
                        lemma_entries_distinct(fav, c0@[p] as int, c0@[q] as int);
                    }
                }
                let cands = sort_by_id(fa, &c0);
                proof {
                    assert forall|p: int, q: int| 0 <= p < q < cands@.len() implies cands@[p] != cands@[q] by {
                        if cands@[p] == cands@[q] {
                            lemma_lt_irrefl(fav[cands@[p] as int].id);
                        }
                    }
                    assert forall|c: int| 0 <= c < cands@.len() implies {
                        let i = #[trigger] cands@[c] as int;
                        &&& is_entry(fav, i)
                        &&& !pa@[i]
                        &&& !has_id(fbv, fav[i].id)
                        &&& fav[i].name == name@
                    } by {
                        assert(cands@.contains(cands@[c]));
                        assert(c0@.contains(cands@[c]));
                        let q = choose|q: int| 0 <= q < c0@.len() && c0@[q] == cands@[c];
                        assert(is_entry(fav, c0@[q] as int));
                    }
                    assert forall|g: int| 0 <= g < members@.len() implies {
                        let m = #[trigger] members@[g] as int;
                        &&& is_entry(fbv, m)
                        &&& !pb@[m]
                        &&& !has_id(fav, fbv[m].id)
                        &&& fbv[m].name == name@
                        &&& !cur_qb.contains(m)
                    } by {
                        assert(bs@.contains(members@[g]));
                        let p = choose|p: int| 0 <= p < bs@.len() && bs@[p] == members@[g];
                        assert(!done_before[p]);
                        assert(is_entry(fbv, bs@[p] as int));
                    }
                    assert(name_group(fbv, fav, name@, members@)) by {
                        assert forall|g: int| 0 <= g < members@.len() implies unmatched_named(fbv, fav, name@, #[trigger] members@[g] as int) by {
                            assert(bs@.contains(members@[g]));
                            let p = choose|p: int| 0 <= p < bs@.len() && bs@[p] == members@[g];
                            assert(is_entry(fbv, bs@[p] as int) && !pb0[bs@[p] as int]);
                        }
                        assert forall|j: int| unmatched_named(fbv, fav, name@, j) implies members@.contains(j as usize) by {
                            assert(!pb0[j]);
                            assert(bs@.contains(j as usize));
                            let q = choose|q: int| 0 <= q < bs@.len() && bs@[q] == j as usize;
                            if q < k || done_before[q] {
                                assert(done_before[q]);
                                assert(gm.dom().contains(fbv[bs@[q] as int].name));
                            }
                        }
                    }
                    assert(name_group(fav, fbv, name@, cands@)) by {
                        assert forall|i: int| unmatched_named(fav, fbv, name@, i) implies cands@.contains(i as usize) by {
                            if pa@[i] {
                                assert(paired_a(cur_pairs, i));
                                let p = choose|p: int| 0 <= p < cur_pairs.len() && (#[trigger] cur_pairs[p]).0 == i;
                                let j = cur_pairs[p].1;
                                assert(may_pair(fav, fbv, i, j));
                                if fav[i].id == fbv[j].id {
                                    assert(has_id(fbv, fav[i].id));
                                } else {
                                    assert(gm.dom().contains(fbv[j].name));
                                }
                            }
                            assert(c0@.contains(i as usize));
                        }
                    }
                }
                let settled = settle_group(
                    fa, fb, rb, single, &name, &members, &cands, pa, pb, changed, added,
                    Ghost(cur_pairs), Ghost(cur_qb),
                );
                proof {
                    cur_pairs = settled@.0;
                    cur_qb = settled@.1;
                    assert forall|p: int| 0 <= p < bs@.len() && !done@[p] implies !pb@[#[trigger] bs@[p] as int] && !cur_qb.contains(bs@[p] as int) by {
                        assert(!done_before[p]);
                        if members@.contains(bs@[p]) {
                            let g = choose|g: int| 0 <= g < members@.len() && members@[g] == bs@[p];
                            assert(done@[p]);
                        }
                        if pb@[bs@[p] as int] != pb_before[bs@[p] as int] {
                            assert(members@.contains(bs@[p]));
                        }
                        if cur_qb.contains(bs@[p] as int) {
                            let q = choose|q: int| 0 <= q < cur_qb.len() && cur_qb[q] == bs@[p] as int;
                            if !qb_before.contains(cur_qb[q]) {
                                assert(members@.contains(cur_qb[q] as usize));
                            }
                        }
                    }
                    assert forall|p: int| 0 <= p < bs@.len() && done@[p] implies pb@[#[trigger] bs@[p] as int] || cur_qb.contains(bs@[p] as int)
                        || is_wrapper(rbv, single, fbv[bs@[p] as int]) by {
                        if done_before[p] {
                            if qb_before.contains(bs@[p] as int) {
                                let q = choose|q: int| 0 <= q < qb_before.len() && qb_before[q] == bs@[p] as int;
                                assert(cur_qb.contains(qb_before[q]));
                            }
                        } else {
                            assert(members@.contains(bs@[p]));
                            let g = choose|g: int| 0 <= g < members@.len() && members@[g] == bs@[p];
                            assert(pb@[members@[g] as int] || cur_qb.contains(members@[g] as int)
                                || is_wrapper(rbv, single, fbv[members@[g] as int]));
                        }
                    }
                    assert forall|i: int| is_entry(fav, i) && has_id(fbv, fav[i].id) implies pa@[i] by {}
                    assert forall|g: int| 0 <= g < members@.len() implies fbv[#[trigger] members@[g] as int].name == name@ by {}
                    lemma_settled_extend(fav, fbv, gm, pairs_before, cur_pairs, members@, name@);
                    let gm_before = gm;
                    gm = gm.insert(name@, (members@, cands@, settled@.2, settled@.3));
                    assert(settled_so_far(fav, fbv, gm, cur_pairs)) by {
                        assert forall|n2: Seq<char>| #[trigger] gm.dom().contains(n2) implies {
                            &&& n2.len() > 0
                            &&& name_group(fbv, fav, n2, gm[n2].0)
                            &&& name_group(fav, fbv, n2, gm[n2].1)
                            &&& group_assigned(fav, fbv, gm[n2].0, gm[n2].1, gm[n2].2, gm[n2].3, cur_pairs)
                        } by {
                            if n2 != name@ {
                                assert(gm_before.dom().contains(n2));
                            }
                        }
                    }
                    assert forall|p: int| 0 <= p < cur_pairs.len() implies fav[(#[trigger] cur_pairs[p]).0].id == fbv[cur_pairs[p].1].id
                        || gm.dom().contains(fbv[cur_pairs[p].1].name) by {
                        if p < pairs_before.len() {
                            assert(cur_pairs[p] == cur_pairs.subrange(0, pairs_before.len() as int)[p]);
                            assert(cur_pairs[p] == pairs_before[p]);
                            if gm_before.dom().contains(fbv[cur_pairs[p].1].name) {
                                assert(gm.dom().contains(fbv[cur_pairs[p].1].name));
                            }
                        } else {
                            assert(members@.contains(cur_pairs[p].1 as usize));
                            let g = choose|g: int| 0 <= g < members@.len() && members@[g] == cur_pairs[p].1 as usize;
                            assert(may_pair(fav, fbv, cur_pairs[p].0, cur_pairs[p].1));
                            assert(fbv[members@[g] as int].name == name@);
                        }
                    }
                    assert forall|q: int| 0 <= q < bs@.len() && !done@[q] implies !gm.dom().contains(fbv[#[trigger] bs@[q] as int].name) by {
                        assert(!done_before[q]);
                        if fbv[bs@[q] as int].name == name@ {
                            assert(q >= k);
                            assert(members@.contains(bs@[q]));
                            let g = choose|g: int| 0 <= g < members@.len() && members@[g] == bs@[q];
                            assert(done@[q]);
                        }
                    }
                    assert forall|q: int| 0 <= q < bs@.len() && done@[q] && fbv[#[trigger] bs@[q] as int].name.len() > 0
                        implies gm.dom().contains(fbv[bs@[q] as int].name) by {
                        if !done_before[q] {
                            assert(members@.contains(bs@[q]));
                            let g = choose|g: int| 0 <= g < members@.len() && members@[g] == bs@[q];
                            assert(fbv[members@[g] as int].name == name@);
                        } else {
                            assert(gm_before.dom().contains(fbv[bs@[q] as int].name));
                        }
                    }
                }
            }
        }
        k += 1;
    }
    proof {
        let pairs_f = cur_pairs;
        assert forall|q: int| 0 <= q < cur_qb.len() implies is_entry(fbv, #[trigger] cur_qb[q]) && !paired_b(pairs_f, cur_qb[q])
            && !is_wrapper(rbv, single, fbv[cur_qb[q]]) by {
            assert(!pb@[cur_qb[q]]);
        }
        assert forall|j: int| is_entry(fbv, j) && !paired_b(pairs_f, j) && !is_wrapper(rbv, single, fbv[j]) implies cur_qb.contains(j) by {
            assert(!pb@[j]);
            assert(!pb0[j]);
            assert(bs@.contains(j as usize));
            let p = choose|p: int| 0 <= p < bs@.len() && bs@[p] == j as usize;
            assert(done@[p]);
        }
        assert forall|q: int| 0 <= q < bs@.len() && fbv[#[trigger] bs@[q] as int].name.len() > 0 implies gm.dom().contains(fbv[bs@[q] as int].name) by {
            assert(done@[q]);
        }
        lemma_groups_settled(fav, fbv, gm, cur_pairs, bs@, pb0);
    }
    Ghost((cur_pairs, cur_qb))
}


/// The entries of the first tree that are neither paired nor page wrappers,
/// stripped of their children, in position order.
fn collect_removed(
    fa: &Vec<&TreeNode>,
    ea: &Vec<usize>,
    ra: &Vec<TreeNode>,
    single: bool,
    pa: &Vec<bool>,
    Ghost(pairs): Ghost<Seq<(int, int)>>,
) -> (res: (Vec<TreeNode>, Ghost<Seq<int>>))
    requires
        entries_listed(views_of(fa@), ea@),
        pa@.len() == fa@.len(),
        forall|i: int| 0 <= i < pa@.len() ==> (pa@[i] <==> paired_a(pairs, i)),
    ensures
        leftovers(views_of(fa@), crate::tree::tree_views(ra@), single, |i: int| paired_a(pairs, i), res.1@),
        res.0@.map_values(|n: TreeNode| n@) == res.1@.map_values(|i: int| stripped(views_of(fa@)[i])),
{
    let ghost fav = views_of(fa@);
    let ghost rav = crate::tree::tree_views(ra@);
    let ghost mut qa: Seq<int> = Seq::empty();
    let mut removed: Vec<TreeNode> = Vec::new();
    let mut k: usize = 0;
    while k < ea.len()
        invariant
            fav == views_of(fa@),
            rav == crate::tree::tree_views(ra@),
            fav.len() == fa@.len(),
            entries_listed(fav, ea@),
            pa@.len() == fa@.len(),
            forall|i: int| 0 <= i < pa@.len() ==> (pa@[i] <==> paired_a(pairs, i)),
            k <= ea@.len(),
            forall|q: int| 0 <= q < qa.len() ==> exists|t: int| 0 <= t < k && #[trigger] ea@[t] as int == #[trigger] qa[q],
            forall|q1: int, q2: int| 0 <= q1 < q2 < qa.len() ==> qa[q1] < qa[q2],
            forall|q: int| 0 <= q < qa.len() ==> is_entry(fav, #[trigger] qa[q]) && !pa@[qa[q]] && !is_wrapper(rav, single, fav[qa[q]]),
            forall|t: int| 0 <= t < k && !pa@[#[trigger] ea@[t] as int] && !is_wrapper(rav, single, fav[ea@[t] as int]) ==> qa.contains(ea@[t] as int),
            removed@.map_values(|n: TreeNode| n@) == qa.map_values(|i: int| stripped(fav[i])),
        decreases ea@.len() - k,
    {
        let i = ea[k];
        proof {
            assert(is_entry(fav, i as int));
        }
        let node: &TreeNode = fa[i];
        proof {
            assert(fav[i as int] == node@);
        }
        if !pa[i] && !wrapper_check(ra, single, node) {
            proof {
                assert forall|q: int| 0 <= q < qa.len() implies qa[q] < i by {
                    let t = choose|t: int| 0 <= t < k && #[trigger] ea@[t] as int == qa[q];
                    assert(ea@[t] < ea@[k as int]);
                }
            }
            let ghost old_qa = qa;
            let ghost old_removed = removed@;
            removed.push(strip_children(node));
            proof {
                qa = qa.push(i as int);
                assert(removed@.map_values(|n: TreeNode| n@) =~= old_removed.map_values(|n: TreeNode| n@).push(stripped(fav[i as int])));
                assert(qa.map_values(|i2: int| stripped(fav[i2])) =~= old_qa.map_values(|i2: int| stripped(fav[i2])).push(stripped(fav[i as int])));
                assert forall|q: int| 0 <= q < qa.len() implies exists|t: int| 0 <= t < k + 1 && #[trigger] ea@[t] as int == #[trigger] qa[q] by {
                    if q < old_qa.len() {
                        let t = choose|t: int| 0 <= t < k && #[trigger] ea@[t] as int == old_qa[q];
                        assert(ea@[t] as int == qa[q]);
                    } else {
                        assert(ea@[k as int] as int == qa[q]);
                    }
                }
                assert forall|t: int| 0 <= t < k + 1 && !pa@[#[trigger] ea@[t] as int] && !is_wrapper(rav, single, fav[ea@[t] as int]) implies qa.contains(ea@[t] as int) by {
                    if t < k {
                        let q = choose|q: int| 0 <= q < old_qa.len() && old_qa[q] == ea@[t] as int;
                        assert(qa[q] == ea@[t] as int);
                    } else {
                        assert(qa[qa.len() - 1] == ea@[t] as int);
                    }
                }
            }
        }
        k += 1;
    }
    proof {
        assert forall|q1: int, q2: int| 0 <= q1 < qa.len() && 0 <= q2 < qa.len() && q1 != q2 implies qa[q1] != qa[q2] by {
            if q1 < q2 {
                assert(qa[q1] < qa[q2]);
            } else {
                assert(qa[q2] < qa[q1]);
            }
        }
        assert forall|t: int| is_entry(fav, t) && !paired_a(pairs, t) && !is_wrapper(rav, single, fav[t]) implies qa.contains(t) by {
            let p = choose|p: int| 0 <= p < ea@.len() && #[trigger] ea@[p] == t;
            assert(!pa@[ea@[p] as int]);
        }
    }
    (removed, Ghost(qa))
}

/* ----------------------------------- diff ------------------------------------ */

/// Compares two layer trees. Nodes are paired by id; a node of the second
/// tree whose id does not occur in the first may still be paired with an
/// unpaired node of the first tree of the same non-empty name and the same
/// type, choosing within each name the assignment of least total geometry
/// distance. Paired nodes whose payload differs are `changed`; unpaired
/// nodes of the second tree are `added`, of the first `removed` (stripped
/// of their children), except the root page containers of two single-page
/// trees of equal viewport. Where an id occurs twice, the last node in walk
/// order stands for it.
pub fn diff_trees(a: &Vec<TreeNode>, b: &Vec<TreeNode>) -> (r: TreeDiff)
    requires
        flat_nodes(a@).len() < usize::MAX,
        flat_nodes(b@).len() < usize::MAX,
    ensures
        exists|pairs: Seq<(int, int)>, qa: Seq<int>, qb: Seq<int>| diff_result(a@, b@, pairs, qa, qb, r),
{
    let fa = flatten_tree(a);
    let fb = flatten_tree(b);
    let ghost fav = views_of(fa@);
    let ghost fbv = views_of(fb@);
    proof {
        assert(fav =~= flat_views(a@));
        assert(fbv =~= flat_views(b@));
        crate::tree::lemma_tree_views_len(a@);
        crate::tree::lemma_tree_views_len(b@);
    }
    let ea = last_entries(&fa);
    let eb = last_entries(&fb);
    let mut pa: Vec<bool> = Vec::new();
    let mut t: usize = 0;
    while t < fa.len()
        invariant
            t <= fa@.len(),
            pa@.len() == t,
            forall|q: int| 0 <= q < t ==> !pa@[q],
        decreases fa@.len() - t,
    {
        pa.push(false);
        t += 1;
    }
    let mut pb: Vec<bool> = Vec::new();
    let mut t: usize = 0;
    while t < fb.len()
        invariant
            t <= fb@.len(),
            pb@.len() == t,
            forall|q: int| 0 <= q < t ==> !pb@[q],
        decreases fb@.len() - t,
    {
        pb.push(false);
        t += 1;
    }
    let mut changed: Vec<ChangedNode> = Vec::new();
    proof {
        assert(changed@.map_values(|c: ChangedNode| changed_view(c)) =~= changes_of(fav, fbv, Seq::empty()));
    }
    let id_pairs = pair_by_id(&fa, &fb, &ea, &eb, &mut pa, &mut pb, &mut changed);
    let single = a.len() == 1 && b.len() == 1 && a[0].width == b[0].width && a[0].height == b[0].height;
    proof {
        assert(single == single_page(crate::tree::tree_views(a@), crate::tree::tree_views(b@)));
    }
    let mut added: Vec<TreeNode> = Vec::new();
    let ghost pb1 = pb@;
    let named = pair_by_name(&fa, &fb, &ea, &eb, b, single, &mut pa, &mut pb, &mut changed, &mut added, id_pairs);
    let ghost pairs = named@.0;
    let (removed, qa) = collect_removed(&fa, &ea, a, single, &pa, Ghost(pairs));
    let r = TreeDiff { added, removed, changed };
    proof {
        lemma_assemble(a@, b@, fav, fbv, pb1, pb@, pa@, pairs, qa@, named@.1, single, r);
    }
    r
}

proof fn lemma_assemble(
    a: Seq<TreeNode>,
    b: Seq<TreeNode>,
    fav: Seq<TreeView>,
    fbv: Seq<TreeView>,
    pb1: Seq<bool>,
    pb: Seq<bool>,
    pa: Seq<bool>,
    pairs: Seq<(int, int)>,
    qa: Seq<int>,
    qb: Seq<int>,
    single: bool,
    d: TreeDiff,
)
    requires
        fav == flat_views(a),
        fbv == flat_views(b),
        single == single_page(crate::tree::tree_views(a), crate::tree::tree_views(b)),
        state_ok(fav, fbv, pa, pb, pairs, d.changed@),
        groups_settled(fav, fbv, pairs),
        pb1.len() == pb.len(),
        forall|j: int| is_entry(fbv, j) && has_id(fav, fbv[j].id) ==> pb1[j],
        forall|j: int| 0 <= j < pb1.len() && pb1[j] ==> pb[j],
        leftovers(fbv, crate::tree::tree_views(b), single, |j: int| paired_b(pairs, j), qb),
        leftovers(fav, crate::tree::tree_views(a), single, |i: int| paired_a(pairs, i), qa),
        d.added@.map_values(|n: TreeNode| n@) == qb.map_values(|j: int| stripped(fbv[j])),
        d.removed@.map_values(|n: TreeNode| n@) == qa.map_values(|i: int| stripped(fav[i])),
    ensures
        diff_result(a, b, pairs, qa, qb, d),
{
    assert forall|j: int| is_entry(fbv, j) && has_id(fav, fbv[j].id) implies paired_b(pairs, j) by {
        assert(pb1[j]);
        assert(pb[j]);
    }
    assert(valid_pairing(fav, fbv, pairs));
}


/* ------------------------------------ laws ------------------------------------ */

proof fn lemma_no_changes(fa: Seq<TreeView>, fb: Seq<TreeView>, pairs: Seq<(int, int)>)
    requires
        forall|p: int| 0 <= p < pairs.len() ==> changed_fields_spec(fa[(#[trigger] pairs[p]).0], fb[pairs[p].1]).len() == 0,
    ensures
        changes_of(fa, fb, pairs).len() == 0,
    decreases pairs.len(),
{
    if pairs.len() > 0 {
        let rest = pairs.drop_last();
        assert forall|p: int| 0 <= p < rest.len() implies changed_fields_spec(fa[(#[trigger] rest[p]).0], fb[rest[p].1]).len() == 0 by {
            assert(rest[p] == pairs[p]);
        }
        lemma_no_changes(fa, fb, rest);
        assert(pairs.last() == pairs[pairs.len() - 1]);
    }
}

/// Comparing a node with itself reports no changed field.
pub proof fn lemma_unchanged_self(n: TreeView)
    ensures
        changed_fields_spec(n, n).len() == 0,
{
}

/// A design compared with itself has no added, removed or changed nodes:
/// every node pairs with itself.
pub proof fn lemma_diff_self_empty(a: Seq<TreeNode>, pairs: Seq<(int, int)>, qa: Seq<int>, qb: Seq<int>, d: TreeDiff)
    requires
        diff_result(a, a, pairs, qa, qb, d),
    ensures
        d.added@.len() == 0,
        d.removed@.len() == 0,
        d.changed@.len() == 0,
{
    let f = flat_views(a);
    let ra = crate::tree::tree_views(a);
    let single = single_page(ra, ra);
    // every pair joins an entry with itself
    assert forall|p: int| 0 <= p < pairs.len() implies (#[trigger] pairs[p]).0 == pairs[p].1 by {
        let i = pairs[p].0;
        let j = pairs[p].1;
        assert(may_pair(f, f, i, j));
        assert(has_id(f, f[j].id)) by {
            assert(f[j].id == f[j].id);
        }
        if i != j {
            lemma_entries_distinct(f, i, j);
        }
    }
    // every entry is paired
    assert forall|t: int| is_entry(f, t) implies paired_a(pairs, t) && paired_b(pairs, t) by {
        assert(has_id(f, f[t].id));
        assert(paired_b(pairs, t));
        let p = choose|p: int| 0 <= p < pairs.len() && (#[trigger] pairs[p]).1 == t;
        assert(pairs[p].0 == t);
    }
    if qa.len() > 0 {
        assert(is_entry(f, qa[0]));
        assert(!paired_a(pairs, qa[0]));
    }
    if qb.len() > 0 {
        assert(is_entry(f, qb[0]));
        assert(!paired_b(pairs, qb[0]));
    }
    assert forall|p: int| 0 <= p < pairs.len() implies changed_fields_spec(f[(#[trigger] pairs[p]).0], f[pairs[p].1]).len() == 0 by {
        lemma_unchanged_self(f[pairs[p].0]);
    }
    lemma_no_changes(f, f, pairs);
    assert(d.changed@.map_values(|c: ChangedNode| changed_view(c)).len() == 0);
    assert(d.added@.map_values(|n: TreeNode| n@).len() == qb.len());
    assert(d.removed@.map_values(|n: TreeNode| n@).len() == qa.len());
}

/* ------------------------------ pairing distance ------------------------------ */

proof fn lemma_small_square(d: int)
    requires
        -0x4000_0000 <= d <= 0x4000_0000,
    ensures
        0 <= d * d <= 0x1000_0000_0000_0000,
        d != 0 ==> d * d > 0,
{
    assert(0 <= d * d <= 0x1000_0000_0000_0000) by (nonlinear_arith)
        requires
            -0x4000_0000 <= d <= 0x4000_0000,
    ;
    assert(d != 0 ==> d * d > 0) by (nonlinear_arith);
}

/// Coordinates within ±2^29: differences, squares and their sum fit an `i64`.
pub open spec fn small_rect(a: TreeView) -> bool {
    &&& -0x2000_0000 <= a.x <= 0x2000_0000
    &&& -0x2000_0000 <= a.y <= 0x2000_0000
    &&& -0x2000_0000 <= a.width <= 0x2000_0000
    &&& -0x2000_0000 <= a.height <= 0x2000_0000
}

/// The distance by which same-name nodes are paired is the sum of the
/// squared differences of x, y, width and height (for coordinates within
/// ±2^29, where nothing saturates or wraps).
pub proof fn lemma_geo_distance_sum_of_squares(a: TreeView, b: TreeView)
    requires
        small_rect(a),
        small_rect(b),
    ensures
        geo_spec(a, b) as int == (a.x - b.x) * (a.x - b.x) + (a.y - b.y) * (a.y - b.y) + (a.width - b.width) * (
        a.width - b.width) + (a.height - b.height) * (a.height - b.height),
{
    lemma_small_square(a.x - b.x);
    lemma_small_square(a.y - b.y);
    lemma_small_square(a.width - b.width);
    lemma_small_square(a.height - b.height);
}

/// Nodes at the same place but of different size are at positive distance,
/// and a node is at distance 0 from a node of the same rectangle.
pub proof fn lemma_geo_distance_zero_iff_same_rect(a: TreeView, b: TreeView)
    requires
        small_rect(a),
        small_rect(b),
    ensures
        geo_spec(a, b) >= 0,
        geo_spec(a, b) == 0 <==> (a.x == b.x && a.y == b.y && a.width == b.width && a.height == b.height),
{
    lemma_geo_distance_sum_of_squares(a, b);
    lemma_small_square(a.x - b.x);
    lemma_small_square(a.y - b.y);
    lemma_small_square(a.width - b.width);
    lemma_small_square(a.height - b.height);
}

} // verus!
