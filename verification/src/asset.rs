//! Choosing what to download for a node: a slice export, a rendered
//! snapshot (the node's own or its nearest ancestor's), or an image fill,
//! and the URL, file name and extension of the download.

use vstd::prelude::*;
use crate::ids::{id_segments, segments_of};
use crate::json::{find_member, get_member, member, Json};
use crate::layers::or_empty;
use crate::text::{chars_eq, chars_of, eq_str};
use crate::tools::opt_text;

verus! {

/* ----------------------------------- records ----------------------------------- */

/// An image referenced by a design.
#[derive(Debug, Clone, Default)]
pub struct ImageInfo {
    pub url: Option<String>,
    pub image_type: Option<String>,
}

/// What asset resolution reads of a fill.
#[derive(Debug, Clone, Default)]
pub struct FillRef {
    pub fill_type: Option<String>,
    pub image_hash: Option<String>,
    pub id: Option<String>,
    pub hash: Option<String>,
}

/// What asset resolution reads of a genome node.
#[derive(Debug, Default)]
pub struct AssetNode {
    pub id: Option<String>,
    pub name: Option<String>,
    pub snapshot: Option<String>,
    pub snapshot_preview: Option<String>,
    /// The node's slice exports (an object keyed by format), as read.
    pub slices: Option<Json>,
    pub fills: Vec<FillRef>,
    pub children: Vec<AssetNode>,
}

/* --------------------------------- asset URLs ---------------------------------- */

/// The first image registered under `hash`.
pub open spec fn image_entry(images: Seq<(String, ImageInfo)>, hash: Seq<char>) -> Option<ImageInfo>
    decreases images.len(),
{
    if images.len() == 0 {
        None
    } else if images[0].0@ == hash {
        Some(images[0].1)
    } else {
        image_entry(images.drop_first(), hash)
    }
}

/// Where an asset hash is served from when nothing else names it.
pub open spec fn default_asset_url(hash: Seq<char>) -> Seq<char> {
    "https://fs.moonvy.com/"@ + hash
}

/// The download URL of an asset hash: the file's asset manifest entry when
/// it is a non-empty string, else the design's image URL, else the default
/// asset location.
pub open spec fn asset_url(hash: Seq<char>, assets: Seq<(String, Json)>, images: Seq<(String, ImageInfo)>) -> Seq<char> {
    let from_images = match image_entry(images, hash) {
        Some(i) => match i.url {
            Some(u) => u@,
            None => default_asset_url(hash),
        },
        None => default_asset_url(hash),
    };
    match member(assets, hash) {
        Some(Json::String(u)) => if u@.len() > 0 {
            u@
        } else {
            from_images
        },
        _ => from_images,
    }
}

/// Position of the first image registered under `hash`.
fn find_image(images: &Vec<(String, ImageInfo)>, hash: &String) -> (r: Option<usize>)
    ensures
        match r {
            Some(i) => i < images@.len() && image_entry(images@, hash@) == Some(images@[i as int].1),
            None => image_entry(images@, hash@) is None,
        },
{
    let mut i: usize = 0;
    proof {
        assert(images@.subrange(0, images@.len() as int) =~= images@);
    }
    while i < images.len()
        invariant
            i <= images@.len(),
            image_entry(images@, hash@) == image_entry(images@.subrange(i as int, images@.len() as int), hash@),
        decreases images@.len() - i,
    {
        proof {
            let rest = images@.subrange(i as int, images@.len() as int);
            assert(rest[0] == images@[i as int]);
            assert(rest.drop_first() =~= images@.subrange(i + 1, images@.len() as int));
        }
        if images[i].0.eq(hash) {
            return Some(i);
        }
        i += 1;
    }
    None
}

/// The download URL of an asset hash (see `asset_url`).
pub fn resolve_asset_url(hash: &String, assets: &Vec<(String, Json)>, images: &Vec<(String, ImageInfo)>) -> (r: String)
    ensures
        r@ == asset_url(hash@, assets@, images@),
{
    match get_member(assets, hash.as_str()) {
        Some(Json::String(u)) => {
            if !u.as_str().is_empty() {
                return u.clone();
            }
        },
        _ => {},
    }
    match find_image(images, hash) {
        Some(i) => match &images[i].1.url {
            Some(u) => {
                return u.clone();
            },
            None => {},
        },
        None => {},
    }
    let mut out = String::from_str("https://fs.moonvy.com/");
    out.append(hash.as_str());
    out
}


/* -------------------------------- parent index --------------------------------- */

/// Index entries for a child: each segment of its id, pointing at `parent`.
pub open spec fn segment_entries(c: AssetNode, parent: AssetNode) -> Seq<(Seq<char>, AssetNode)> {
    match c.id {
        Some(id) => id_segments(id@).map_values(|s: Seq<char>| (s, parent)),
        None => Seq::empty(),
    }
}

/// Index entries for the children of `parent` and their subtrees, in walk
/// order: each child's own entries, then its subtree's.
pub open spec fn child_entries(children: Seq<AssetNode>, parent: AssetNode) -> Seq<(Seq<char>, AssetNode)>
    decreases children,
{
    if children.len() == 0 {
        Seq::empty()
    } else {
        proof {
            assert(decreases_to!(children => children[0]));
            assert(decreases_to!(children => children.subrange(1, children.len() as int)));
        }
        segment_entries(children[0], parent) + node_entries(children[0]) + child_entries(
            children.subrange(1, children.len() as int),
            parent,
        )
    }
}

/// Index entries for the subtree below `n`.
pub open spec fn node_entries(n: AssetNode) -> Seq<(Seq<char>, AssetNode)>
    decreases n,
{
    proof {
        assert(decreases_to!(n => n.children));
        assert(decreases_to!(n.children => n.children@));
    }
    child_entries(n.children@, n)
}

/// Index entries for every page, in page order.
pub open spec fn page_entries(pages: Seq<AssetNode>) -> Seq<(Seq<char>, AssetNode)>
    decreases pages.len(),
{
    if pages.len() == 0 {
        Seq::empty()
    } else {
        node_entries(pages[0]) + page_entries(pages.subrange(1, pages.len() as int))
    }
}

/// The parent indexed under `key`: the last entry with that key (later
/// entries take the key over).
pub open spec fn index_get(es: Seq<(Seq<char>, AssetNode)>, key: Seq<char>) -> Option<AssetNode>
    decreases es.len(),
{
    if es.len() == 0 {
        None
    } else if es.last().0 == key {
        Some(es.last().1)
    } else {
        index_get(es.drop_last(), key)
    }
}

/// The parent indexed under the first of `segs` that has one.
pub open spec fn first_indexed(es: Seq<(Seq<char>, AssetNode)>, segs: Seq<Seq<char>>) -> Option<AssetNode>
    decreases segs.len(),
{
    if segs.len() == 0 {
        None
    } else {
        match index_get(es, segs[0]) {
            Some(n) => Some(n),
            None => first_indexed(es, segs.drop_first()),
        }
    }
}

/// The parent of the node with id `id`: indexed under the whole id, else
/// under the first of its segments that is indexed.
pub open spec fn parent_of(es: Seq<(Seq<char>, AssetNode)>, id: Seq<char>) -> Option<AssetNode> {
    match index_get(es, id) {
        Some(n) => Some(n),
        None => first_indexed(es, id_segments(id)),
    }
}

/// Appends the index entries of the children of `parent` and their subtrees.
fn index_children<'a>(parent: &'a AssetNode, out: &mut Vec<(Vec<char>, &'a AssetNode)>)
    ensures
        final(out)@.map_values(|e: (Vec<char>, &AssetNode)| (e.0@, *e.1)) == old(out)@.map_values(
            |e: (Vec<char>, &AssetNode)| (e.0@, *e.1),
        ) + node_entries(*parent),
    decreases parent,
{
    let ghost start = out@.map_values(|e: (Vec<char>, &AssetNode)| (e.0@, *e.1));
    let ghost cs = parent.children@;
    proof {
        assert(cs.subrange(0, cs.len() as int) =~= cs);
        assert(node_entries(*parent) == child_entries(cs, *parent));
        assert(start + Seq::<(Seq<char>, AssetNode)>::empty() =~= start);
    }
    let mut i: usize = 0;
    while i < parent.children.len()
        invariant
            cs == parent.children@,
            i <= cs.len(),
            start + child_entries(cs, *parent) == out@.map_values(|e: (Vec<char>, &AssetNode)| (e.0@, *e.1)) + child_entries(
                cs.subrange(i as int, cs.len() as int),
                *parent,
            ),
        decreases cs.len() - i,
    {
        let child = &parent.children[i];
        let ghost before = out@.map_values(|e: (Vec<char>, &AssetNode)| (e.0@, *e.1));
        let ghost rest = cs.subrange(i as int, cs.len() as int);
        proof {
            assert(rest[0] == *child);
            assert(rest.subrange(1, rest.len() as int) =~= cs.subrange(i + 1, cs.len() as int));
        }
        match &child.id {
            Some(id) => {
                let idc = chars_of(id.as_str());
                let segs = segments_of(&idc);
                let mut k: usize = 0;
                while k < segs.len()
                    invariant
                        k <= segs@.len(),
                        segs@.len() == id_segments(id@).len(),
                        forall|t: int| 0 <= t < segs@.len() ==> #[trigger] segs@[t]@ == id_segments(id@)[t],
                        out@.map_values(|e: (Vec<char>, &AssetNode)| (e.0@, *e.1)) == before + id_segments(id@).subrange(
                            0,
                            k as int,
                        ).map_values(|s: Seq<char>| (s, *parent)),
                    decreases segs@.len() - k,
                {
                    let ghost o = out@.map_values(|e: (Vec<char>, &AssetNode)| (e.0@, *e.1));
                    out.push((segs[k].clone(), parent));
                    proof {
                        assert(out@.map_values(|e: (Vec<char>, &AssetNode)| (e.0@, *e.1)) =~= o.push((segs@[k as int]@, *parent)));
                        assert(id_segments(id@).subrange(0, k + 1).map_values(|s: Seq<char>| (s, *parent)) =~= id_segments(
                            id@,
                        ).subrange(0, k as int).map_values(|s: Seq<char>| (s, *parent)).push((id_segments(id@)[k as int], *parent)));
                    }
                    k += 1;
                }
                proof {
                    assert(id_segments(id@).subrange(0, segs@.len() as int) =~= id_segments(id@));
                }
            },
            None => {
                proof {
                    assert(before + segment_entries(*child, *parent) =~= before);
                }
            },
        }
        proof {
            assert(out@.map_values(|e: (Vec<char>, &AssetNode)| (e.0@, *e.1)) == before + segment_entries(*child, *parent));
            assert(decreases_to!(*parent => parent.children));
            assert(decreases_to!(parent.children => parent.children@));
            assert(decreases_to!(parent.children@ => parent.children@[i as int]));
        }
        let ghost mid = out@.map_values(|e: (Vec<char>, &AssetNode)| (e.0@, *e.1));
        index_children(child, out);
        proof {
            let after = out@.map_values(|e: (Vec<char>, &AssetNode)| (e.0@, *e.1));
            assert(after == mid + node_entries(*child));
            assert(child_entries(rest, *parent) == segment_entries(*child, *parent) + node_entries(*child) + child_entries(
                cs.subrange(i + 1, cs.len() as int),
                *parent,
            ));
            assert(before + child_entries(rest, *parent) =~= after + child_entries(cs.subrange(i + 1, cs.len() as int), *parent));
        }
        i += 1;
    }
    proof {
        assert(cs.subrange(cs.len() as int, cs.len() as int) =~= Seq::<AssetNode>::empty());
        let after = out@.map_values(|e: (Vec<char>, &AssetNode)| (e.0@, *e.1));
        assert(after + child_entries(Seq::<AssetNode>::empty(), *parent) =~= after);
    }
}

/// The parent index of a design: every child id segment, pointing at its
/// parent.
fn parent_index<'a>(pages: &'a Vec<AssetNode>) -> (r: Vec<(Vec<char>, &'a AssetNode)>)
    ensures
        r@.map_values(|e: (Vec<char>, &AssetNode)| (e.0@, *e.1)) == page_entries(pages@),
{
    let mut out: Vec<(Vec<char>, &'a AssetNode)> = Vec::new();
    proof {
        assert(pages@.subrange(0, pages@.len() as int) =~= pages@);
        assert(out@.map_values(|e: (Vec<char>, &AssetNode)| (e.0@, *e.1)) + page_entries(pages@) =~= page_entries(pages@));
    }
    let mut i: usize = 0;
    while i < pages.len()
        invariant
            i <= pages@.len(),
            page_entries(pages@) == out@.map_values(|e: (Vec<char>, &AssetNode)| (e.0@, *e.1)) + page_entries(
                pages@.subrange(i as int, pages@.len() as int),
            ),
        decreases pages@.len() - i,
    {
        let ghost before = out@.map_values(|e: (Vec<char>, &AssetNode)| (e.0@, *e.1));
        let ghost rest = pages@.subrange(i as int, pages@.len() as int);
        proof {
            assert(rest[0] == pages@[i as int]);
            assert(rest.subrange(1, rest.len() as int) =~= pages@.subrange(i + 1, pages@.len() as int));
        }
        index_children(&pages[i], &mut out);
        proof {
            let after = out@.map_values(|e: (Vec<char>, &AssetNode)| (e.0@, *e.1));
            assert(before + page_entries(rest) =~= after + page_entries(pages@.subrange(i + 1, pages@.len() as int)));
        }
        i += 1;
    }
    proof {
        assert(pages@.subrange(pages@.len() as int, pages@.len() as int) =~= Seq::<AssetNode>::empty());
        let after = out@.map_values(|e: (Vec<char>, &AssetNode)| (e.0@, *e.1));
        assert(after + page_entries(Seq::<AssetNode>::empty()) =~= after);
    }
    out
}


/// The entries of an index as plain values.
pub open spec fn entries_view(index: Seq<(Vec<char>, &AssetNode)>) -> Seq<(Seq<char>, AssetNode)> {
    index.map_values(|e: (Vec<char>, &AssetNode)| (e.0@, *e.1))
}

/// Position of the entry `index_get` finds for `key`.
fn index_lookup(index: &Vec<(Vec<char>, &AssetNode)>, key: &Vec<char>) -> (r: Option<usize>)
    ensures
        match r {
            Some(k) => k < index@.len() && index_get(entries_view(index@), key@) == Some(*index@[k as int].1),
            None => index_get(entries_view(index@), key@) is None,
        },
{
    let ghost es = entries_view(index@);
    let mut i: usize = index.len();
    proof {
        assert(es.subrange(0, es.len() as int) =~= es);
    }
    while i > 0
        invariant
            es == entries_view(index@),
            i <= index@.len(),
            index_get(es, key@) == index_get(es.subrange(0, i as int), key@),
        decreases i,
    {
        let ghost pre = es.subrange(0, i as int);
        proof {
            assert(pre.last() == es[i - 1]);
            assert(pre.drop_last() =~= es.subrange(0, i - 1));
        }
        if chars_eq(index[i - 1].0.as_slice(), key.as_slice()) {
            return Some(i - 1);
        }
        i -= 1;
    }
    None
}

/// Position of the entry `parent_of` finds for `id`.
fn lookup_parent(index: &Vec<(Vec<char>, &AssetNode)>, id: &str) -> (r: Option<usize>)
    ensures
        match r {
            Some(k) => k < index@.len() && parent_of(entries_view(index@), id@) == Some(*index@[k as int].1),
            None => parent_of(entries_view(index@), id@) is None,
        },
{
    let ghost es = entries_view(index@);
    let idc = chars_of(id);
    match index_lookup(index, &idc) {
        Some(k) => {
            return Some(k);
        },
        None => {},
    }
    let segs = segments_of(&idc);
    let ghost sv = id_segments(id@);
    let mut t: usize = 0;
    proof {
        assert(sv.subrange(0, sv.len() as int) =~= sv);
    }
    while t < segs.len()
        invariant
            es == entries_view(index@),
            index_get(es, id@) is None,
            sv == id_segments(id@),
            segs@.len() == sv.len(),
            forall|u: int| 0 <= u < segs@.len() ==> #[trigger] segs@[u]@ == sv[u],
            t <= segs@.len(),
            first_indexed(es, sv) == first_indexed(es, sv.subrange(t as int, sv.len() as int)),
        decreases segs@.len() - t,
    {
        let ghost rest = sv.subrange(t as int, sv.len() as int);
        proof {
            assert(rest[0] == segs@[t as int]@);
            assert(rest.drop_first() =~= sv.subrange(t + 1, sv.len() as int));
        }
        match index_lookup(index, &segs[t]) {
            Some(k) => {
                proof {
                    assert(index_get(es, rest[0]) == Some(*index@[k as int].1));
                    assert(first_indexed(es, rest) == Some(*index@[k as int].1));
                }
                return Some(k);
            },
            None => {},
        }
        t += 1;
    }
    None
}

/// A node's own rendered snapshot: the full one, else the preview.
pub open spec fn snapshot_of(n: AssetNode) -> Option<Seq<char>> {
    match n.snapshot {
        Some(s) => Some(s@),
        None => opt_text(n.snapshot_preview),
    }
}

/// Climbs from `cur` through parents: the first node with a snapshot gives
/// (snapshot, name); the climb ends at a node without id, at an id seen
/// before, or where no parent is indexed. `fuel` bounds the climb.
pub open spec fn walk_up(
    es: Seq<(Seq<char>, AssetNode)>,
    cur: Option<AssetNode>,
    seen: Set<Seq<char>>,
    fuel: nat,
) -> Option<(Seq<char>, Option<Seq<char>>)>
    decreases fuel,
{
    if fuel == 0 {
        None
    } else {
        match cur {
            None => None,
            Some(n) => match n.id {
                None => None,
                Some(id) => if seen.contains(id@) {
                    None
                } else {
                    match snapshot_of(n) {
                        Some(s) => Some((s, opt_text(n.name))),
                        None => walk_up(es, parent_of(es, id@), seen.insert(id@), (fuel - 1) as nat),
                    }
                },
            },
        }
    }
}

/// The nearest ancestor snapshot of the node `layer_id`, with the
/// ancestor's name (a climb can visit each indexed node at most once, so
/// `es.len() + 1` steps always suffice).
pub open spec fn parent_snapshot(pages: Seq<AssetNode>, layer_id: Seq<char>) -> Option<(Seq<char>, Option<Seq<char>>)> {
    let es = page_entries(pages);
    walk_up(es, parent_of(es, layer_id), Set::empty(), (es.len() + 1) as nat)
}

/// The ids of the nodes an index points at.
pub open spec fn indexed_ids(es: Seq<(Seq<char>, AssetNode)>) -> Set<Seq<char>> {
    es.map_values(|e: (Seq<char>, AssetNode)| or_empty(e.1.id)).to_set()
}

fn contains_chars_vec(seen: &Vec<Vec<char>>, x: &Vec<char>) -> (r: bool)
    ensures
        r == seen@.map_values(|v: Vec<char>| v@).contains(x@),
{
    let ghost sv = seen@.map_values(|v: Vec<char>| v@);
    let mut i: usize = 0;
    while i < seen.len()
        invariant
            sv == seen@.map_values(|v: Vec<char>| v@),
            i <= seen@.len(),
            forall|t: int| 0 <= t < i ==> sv[t] != x@,
        decreases seen@.len() - i,
    {
        if chars_eq(seen[i].as_slice(), x.as_slice()) {
            assert(sv[i as int] == x@);
            return true;
        }
        i += 1;
    }
    false
}

/// Walks up the ancestor chain of `layer_id` and returns the first
/// snapshot found, with the name of the node it belongs to.
pub fn find_parent_snapshot(pages: &Vec<AssetNode>, layer_id: &str) -> (r: Option<(String, Option<String>)>)
    ensures
        match r {
            Some((s, n)) => parent_snapshot(pages@, layer_id@) == Some((s@, opt_text(n))),
            None => parent_snapshot(pages@, layer_id@) is None,
        },
{
    let index = parent_index(pages);
    let ghost es = entries_view(index@);
    let ghost ids = indexed_ids(es);
    proof {
        assert(es == page_entries(pages@));
        es.map_values(|e: (Seq<char>, AssetNode)| or_empty(e.1.id)).lemma_cardinality_of_set();
        assert(ids.finite()) by {
            vstd::seq_lib::seq_to_set_is_finite(es.map_values(|e: (Seq<char>, AssetNode)| or_empty(e.1.id)));
        }
    }
    let mut cur = lookup_parent(&index, layer_id);
    let mut seen: Vec<Vec<char>> = Vec::new();
    let ghost mut seen_set: Set<Seq<char>> = Set::empty();
    proof {
        assert(seen@.map_values(|v: Vec<char>| v@).to_set() =~= seen_set);
    }
    loop
        invariant
            es == entries_view(index@),
            es == page_entries(pages@),
            ids == indexed_ids(es),
            ids.finite(),
            ids.len() <= es.len(),
            seen_set.finite(),
            seen_set.subset_of(ids),
            seen@.len() == seen_set.len(),
            seen@.map_values(|v: Vec<char>| v@).to_set() == seen_set,
            match cur {
                Some(k) => k < index@.len(),
                None => true,
            },
            parent_snapshot(pages@, layer_id@) == walk_up(
                es,
                match cur {
                    Some(k) => Some(*index@[k as int].1),
                    None => None,
                },
                seen_set,
                (es.len() + 1 - seen_set.len()) as nat,
            ),
        decreases es.len() + 1 - seen@.len(),
    {
        proof {
            vstd::set_lib::lemma_len_subset(seen_set, ids);
        }
        let k = match cur {
            Some(k) => k,
            None => {
                return None;
            },
        };
        let node: &AssetNode = index[k].1;
        let id = match &node.id {
            Some(id) => id,
            None => {
                return None;
            },
        };
        let idc = chars_of(id.as_str());
        if contains_chars_vec(&seen, &idc) {
            proof {
                assert(seen_set.contains(id@));
            }
            return None;
        }
        match &node.snapshot {
            Some(s) => {
                return Some((s.clone(), match &node.name {
                    Some(n) => Some(n.clone()),
                    None => None,
                }));
            },
            None => {},
        }
        match &node.snapshot_preview {
            Some(s) => {
                return Some((s.clone(), match &node.name {
                    Some(n) => Some(n.clone()),
                    None => None,
                }));
            },
            None => {},
        }
        let ghost old_set = seen_set;
        let ghost old_seen = seen@.map_values(|v: Vec<char>| v@);
        seen.push(idc);
        proof {
            seen_set = seen_set.insert(id@);
            assert(seen@.map_values(|v: Vec<char>| v@) =~= old_seen.push(id@));
            let sv = seen@.map_values(|v: Vec<char>| v@);
            assert forall|y: Seq<char>| sv.to_set().contains(y) <==> old_set.insert(id@).contains(y) by {
                if sv.contains(y) {
                    let p = choose|p: int| 0 <= p < sv.len() && sv[p] == y;
                    if p < old_seen.len() {
                        assert(old_seen[p] == y);
                        assert(old_seen.contains(y));
                        assert(old_seen.to_set().contains(y));
                    }
                }
                if old_set.contains(y) {
                    assert(old_seen.to_set().contains(y));
                    let p = choose|p: int| 0 <= p < old_seen.len() && old_seen[p] == y;
                    assert(sv[p] == y);
                }
                if y == id@ {
                    assert(sv[sv.len() - 1] == y);
                }
            }
            assert(sv.to_set() =~= old_set.insert(id@));
            assert(es[k as int].1 == *node);
            let m = es.map_values(|e: (Seq<char>, AssetNode)| or_empty(e.1.id));
            assert(m[k as int] == id@);
            assert(ids.contains(id@));
            assert(!old_set.contains(id@));
            assert(seen_set.len() == old_set.len() + 1);
            vstd::set_lib::lemma_len_subset(seen_set, ids);
        }
        cur = lookup_parent(&index, id.as_str());
    }
}


/* --------------------------------- the choice ---------------------------------- */

/// Why no asset could be chosen.
#[derive(Debug, Clone)]
pub enum AssetError {
    /// A slice was asked for and the node has none.
    NoSlices,
    /// The node's slices have no export for the format.
    FormatNotFound(String),
    /// Neither the node nor an ancestor has a snapshot.
    NoSnapshot,
    /// The image fill names no resolvable asset and the node has no id.
    NoImageReference,
    /// The image fill names no resolvable asset and no snapshot stands in.
    NoImageOrSnapshot,
    /// The asset type asked for is not slice, snapshot or image.
    InvalidType(String),
    /// The node has neither a file nor a preview to download.
    NoDownload,
}

pub enum AssetErrorView {
    NoSlices,
    FormatNotFound(Seq<char>),
    NoSnapshot,
    NoImageReference,
    NoImageOrSnapshot,
    InvalidType(Seq<char>),
    NoDownload,
}

impl View for AssetError {
    type V = AssetErrorView;

    open spec fn view(&self) -> AssetErrorView {
        match self {
            AssetError::NoSlices => AssetErrorView::NoSlices,
            AssetError::FormatNotFound(f) => AssetErrorView::FormatNotFound(f@),
            AssetError::NoSnapshot => AssetErrorView::NoSnapshot,
            AssetError::NoImageReference => AssetErrorView::NoImageReference,
            AssetError::NoImageOrSnapshot => AssetErrorView::NoImageOrSnapshot,
            AssetError::InvalidType(t) => AssetErrorView::InvalidType(t@),
            AssetError::NoDownload => AssetErrorView::NoDownload,
        }
    }
}

impl AssetError {
    /// The node simply has no asset of the kind looked for: a normal
    /// outcome reported as data, not a failure (an unknown asset type is a
    /// failure).
    pub fn is_unavailable(&self) -> (r: bool)
        ensures
            r == !(self@ is InvalidType),
    {
        match self {
            AssetError::InvalidType(_) => false,
            _ => true,
        }
    }

    /// The message reported for the error.
    pub fn message(&self) -> (r: String)
        ensures
            r@ == (match self@ {
                AssetErrorView::NoSlices => "Node does not have slices."@,
                AssetErrorView::FormatNotFound(f) => "Format \""@ + f + "\" not found on slice."@,
                AssetErrorView::NoSnapshot => "No snapshot found for this node or its parents."@,
                AssetErrorView::NoImageReference => "Image fill does not have a valid asset reference."@,
                AssetErrorView::NoImageOrSnapshot => "Image fill does not have a valid asset reference and no snapshot fallback exists."@,
                AssetErrorView::InvalidType(t) => "Invalid type: "@ + t,
                AssetErrorView::NoDownload => "Node does not have any downloadable asset or preview."@,
            }),
    {
        match self {
            AssetError::NoSlices => String::from_str("Node does not have slices."),
            AssetError::FormatNotFound(f) => {
                let mut m = String::from_str("Format \"");
                m.append(f.as_str());
                m.append("\" not found on slice.");
                m
            },
            AssetError::NoSnapshot => String::from_str("No snapshot found for this node or its parents."),
            AssetError::NoImageReference => String::from_str("Image fill does not have a valid asset reference."),
            AssetError::NoImageOrSnapshot => String::from_str(
                "Image fill does not have a valid asset reference and no snapshot fallback exists.",
            ),
            AssetError::InvalidType(t) => {
                let mut m = String::from_str("Invalid type: ");
                m.append(t.as_str());
                m
            },
            AssetError::NoDownload => String::from_str("Node does not have any downloadable asset or preview."),
        }
    }
}

/// The asset chosen for a node.
#[derive(Debug, Clone)]
pub struct AssetPick {
    pub url: String,
    /// Name for the downloaded file.
    pub name: String,
    /// File extension, with its dot.
    pub extension: String,
    /// Which kind of asset was chosen (slice, snapshot:own,
    /// snapshot:ancestor, image, image-fallback-snapshot:own, ...).
    pub resolved_type: String,
    /// The snapshot hash, when the asset is a snapshot.
    pub snapshot_hash: Option<String>,
    /// The asset is a snapshot of which the node's own area can be cut out:
    /// its absolute rect is wanted.
    pub wants_rect: bool,
}

pub struct AssetPickView {
    pub url: Seq<char>,
    pub name: Seq<char>,
    pub extension: Seq<char>,
    pub resolved_type: Seq<char>,
    pub snapshot_hash: Option<Seq<char>>,
    pub wants_rect: bool,
}

impl View for AssetPick {
    type V = AssetPickView;

    open spec fn view(&self) -> AssetPickView {
        AssetPickView {
            url: self.url@,
            name: self.name@,
            extension: self.extension@,
            resolved_type: self.resolved_type@,
            snapshot_hash: opt_text(self.snapshot_hash),
            wants_rect: self.wants_rect,
        }
    }
}

/// The slice exports of a node, when they are an object.
pub open spec fn slices_object(n: AssetNode) -> Option<Seq<(String, Json)>> {
    match n.slices {
        Some(Json::Object(m)) => Some(m@),
        _ => None,
    }
}

/// A fill of type `image`.
pub open spec fn is_image_fill(f: FillRef) -> bool {
    opt_text(f.fill_type) == Some("image"@)
}

/// The first image fill.
pub open spec fn first_image_fill(fills: Seq<FillRef>) -> Option<FillRef>
    decreases fills.len(),
{
    if fills.len() == 0 {
        None
    } else if is_image_fill(fills[0]) {
        Some(fills[0])
    } else {
        first_image_fill(fills.drop_first())
    }
}

/// The type of asset to fetch: the one asked for, else a slice when the
/// node has slice exports, a snapshot when it has its own, an image when it
/// has an image fill, and a snapshot otherwise.
pub open spec fn inferred_type(n: AssetNode, requested: Option<Seq<char>>) -> Seq<char> {
    match requested {
        Some(t) => t,
        None => if slices_object(n) is Some {
            "slice"@
        } else if n.snapshot is Some {
            "snapshot"@
        } else if first_image_fill(n.fills@) is Some {
            "image"@
        } else {
            "snapshot"@
        },
    }
}

/// The export id of a slice format: the format's export, else `max`, else
/// `base` (the first that is present), when it is an object with a string
/// `id`.
pub open spec fn slice_hash(m: Seq<(String, Json)>, format: Seq<char>) -> Option<Seq<char>> {
    let v = match member(m, format) {
        Some(v) => Some(v),
        None => match member(m, "max"@) {
            Some(v) => Some(v),
            None => member(m, "base"@),
        },
    };
    match v {
        Some(Json::Object(o)) => match member(o@, "id"@) {
            Some(Json::String(s)) => Some(s@),
            _ => None,
        },
        _ => None,
    }
}

/// The asset hash of a fill: its image hash, else its id, else its hash.
pub open spec fn fill_hash(f: FillRef) -> Option<Seq<char>> {
    match f.image_hash {
        Some(h) => Some(h@),
        None => match f.id {
            Some(h) => Some(h@),
            None => opt_text(f.hash),
        },
    }
}

/// A hash counts when it is non-empty and the asset manifest or the
/// design's images know it.
pub open spec fn hash_resolves(h: Seq<char>, assets: Seq<(String, Json)>, images: Seq<(String, ImageInfo)>) -> bool {
    h.len() > 0 && (member(assets, h) is Some || image_entry(images, h) is Some)
}

/// The file extension of an image asset: its registered type, else png.
pub open spec fn image_extension(h: Seq<char>, images: Seq<(String, ImageInfo)>) -> Seq<char> {
    match image_entry(images, h) {
        Some(i) => match i.image_type {
            Some(t) => "."@ + t@,
            None => ".png"@,
        },
        None => ".png"@,
    }
}

pub open spec fn pick(url: Seq<char>, name: Seq<char>, extension: Seq<char>, resolved_type: Seq<char>, snapshot_hash: Option<Seq<char>>, wants_rect: bool) -> AssetPickView {
    AssetPickView { url, name, extension, resolved_type, snapshot_hash, wants_rect }
}

/// The asset chosen for a layer found in the design (see the module
/// documentation): slice export, own or ancestor snapshot, image fill, or
/// for an image fill without a resolvable asset the snapshot instead.
pub open spec fn layer_pick(
    n: AssetNode,
    pages: Seq<AssetNode>,
    requested: Option<Seq<char>>,
    slice_format: Option<Seq<char>>,
    assets: Seq<(String, Json)>,
    images: Seq<(String, ImageInfo)>,
) -> Result<AssetPickView, AssetErrorView> {
    let name0 = match n.name {
        Some(x) => x@,
        None => "unnamed"@,
    };
    let t = inferred_type(n, requested);
    if t == "slice"@ {
        match slices_object(n) {
            None => Err(AssetErrorView::NoSlices),
            Some(m) => {
                let format = match slice_format {
                    Some(f) => f,
                    None => "svg"@,
                };
                match slice_hash(m, format) {
                    None => Err(AssetErrorView::FormatNotFound(format)),
                    Some(h) => Ok(pick(asset_url(h, assets, images), name0, if format == "svg"@ {
                        ".svg"@
                    } else {
                        ".png"@
                    }, t, None, false)),
                }
            },
        }
    } else if t == "snapshot"@ {
        match snapshot_of(n) {
            Some(h) => Ok(pick(asset_url(h, assets, images), name0, ".png"@, "snapshot:own"@, Some(h), n.id is Some)),
            None => match n.id {
                Some(id) => match parent_snapshot(pages, id@) {
                    Some((h, pn)) => Ok(pick(asset_url(h, assets, images), match pn {
                        Some(x) => x,
                        None => name0,
                    }, ".png"@, "snapshot:ancestor"@, Some(h), true)),
                    None => Err(AssetErrorView::NoSnapshot),
                },
                None => Err(AssetErrorView::NoSnapshot),
            },
        }
    } else if t == "image"@ {
        let hash = match first_image_fill(n.fills@) {
            Some(f) => match fill_hash(f) {
                Some(h) => if hash_resolves(h, assets, images) {
                    Some(h)
                } else {
                    None
                },
                None => None,
            },
            None => None,
        };
        match hash {
            Some(h) => Ok(pick(asset_url(h, assets, images), name0, image_extension(h, images), t, None, false)),
            None => match n.id {
                Some(id) => match snapshot_of(n) {
                    Some(h) => Ok(pick(asset_url(h, assets, images), name0, ".png"@, "image-fallback-snapshot:own"@, Some(h), true)),
                    None => match parent_snapshot(pages, id@) {
                        Some((h, _pn)) => Ok(pick(asset_url(h, assets, images), name0, ".png"@, "image-fallback-snapshot:ancestor"@, Some(h), true)),
                        None => Err(AssetErrorView::NoImageOrSnapshot),
                    },
                },
                None => Err(AssetErrorView::NoImageReference),
            },
        }
    } else {
        Err(AssetErrorView::InvalidType(t))
    }
}


fn first_image_fill_at(fills: &Vec<FillRef>) -> (r: Option<usize>)
    ensures
        match r {
            Some(i) => i < fills@.len() && first_image_fill(fills@) == Some(fills@[i as int]),
            None => first_image_fill(fills@) is None,
        },
{
    let mut i: usize = 0;
    proof {
        assert(fills@.subrange(0, fills@.len() as int) =~= fills@);
    }
    while i < fills.len()
        invariant
            i <= fills@.len(),
            first_image_fill(fills@) == first_image_fill(fills@.subrange(i as int, fills@.len() as int)),
        decreases fills@.len() - i,
    {
        let ghost rest = fills@.subrange(i as int, fills@.len() as int);
        proof {
            assert(rest[0] == fills@[i as int]);
            assert(rest.drop_first() =~= fills@.subrange(i + 1, fills@.len() as int));
        }
        let is_image = match &fills[i].fill_type {
            Some(t) => {
                let c = chars_of(t.as_str());
                eq_str(c.as_slice(), "image")
            },
            None => false,
        };
        if is_image {
            return Some(i);
        }
        i += 1;
    }
    None
}

fn slice_hash_exec(m: &Vec<(String, Json)>, format: &str) -> (r: Option<String>)
    ensures
        opt_text(r) == slice_hash(m@, format@),
{
    let v = match get_member(m, format) {
        Some(v) => Some(v),
        None => match get_member(m, "max") {
            Some(v) => Some(v),
            None => get_member(m, "base"),
        },
    };
    match v {
        Some(Json::Object(o)) => match get_member(o, "id") {
            Some(Json::String(s)) => Some(s.clone()),
            _ => None,
        },
        _ => None,
    }
}

fn snapshot_exec(n: &AssetNode) -> (r: Option<String>)
    ensures
        opt_text(r) == snapshot_of(*n),
{
    match &n.snapshot {
        Some(s) => Some(s.clone()),
        None => match &n.snapshot_preview {
            Some(s) => Some(s.clone()),
            None => None,
        },
    }
}

fn image_extension_exec(h: &String, images: &Vec<(String, ImageInfo)>) -> (r: String)
    ensures
        r@ == image_extension(h@, images@),
{
    match find_image(images, h) {
        Some(i) => match &images[i].1.image_type {
            Some(t) => {
                let mut e = String::from_str(".");
                e.append(t.as_str());
                e
            },
            None => String::from_str(".png"),
        },
        None => String::from_str(".png"),
    }
}

/// Chooses the asset of a layer found in the design (see `layer_pick`).
pub fn pick_layer_asset(
    layer: &AssetNode,
    pages: &Vec<AssetNode>,
    requested: Option<&str>,
    slice_format: Option<&str>,
    assets: &Vec<(String, Json)>,
    images: &Vec<(String, ImageInfo)>,
) -> (r: Result<AssetPick, AssetError>)
    ensures
        match r {
            Ok(p) => layer_pick(*layer, pages@, crate::ids::opt_str(requested), crate::ids::opt_str(slice_format), assets@, images@)
                == Ok::<AssetPickView, AssetErrorView>(p@),
            Err(e) => layer_pick(*layer, pages@, crate::ids::opt_str(requested), crate::ids::opt_str(slice_format), assets@, images@)
                == Err::<AssetPickView, AssetErrorView>(e@),
        },
{
    let name0 = match &layer.name {
        Some(x) => x.clone(),
        None => String::from_str("unnamed"),
    };
    let slices: Option<&Vec<(String, Json)>> = match &layer.slices {
        Some(Json::Object(m)) => Some(m),
        _ => None,
    };
    let t: String = match requested {
        Some(t) => String::from_str(t),
        None => {
            if slices.is_some() {
                String::from_str("slice")
            } else if layer.snapshot.is_some() {
                String::from_str("snapshot")
            } else if first_image_fill_at(&layer.fills).is_some() {
                String::from_str("image")
            } else {
                String::from_str("snapshot")
            }
        },
    };
    proof {
        assert(t@ == inferred_type(*layer, crate::ids::opt_str(requested)));
    }
    let tc = chars_of(t.as_str());
    if eq_str(tc.as_slice(), "slice") {
        let m = match slices {
            Some(m) => m,
            None => {
                return Err(AssetError::NoSlices);
            },
        };
        let format: &str = match slice_format {
            Some(f) => f,
            None => "svg",
        };
        let hash = match slice_hash_exec(m, format) {
            Some(h) => h,
            None => {
                return Err(AssetError::FormatNotFound(String::from_str(format)));
            },
        };
        let fc = chars_of(format);
        let extension = if eq_str(fc.as_slice(), "svg") {
            String::from_str(".svg")
        } else {
            String::from_str(".png")
        };
        let url = resolve_asset_url(&hash, assets, images);
        return Ok(AssetPick { url, name: name0, extension, resolved_type: t, snapshot_hash: None, wants_rect: false });
    }
    if eq_str(tc.as_slice(), "snapshot") {
        match snapshot_exec(layer) {
            Some(h) => {
                let url = resolve_asset_url(&h, assets, images);
                return Ok(
                    AssetPick {
                        url,
                        name: name0,
                        extension: String::from_str(".png"),
                        resolved_type: String::from_str("snapshot:own"),
                        snapshot_hash: Some(h),
                        wants_rect: layer.id.is_some(),
                    },
                );
            },
            None => {},
        }
        let id = match &layer.id {
            Some(id) => id,
            None => {
                return Err(AssetError::NoSnapshot);
            },
        };
        match find_parent_snapshot(pages, id.as_str()) {
            Some((h, pn)) => {
                let url = resolve_asset_url(&h, assets, images);
                let name = match pn {
                    Some(x) => x,
                    None => name0,
                };
                return Ok(
                    AssetPick {
                        url,
                        name,
                        extension: String::from_str(".png"),
                        resolved_type: String::from_str("snapshot:ancestor"),
                        snapshot_hash: Some(h),
                        wants_rect: true,
                    },
                );
            },
            None => {
                return Err(AssetError::NoSnapshot);
            },
        }
    }
    if eq_str(tc.as_slice(), "image") {
        let mut hash: Option<String> = None;
        match first_image_fill_at(&layer.fills) {
            Some(i) => {
                let f = &layer.fills[i];
                let h: Option<&String> = match &f.image_hash {
                    Some(h) => Some(h),
                    None => match &f.id {
                        Some(h) => Some(h),
                        None => match &f.hash {
                            Some(h) => Some(h),
                            None => None,
                        },
                    },
                };
                match h {
                    Some(h) => {
                        let known = find_member(assets, h.as_str()).is_some() || find_image(images, h).is_some();
                        if !h.as_str().is_empty() && known {
                            hash = Some(h.clone());
                        }
                    },
                    None => {},
                }
            },
            None => {},
        }
        match hash {
            Some(h) => {
                let url = resolve_asset_url(&h, assets, images);
                let extension = image_extension_exec(&h, images);
                return Ok(AssetPick { url, name: name0, extension, resolved_type: t, snapshot_hash: None, wants_rect: false });
            },
            None => {},
        }
        let id = match &layer.id {
            Some(id) => id,
            None => {
                return Err(AssetError::NoImageReference);
            },
        };
        match snapshot_exec(layer) {
            Some(h) => {
                let url = resolve_asset_url(&h, assets, images);
                return Ok(
                    AssetPick {
                        url,
                        name: name0,
                        extension: String::from_str(".png"),
                        resolved_type: String::from_str("image-fallback-snapshot:own"),
                        snapshot_hash: Some(h),
                        wants_rect: true,
                    },
                );
            },
            None => {},
        }
        match find_parent_snapshot(pages, id.as_str()) {
            Some((h, _pn)) => {
                let url = resolve_asset_url(&h, assets, images);
                return Ok(
                    AssetPick {
                        url,
                        name: name0,
                        extension: String::from_str(".png"),
                        resolved_type: String::from_str("image-fallback-snapshot:ancestor"),
                        snapshot_hash: Some(h),
                        wants_rect: true,
                    },
                );
            },
            None => {
                return Err(AssetError::NoImageOrSnapshot);
            },
        }
    }
    Err(AssetError::InvalidType(t))
}


/* ---------------------------- the node's own files ------------------------------ */

/// The first preview image: large, else normal.
pub open spec fn preview_url(p: Option<crate::api::Preview>) -> Option<Seq<char>> {
    match p {
        Some(pv) => match pv.large {
            Some(u) => Some(u@),
            None => opt_text(pv.normal),
        },
        None => None,
    }
}

/// The URL of the node's own file.
pub open spec fn file_url(f: Option<crate::api::Files>) -> Option<Seq<char>> {
    match f {
        Some(fs) => match fs.file {
            Some(r) => opt_text(r.url),
            None => None,
        },
        None => None,
    }
}

/// The asset of a node that is not a layer of a design: its preview when a
/// snapshot is asked for, else its own file, else its preview; the
/// extension is guessed from the URL.
pub open spec fn node_pick(
    requested: Option<Seq<char>>,
    name: Option<Seq<char>>,
    preview: Option<crate::api::Preview>,
    files: Option<crate::api::Files>,
) -> Result<AssetPickView, AssetErrorView> {
    let url = if requested == Some("snapshot"@) {
        preview_url(preview)
    } else {
        match file_url(files) {
            Some(u) => Some(u),
            None => preview_url(preview),
        }
    };
    match url {
        Some(u) => Ok(pick(u, match name {
            Some(n) => n,
            None => "unnamed"@,
        }, crate::tools::extension_from(crate::text::lowercase(u), 0), Seq::empty(), None, false)),
        None => Err(AssetErrorView::NoDownload),
    }
}

fn preview_exec(p: &Option<crate::api::Preview>) -> (r: Option<String>)
    ensures
        opt_text(r) == preview_url(*p),
{
    match p {
        Some(pv) => match &pv.large {
            Some(u) => Some(u.clone()),
            None => match &pv.normal {
                Some(u) => Some(u.clone()),
                None => None,
            },
        },
        None => None,
    }
}

/// Chooses the asset of a node from its own record (see `node_pick`).
pub fn pick_node_asset(
    requested: Option<&str>,
    name: &Option<String>,
    preview: &Option<crate::api::Preview>,
    files: &Option<crate::api::Files>,
) -> (r: Result<AssetPick, AssetError>)
    ensures
        match r {
            Ok(p) => node_pick(crate::ids::opt_str(requested), opt_text(*name), *preview, *files) == Ok::<AssetPickView, AssetErrorView>(p@),
            Err(e) => node_pick(crate::ids::opt_str(requested), opt_text(*name), *preview, *files) == Err::<AssetPickView, AssetErrorView>(e@),
        },
{
    let wants_snapshot = match requested {
        Some(t) => {
            let c = chars_of(t);
            eq_str(c.as_slice(), "snapshot")
        },
        None => false,
    };
    let url: Option<String> = if wants_snapshot {
        preview_exec(preview)
    } else {
        let own: Option<String> = match files {
            Some(fs) => match &fs.file {
                Some(r) => match &r.url {
                    Some(u) => Some(u.clone()),
                    None => None,
                },
                None => None,
            },
            None => None,
        };
        match own {
            Some(u) => Some(u),
            None => preview_exec(preview),
        }
    };
    match url {
        Some(u) => {
            let name = match name {
                Some(n) => n.clone(),
                None => String::from_str("unnamed"),
            };
            let extension = crate::tools::infer_extension(u.as_str());
            Ok(AssetPick { url: u, name, extension, resolved_type: String::new(), snapshot_hash: None, wants_rect: false })
        },
        None => Err(AssetError::NoDownload),
    }
}

/* ------------------------------ finding the layer ------------------------------- */

/// The first node of the subtree of `n`, depth first, whose id equals
/// `target`.
pub open spec fn asset_found_in(n: AssetNode, target: Seq<char>) -> Option<AssetNode>
    decreases n,
{
    if crate::ids::ids_equal_spec(opt_text(n.id), Some(target)) {
        Some(n)
    } else {
        proof {
            assert(decreases_to!(n => n.children));
            assert(decreases_to!(n.children => n.children@));
        }
        asset_found_in_all(n.children@, target)
    }
}

pub open spec fn asset_found_in_all(ns: Seq<AssetNode>, target: Seq<char>) -> Option<AssetNode>
    decreases ns,
{
    if ns.len() == 0 {
        None
    } else {
        proof {
            assert(decreases_to!(ns => ns[0]));
            assert(decreases_to!(ns => ns.subrange(1, ns.len() as int)));
        }
        match asset_found_in(ns[0], target) {
            Some(x) => Some(x),
            None => asset_found_in_all(ns.subrange(1, ns.len() as int), target),
        }
    }
}

fn find_in<'a>(node: &'a AssetNode, target_id: &str) -> (r: Option<&'a AssetNode>)
    ensures
        match r {
            Some(x) => asset_found_in(*node, target_id@) == Some(*x),
            None => asset_found_in(*node, target_id@) is None,
        },
    decreases node,
{
    let id: Option<&str> = match &node.id {
        Some(s) => Some(s.as_str()),
        None => None,
    };
    if crate::ids::ids_equal(id, Some(target_id)) {
        return Some(node);
    }
    let mut i: usize = 0;
    proof {
        assert(node.children@.subrange(0, node.children@.len() as int) =~= node.children@);
    }
    while i < node.children.len()
        invariant
            i <= node.children@.len(),
            !crate::ids::ids_equal_spec(opt_text(node.id), Some(target_id@)),
            asset_found_in(*node, target_id@) == asset_found_in_all(
                node.children@.subrange(i as int, node.children@.len() as int),
                target_id@,
            ),
        decreases node.children@.len() - i,
    {
        proof {
            let rest = node.children@.subrange(i as int, node.children@.len() as int);
            assert(rest[0] == node.children@[i as int]);
            assert(rest.subrange(1, rest.len() as int) =~= node.children@.subrange(i + 1, node.children@.len() as int));
            assert(decreases_to!(*node => node.children));
            assert(decreases_to!(node.children => node.children@));
            assert(decreases_to!(node.children@ => node.children@[i as int]));
        }
        match find_in(&node.children[i], target_id) {
            Some(x) => {
                return Some(x);
            },
            None => {},
        }
        i += 1;
    }
    None
}

/// The first page, in page order, whose subtree holds a node with id
/// `target`, with that node.
pub open spec fn layer_of_pages(pages: Seq<AssetNode>, target: Seq<char>) -> Option<(int, AssetNode)>
    decreases pages.len(),
{
    if pages.len() == 0 {
        None
    } else {
        match asset_found_in(pages[0], target) {
            Some(x) => Some((0, x)),
            None => match layer_of_pages(pages.subrange(1, pages.len() as int), target) {
                Some((i, x)) => Some((i + 1, x)),
                None => None,
            },
        }
    }
}

/// The node with id `node_id` (the first in page order, depth first) and
/// the position of its page, whose size is the artboard size.
pub fn find_layer<'a>(pages: &'a Vec<AssetNode>, node_id: &str) -> (r: Option<(usize, &'a AssetNode)>)
    ensures
        match r {
            Some((i, x)) => layer_of_pages(pages@, node_id@) == Some((i as int, *x)) && i < pages@.len(),
            None => layer_of_pages(pages@, node_id@) is None,
        },
{
    let mut i: usize = 0;
    proof {
        assert(pages@.subrange(0, pages@.len() as int) =~= pages@);
    }
    while i < pages.len()
        invariant
            i <= pages@.len(),
            match layer_of_pages(pages@, node_id@) {
                Some((k, x)) => match layer_of_pages(pages@.subrange(i as int, pages@.len() as int), node_id@) {
                    Some((k2, x2)) => k == k2 + i && x == x2,
                    None => false,
                },
                None => layer_of_pages(pages@.subrange(i as int, pages@.len() as int), node_id@) is None,
            },
        decreases pages@.len() - i,
    {
        let ghost rest = pages@.subrange(i as int, pages@.len() as int);
        proof {
            assert(rest[0] == pages@[i as int]);
            assert(rest.subrange(1, rest.len() as int) =~= pages@.subrange(i + 1, pages@.len() as int));
        }
        match find_in(&pages[i], node_id) {
            Some(x) => {
                return Some((i, x));
            },
            None => {},
        }
        i += 1;
    }
    proof {
        assert(pages@.subrange(pages@.len() as int, pages@.len() as int) =~= Seq::<AssetNode>::empty());
    }
    None
}

/// `r` picks the node's own snapshot `h`.
pub open spec fn picks_own_snapshot(
    r: Result<AssetPickView, AssetErrorView>,
    h: Seq<char>,
    assets: Seq<(String, Json)>,
    images: Seq<(String, ImageInfo)>,
) -> bool {
    match r {
        Ok(p) => p.resolved_type == "snapshot:own"@ && p.snapshot_hash == Some(h) && p.url == asset_url(h, assets, images),
        Err(_) => false,
    }
}

/// `r` is a pick of the node's own snapshot, whichever.
pub open spec fn is_own_snapshot(r: Result<AssetPickView, AssetErrorView>) -> bool {
    match r {
        Ok(p) => p.resolved_type == "snapshot:own"@,
        Err(_) => false,
    }
}

/// A layer asked for as a snapshot resolves to its own snapshot when it has
/// one (the full snapshot, else its preview), with type `snapshot:own`; an
/// ancestor's snapshot is looked for only when the layer has neither.
pub proof fn lemma_snapshot_prefers_own(
    n: AssetNode,
    pages: Seq<AssetNode>,
    slice_format: Option<Seq<char>>,
    assets: Seq<(String, Json)>,
    images: Seq<(String, ImageInfo)>,
)
    ensures
        ({
            let r = layer_pick(n, pages, Some("snapshot"@), slice_format, assets, images);
            &&& n.snapshot is Some ==> picks_own_snapshot(r, n.snapshot->0@, assets, images)
            &&& (n.snapshot is None && n.snapshot_preview is Some) ==> picks_own_snapshot(
                r,
                n.snapshot_preview->0@,
                assets,
                images,
            )
            &&& (n.snapshot is None && n.snapshot_preview is None) ==> !is_own_snapshot(r)
        }),
{
    reveal_strlit("snapshot");
    reveal_strlit("slice");
    reveal_strlit("snapshot:own");
    reveal_strlit("snapshot:ancestor");
    let t = inferred_type(n, Some("snapshot"@));
    assert(t == "snapshot"@);
    assert(t != "slice"@);
    let r = layer_pick(n, pages, Some("snapshot"@), slice_format, assets, images);
    if n.snapshot is Some {
        assert(snapshot_of(n) == Some(n.snapshot->0@));
        assert(picks_own_snapshot(r, n.snapshot->0@, assets, images));
    } else if n.snapshot_preview is Some {
        assert(snapshot_of(n) == Some(n.snapshot_preview->0@));
        assert(picks_own_snapshot(r, n.snapshot_preview->0@, assets, images));
    } else {
        assert(snapshot_of(n) is None);
        assert("snapshot:ancestor"@.len() != "snapshot:own"@.len());
        assert(!is_own_snapshot(r));
    }
}

} // verus!
