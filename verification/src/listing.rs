//! Reading the list responses of the Moonvy API: the items of a response,
//! its pagination metadata, and the page row of each item.

use vstd::prelude::*;
use crate::json::{as_flag, as_int, find_member, get_member, int_of, member, member_at, Json};
use crate::text::{chars_of, eq_str};
use crate::tools::{opt_text, PagePreview, PageRow, PageRowView, PreviewView};

verus! {

/* ----------------------------------- strings ---------------------------------- */

/// The first non-empty string among the members of `m` named by `keys`.
pub open spec fn pick(m: Seq<(String, Json)>, keys: Seq<Seq<char>>) -> Option<Seq<char>>
    decreases keys.len(),
{
    if keys.len() == 0 {
        None
    } else {
        match member(m, keys[0]) {
            Some(Json::String(s)) => if s@.len() > 0 {
                Some(s@)
            } else {
                pick(m, keys.drop_first())
            },
            _ => pick(m, keys.drop_first()),
        }
    }
}

/// The texts of a list of keys.
pub open spec fn key_texts(keys: Seq<&str>) -> Seq<Seq<char>> {
    keys.map_values(|k: &str| k@)
}

/// The first non-empty string among the members of `obj` named by `keys`.
pub fn pick_string(obj: &Vec<(String, Json)>, keys: &[&str]) -> (r: Option<String>)
    ensures
        opt_text(r) == pick(obj@, key_texts(keys@)),
{
    let mut i: usize = 0;
    proof {
        assert(key_texts(keys@).subrange(0, keys@.len() as int) =~= key_texts(keys@));
    }
    while i < keys.len()
        invariant
            i <= keys@.len(),
            pick(obj@, key_texts(keys@)) == pick(obj@, key_texts(keys@).subrange(i as int, keys@.len() as int)),
        decreases keys@.len() - i,
    {
        let ghost rest = key_texts(keys@).subrange(i as int, keys@.len() as int);
        proof {
            assert(rest[0] == keys@[i as int]@);
            assert(rest.drop_first() =~= key_texts(keys@).subrange(i + 1, keys@.len() as int));
        }
        match get_member(obj, keys[i]) {
            Some(Json::String(s)) => {
                if !s.as_str().is_empty() {
                    return Some(s.clone());
                }
            },
            _ => {},
        }
        i += 1;
    }
    None
}


/* ------------------------------------ items ------------------------------------ */

/// Position of the member a response nests its list under: `data`, else
/// `result`, else `list`.
pub open spec fn nest_index(m: Seq<(String, Json)>) -> Option<int> {
    match member_at(m, "data"@) {
        Some(i) => Some(i),
        None => match member_at(m, "result"@) {
            Some(i) => Some(i),
            None => member_at(m, "list"@),
        },
    }
}

/// The items of a list response: the first array found by descending
/// through `data`, `result` or `list` members; nothing when the descent
/// meets anything but an object or an array.
pub open spec fn items_of(v: Json) -> Seq<Json>
    decreases v,
{
    match v {
        Json::Array(items) => items@,
        Json::Object(m) => match nest_index(m@) {
            Some(i) => if 0 <= i < m@.len() {
                proof {
                    assert(decreases_to!(v => m));
                    assert(decreases_to!(m => m@));
                    assert(decreases_to!(m@ => m@[i]));
                    assert(decreases_to!(m@[i] => m@[i].1));
                }
                items_of(m@[i].1)
            } else {
                Seq::empty()
            },
            None => Seq::empty(),
        },
        _ => Seq::empty(),
    }
}

/// The items of a list response (see `items_of`).
pub fn extract_items(response: &Json) -> (r: Vec<&Json>)
    ensures
        r@.len() == items_of(*response).len(),
        forall|k: int| 0 <= k < r@.len() ==> *r@[k] == #[trigger] items_of(*response)[k],
    decreases response,
{
    match response {
        Json::Array(items) => {
            let mut r: Vec<&Json> = Vec::new();
            let mut k: usize = 0;
            while k < items.len()
                invariant
                    k <= items@.len(),
                    r@.len() == k,
                    forall|t: int| 0 <= t < k ==> *r@[t] == items@[t],
                decreases items@.len() - k,
            {
                r.push(&items[k]);
                k += 1;
            }
            r
        },
        Json::Object(m) => {
            let found = match find_member(m, "data") {
                Some(i) => Some(i),
                None => match find_member(m, "result") {
                    Some(i) => Some(i),
                    None => find_member(m, "list"),
                },
            };
            match found {
                Some(i) => extract_items(&m[i].1),
                None => Vec::new(),
            }
        },
        _ => Vec::new(),
    }
}


/* --------------------------------- pagination ---------------------------------- */

/// Pagination metadata of a list response: total, hasNext/hasMore,
/// pageSize/limit, and the list length.
#[derive(Debug, Clone, Copy, PartialEq, Eq)]
pub struct Pagination {
    pub total: Option<i64>,
    pub has_next: Option<bool>,
    pub page_size: Option<i64>,
    pub length: Option<i64>,
}

/// Keys under which a response nests further metadata.
pub open spec fn is_nest_key(key: Seq<char>) -> bool {
    key == "data"@ || key == "result"@ || key == "list"@
}

/// The metadata after reading one member of an object.
pub open spec fn key_update(m: Pagination, key: Seq<char>, val: Json) -> Pagination {
    if key == "total"@ {
        Pagination { total: as_int(Some(val)), ..m }
    } else if key == "hasNext"@ || key == "hasMore"@ {
        Pagination { has_next: as_flag(Some(val)), ..m }
    } else if key == "pageSize"@ || key == "limit"@ {
        Pagination { page_size: as_int(Some(val)), ..m }
    } else if key == "length"@ {
        Pagination { length: as_int(Some(val)), ..m }
    } else {
        m
    }
}

/// The metadata after reading the members of an object, in order.
pub open spec fn keys_applied(es: Seq<(String, Json)>, m: Pagination) -> Pagination
    decreases es.len(),
{
    if es.len() == 0 {
        m
    } else {
        key_update(keys_applied(es.drop_last(), m), es.last().0@, es.last().1)
    }
}

/// The metadata after visiting `v`: a number sets a missing total, a
/// boolean a missing hasNext; an object applies its members, then visits
/// its nested members, last to first, each with all it contains.
pub open spec fn scanned(v: Json, m: Pagination) -> Pagination
    decreases v,
{
    match v {
        Json::Number(n) => if m.total is None && n is Some {
            Pagination { total: n, ..m }
        } else {
            m
        },
        Json::Bool(b) => if m.has_next is None {
            Pagination { has_next: Some(b), ..m }
        } else {
            m
        },
        Json::Object(map) => {
            proof {
                assert(decreases_to!(v => map));
                assert(decreases_to!(map => map@));
            }
            scanned_entries(map@, keys_applied(map@, m))
        },
        _ => m,
    }
}

/// Visits the nested members of `es`, last to first.
pub open spec fn scanned_entries(es: Seq<(String, Json)>, m: Pagination) -> Pagination
    decreases es,
{
    if es.len() == 0 {
        m
    } else {
        let last = es[es.len() - 1];
        proof {
            assert(decreases_to!(es => es[es.len() - 1]));
            assert(decreases_to!(es[es.len() - 1] => es[es.len() - 1].1));
            assert(decreases_to!(es => es.subrange(0, es.len() - 1)));
        }
        let m1 = if is_nest_key(last.0@) {
            scanned(es[es.len() - 1].1, m)
        } else {
            m
        };
        scanned_entries(es.subrange(0, es.len() - 1), m1)
    }
}

/// The metadata of a response; the length defaults to the number of rows
/// collected so far.
pub open spec fn pagination_spec(response: Json, collected: usize) -> Pagination {
    let m = scanned(response, Pagination { total: None, has_next: None, page_size: None, length: None });
    if m.length is None {
        Pagination { length: Some(collected as i64), ..m }
    } else {
        m
    }
}

fn apply_key(meta: &mut Pagination, key: &String, val: &Json)
    ensures
        *final(meta) == key_update(*old(meta), key@, *val),
{
    let k = chars_of(key.as_str());
    if eq_str(k.as_slice(), "total") {
        meta.total = int_of(Some(val));
    } else if eq_str(k.as_slice(), "hasNext") || eq_str(k.as_slice(), "hasMore") {
        meta.has_next = match val {
            Json::Bool(b) => Some(*b),
            _ => None,
        };
    } else if eq_str(k.as_slice(), "pageSize") || eq_str(k.as_slice(), "limit") {
        meta.page_size = int_of(Some(val));
    } else if eq_str(k.as_slice(), "length") {
        meta.length = int_of(Some(val));
    }
}

fn is_nest_key_exec(key: &String) -> (r: bool)
    ensures
        r == is_nest_key(key@),
{
    let k = chars_of(key.as_str());
    eq_str(k.as_slice(), "data") || eq_str(k.as_slice(), "result") || eq_str(k.as_slice(), "list")
}

fn scan(v: &Json, meta: &mut Pagination)
    ensures
        *final(meta) == scanned(*v, *old(meta)),
    decreases v,
{
    match v {
        Json::Number(n) => {
            if meta.total.is_none() && n.is_some() {
                meta.total = *n;
            }
        },
        Json::Bool(b) => {
            if meta.has_next.is_none() {
                meta.has_next = Some(*b);
            }
        },
        Json::Object(map) => {
            let ghost m0 = *meta;
            let mut i: usize = 0;
            while i < map.len()
                invariant
                    i <= map@.len(),
                    *meta == keys_applied(map@.subrange(0, i as int), m0),
                decreases map@.len() - i,
            {
                proof {
                    assert(map@.subrange(0, i + 1).drop_last() =~= map@.subrange(0, i as int));
                }
                apply_key(meta, &map[i].0, &map[i].1);
                i += 1;
            }
            proof {
                assert(map@.subrange(0, map@.len() as int) =~= map@);
            }
            let ghost m1 = *meta;
            let mut j: usize = map.len();
            while j > 0
                invariant
                    j <= map@.len(),
                    *v == Json::Object(*map),
                    scanned_entries(map@, m1) == scanned_entries(map@.subrange(0, j as int), *meta),
                decreases j,
            {
                let ghost es = map@.subrange(0, j as int);
                proof {
                    assert(es[es.len() - 1] == map@[j - 1]);
                    assert(es.subrange(0, es.len() - 1) =~= map@.subrange(0, j - 1));
                }
                if is_nest_key_exec(&map[j - 1].0) {
                    proof {
                        assert(decreases_to!(*v => (*v)->Object_0));
                        assert((*v)->Object_0 == *map);
                        assert(decreases_to!(*map => map@));
                        assert(decreases_to!(map@ => map@[j - 1]));
                        assert(decreases_to!(map@[j - 1] => map@[j - 1].1));
                    }
                    scan(&map[j - 1].1, meta);
                }
                j -= 1;
            }
        },
        _ => {},
    }
}

/// Pagination metadata of a list response, read in one pass (see
/// `scanned`); the length defaults to `collected`.
pub fn pagination_meta(response: &Json, collected: usize) -> (r: Pagination)
    ensures
        r == pagination_spec(*response, collected),
{
    let mut meta = Pagination { total: None, has_next: None, page_size: None, length: None };
    scan(response, &mut meta);
    if meta.length.is_none() {
        meta.length = Some(collected as i64);
    }
    meta
}

/// The response is the last page: hasNext is false, the length reached the
/// total, or the length fell short of the page size.
pub open spec fn last_page(m: Pagination) -> bool {
    ||| m.has_next == Some(false)
    ||| (m.total is Some && m.length is Some && m.length->0 >= m.total->0)
    ||| (m.page_size is Some && m.length is Some && m.length->0 < m.page_size->0)
}

/// Whether the metadata marks the last page (see `last_page`).
pub fn is_last_page(meta: &Pagination) -> (r: bool)
    ensures
        r == last_page(*meta),
{
    let no_next = match meta.has_next {
        Some(b) => !b,
        None => false,
    };
    let reached = match (meta.total, meta.length) {
        (Some(total), Some(len)) => len >= total,
        _ => false,
    };
    let short = match (meta.page_size, meta.length) {
        (Some(size), Some(len)) => len < size,
        _ => false,
    };
    no_next || reached || short
}


/* ---------------------------------- page rows ---------------------------------- */

pub open spec fn id_keys() -> Seq<Seq<char>> {
    seq!["id"@, "nodeId"@, "fileId"@, "_id"@, "uuid"@]
}

pub open spec fn parent_keys() -> Seq<Seq<char>> {
    seq!["parentId"@, "pid"@, "dirId"@, "folderId"@, "parent_id"@]
}

pub open spec fn created_keys() -> Seq<Seq<char>> {
    seq!["createdAt"@, "createTime"@, "ctime"@, "createdAtTime"@, "created"@]
}

pub open spec fn updated_keys() -> Seq<Seq<char>> {
    seq!["updatedAt"@, "updateTime"@, "mtime"@, "updatedAtTime"@, "updated"@]
}

pub open spec fn name_keys() -> Seq<Seq<char>> {
    seq!["name"@, "title"@, "displayName"@]
}

pub open spec fn type_keys() -> Seq<Seq<char>> {
    seq!["type"@, "nodeType"@, "kind"@, "fileType"@]
}

/// Members that may pack the dimensions of a row, in the order tried.
pub open spec fn box_keys() -> Seq<Seq<char>> {
    seq!["size"@, "rect"@, "dimensions"@, "frame"@]
}

/// An integer member, under its long name or else its short name.
pub open spec fn dim(m: Seq<(String, Json)>, long: Seq<char>, short: Seq<char>) -> Option<i64> {
    match as_int(member(m, long)) {
        Some(v) => Some(v),
        None => as_int(member(m, short)),
    }
}

/// The object member named `key`, if it is an object.
pub open spec fn object_member(m: Seq<(String, Json)>, key: Seq<char>) -> Option<Seq<(String, Json)>> {
    match member(m, key) {
        Some(Json::Object(o)) => Some(o@),
        _ => None,
    }
}

/// A dimension still missing is taken from the first of the box members
/// (in `keys` order) that is an object and has it.
pub open spec fn boxed_dim(m: Seq<(String, Json)>, long: Seq<char>, short: Seq<char>, keys: Seq<Seq<char>>, cur: Option<i64>) -> Option<i64>
    decreases keys.len(),
{
    if keys.len() == 0 {
        cur
    } else {
        let next = match object_member(m, keys[0]) {
            Some(o) => if cur is None {
                dim(o, long, short)
            } else {
                cur
            },
            None => cur,
        };
        boxed_dim(m, long, short, keys.drop_first(), next)
    }
}

/// A dimension of a row: direct member, else from a box member.
pub open spec fn row_dim(m: Seq<(String, Json)>, long: Seq<char>, short: Seq<char>) -> Option<i64> {
    boxed_dim(m, long, short, box_keys(), dim(m, long, short))
}

/// The preview of a row: its `preview` object's normal and large images,
/// when it has at least one.
pub open spec fn row_preview(m: Seq<(String, Json)>) -> Option<PreviewView> {
    match object_member(m, "preview"@) {
        Some(p) => {
            let normal = pick(p, seq!["normal"@]);
            let large = pick(p, seq!["large"@]);
            if normal is Some || large is Some {
                Some(PreviewView { normal, large })
            } else {
                None
            }
        },
        None => None,
    }
}

/// The page row of a list item: an object with an id (under any of the id
/// keys); its url names the row's parent directory, or else the directory
/// of the listed URL.
pub open spec fn normalized(item: Json, project_id: Seq<char>, input_dir: Option<Seq<char>>) -> Option<PageRowView> {
    match item {
        Json::Object(o) => match pick(o@, id_keys()) {
            Some(id) => {
                let m = o@;
                let parent = pick(m, parent_keys());
                Some(
                    PageRowView {
                        id,
                        name: match pick(m, name_keys()) {
                            Some(n) => n,
                            None => Seq::empty(),
                        },
                        row_type: match pick(m, type_keys()) {
                            Some(t) => t,
                            None => Seq::empty(),
                        },
                        parent_id: parent,
                        project_id,
                        url: crate::api::file_url_spec(
                            project_id,
                            match parent {
                                Some(p) => Some(p),
                                None => input_dir,
                            },
                            id,
                        ),
                        preview: row_preview(m),
                        created_at: pick(m, created_keys()),
                        updated_at: pick(m, updated_keys()),
                        width: row_dim(m, "width"@, "w"@),
                        height: row_dim(m, "height"@, "h"@),
                    },
                )
            },
            None => None,
        },
        _ => None,
    }
}

/// An id usable as a URL path segment: non-empty, without `/`.
pub open spec fn plain_id(x: Seq<char>) -> bool {
    x.len() > 0 && !x.contains('/')
}

/// A listed row's URL names the row's own parent directory when the item
/// carries a parent key; the directory being listed stands in only for an
/// item with none. With plain ids, the URL parses back to the project, that
/// directory and the row's id.
pub proof fn lemma_row_url_names_own_parent(item: Json, project_id: Seq<char>, input_dir: Option<Seq<char>>)
    ensures
        match normalized(item, project_id, input_dir) {
            Some(row) => {
                let dir = match row.parent_id {
                    Some(q) => Some(q),
                    None => input_dir,
                };
                &&& row.project_id == project_id
                &&& row.url == crate::api::file_url_spec(project_id, dir, row.id)
                &&& (plain_id(project_id) && plain_id(row.id) && dir is Some && plain_id(dir->0) && dir->0 != row.id)
                    ==> crate::api::parse_url_spec(row.url) == Some((project_id, dir, Some(row.id)))
            },
            None => true,
        },
{
    match normalized(item, project_id, input_dir) {
        Some(row) => {
            let dir = match row.parent_id {
                Some(q) => Some(q),
                None => input_dir,
            };
            if plain_id(project_id) && plain_id(row.id) && dir is Some && plain_id(dir->0) && dir->0 != row.id {
                crate::api::lemma_file_url_round_trip(project_id, dir, row.id);
            }
        },
        None => {},
    }
}

fn keys_of(v: Vec<&str>) -> (r: Vec<&str>)
    ensures
        r@ == v@,
{
    v
}

fn dim_exec(m: &Vec<(String, Json)>, long: &str, short: &str) -> (r: Option<i64>)
    ensures
        r == dim(m@, long@, short@),
{
    match int_of(get_member(m, long)) {
        Some(v) => Some(v),
        None => int_of(get_member(m, short)),
    }
}

fn row_dim_exec(m: &Vec<(String, Json)>, long: &str, short: &str) -> (r: Option<i64>)
    ensures
        r == row_dim(m@, long@, short@),
{
    let mut cur = dim_exec(m, long, short);
    let boxes = keys_of(vec!["size", "rect", "dimensions", "frame"]);
    proof {
        assert(key_texts(boxes@) =~= box_keys());
        assert(key_texts(boxes@).subrange(0, 4) =~= key_texts(boxes@));
    }
    let mut i: usize = 0;
    while i < boxes.len()
        invariant
            i <= boxes@.len(),
            boxes@.len() == 4,
            key_texts(boxes@) == box_keys(),
            row_dim(m@, long@, short@) == boxed_dim(m@, long@, short@, box_keys().subrange(i as int, 4), cur),
        decreases boxes@.len() - i,
    {
        proof {
            assert(box_keys().subrange(i as int, 4)[0] == boxes@[i as int]@);
            assert(box_keys().subrange(i as int, 4).drop_first() =~= box_keys().subrange(i + 1, 4));
        }
        match get_member(m, boxes[i]) {
            Some(Json::Object(o)) => {
                if cur.is_none() {
                    cur = dim_exec(o, long, short);
                }
            },
            _ => {},
        }
        i += 1;
    }
    cur
}

/// The page row of a list item (see `normalized`); `None` for an item that
/// is not an object or has no id.
pub fn normalize_item(item: &Json, project_id: &str, input_dir_id: Option<&str>) -> (r: Option<PageRow>)
    ensures
        match r {
            Some(row) => normalized(*item, project_id@, crate::api::opt_str_view(input_dir_id)) == Some(row@),
            None => normalized(*item, project_id@, crate::api::opt_str_view(input_dir_id)) is None,
        },
{
    let obj = match item {
        Json::Object(o) => o,
        _ => {
            return None;
        },
    };
    let idk = keys_of(vec!["id", "nodeId", "fileId", "_id", "uuid"]);
    let pk = keys_of(vec!["parentId", "pid", "dirId", "folderId", "parent_id"]);
    let ck = keys_of(vec!["createdAt", "createTime", "ctime", "createdAtTime", "created"]);
    let uk = keys_of(vec!["updatedAt", "updateTime", "mtime", "updatedAtTime", "updated"]);
    let nk = keys_of(vec!["name", "title", "displayName"]);
    let tk = keys_of(vec!["type", "nodeType", "kind", "fileType"]);
    proof {
        assert(key_texts(idk@) =~= id_keys());
        assert(key_texts(pk@) =~= parent_keys());
        assert(key_texts(ck@) =~= created_keys());
        assert(key_texts(uk@) =~= updated_keys());
        assert(key_texts(nk@) =~= name_keys());
        assert(key_texts(tk@) =~= type_keys());
    }
    let id = match pick_string(obj, idk.as_slice()) {
        Some(id) => id,
        None => {
            return None;
        },
    };
    let parent_id = pick_string(obj, pk.as_slice());
    let created_at = pick_string(obj, ck.as_slice());
    let updated_at = pick_string(obj, uk.as_slice());
    let name = match pick_string(obj, nk.as_slice()) {
        Some(n) => n,
        None => String::new(),
    };
    let row_type = match pick_string(obj, tk.as_slice()) {
        Some(t) => t,
        None => String::new(),
    };
    let width = row_dim_exec(obj, "width", "w");
    let height = row_dim_exec(obj, "height", "h");
    let dir: Option<&str> = match &parent_id {
        Some(p) => Some(p.as_str()),
        None => input_dir_id,
    };
    let url = crate::api::file_url_for(project_id, dir, id.as_str());
    let preview = match get_member(obj, "preview") {
        Some(Json::Object(p)) => {
            let nrm = keys_of(vec!["normal"]);
            let lrg = keys_of(vec!["large"]);
            proof {
                assert(key_texts(nrm@) =~= seq!["normal"@]);
                assert(key_texts(lrg@) =~= seq!["large"@]);
            }
            let normal = pick_string(p, nrm.as_slice());
            let large = pick_string(p, lrg.as_slice());
            if normal.is_some() || large.is_some() {
                Some(PagePreview { normal, large })
            } else {
                None
            }
        },
        _ => None,
    };
    let row = PageRow {
        id,
        name,
        row_type,
        parent_id,
        project_id: String::from_str(project_id),
        url,
        preview,
        created_at,
        updated_at,
        width,
        height,
    };
    Some(row)
}

/// Listed nodes of these lowercase types are directories to descend into.
pub open spec fn lower_may_have_children(t: Seq<char>) -> bool {
    t == "any"@ || t == "dir"@ || t == "directory"@ || t == "folder"@
}

/// Listed nodes of these types (any case) are directories to descend into.
pub open spec fn may_have_children(row_type: Seq<char>) -> bool {
    lower_may_have_children(crate::text::lowercase(row_type))
}

/// Whether a listed node of this lowercase type is a directory.
pub fn is_directory_type(lower: &str) -> (r: bool)
    ensures
        r == lower_may_have_children(lower@),
{
    let l = chars_of(lower);
    eq_str(l.as_slice(), "any") || eq_str(l.as_slice(), "dir") || eq_str(l.as_slice(), "directory") || eq_str(
        l.as_slice(),
        "folder",
    )
}

/// Whether a listed node is a directory to descend into.
pub fn can_have_children(row_type: &str) -> (r: bool)
    ensures
        r == may_have_children(row_type@),
{
    let lower = crate::text::to_lower(row_type);
    is_directory_type(lower.as_str())
}


/* ------------------------------- the page walk --------------------------------- */

/// The breadth-first walk over a project's directories that lists its
/// pages, as a state machine: `next_request` names the next list page to
/// fetch (directory scope and page number), `absorb` takes its response.
/// The walk stops at `limit` rows or `max_pages` requests.
pub struct PageWalk {
    project_id: String,
    input_dir: Option<String>,
    limit: u32,
    max_pages: u32,
    rows: Vec<PageRow>,
    queue: Vec<Option<String>>,
    seen_scopes: Vec<String>,
    scanned_pages: u32,
    head: usize,
    scope: Option<String>,
    page_index: u32,
    in_scope: bool,
    pending: bool,
}

/// A page walk as plain values.
pub struct WalkView {
    pub project_id: Seq<char>,
    pub input_dir: Option<Seq<char>>,
    pub limit: u32,
    pub max_pages: u32,
    pub rows: Seq<PageRowView>,
    /// Directory scopes to list, in order (`None` is the project root).
    pub queue: Seq<Option<Seq<char>>>,
    /// Scopes already queued (and the project itself).
    pub seen_scopes: Seq<Seq<char>>,
    /// Requests made so far.
    pub scanned: u32,
    /// Scopes taken from the queue.
    pub head: int,
    pub scope: Option<Seq<char>>,
    pub page_index: u32,
    /// Listing the pages of `scope`.
    pub in_scope: bool,
    /// A request was issued and its response is awaited.
    pub pending: bool,
}

impl View for PageWalk {
    type V = WalkView;

    closed spec fn view(&self) -> WalkView {
        WalkView {
            project_id: self.project_id@,
            input_dir: opt_text(self.input_dir),
            limit: self.limit,
            max_pages: self.max_pages,
            rows: self.rows@.map_values(|r: PageRow| r@),
            queue: self.queue@.map_values(|q: Option<String>| opt_text(q)),
            seen_scopes: self.seen_scopes@.map_values(|s: String| s@),
            scanned: self.scanned_pages,
            head: self.head as int,
            scope: opt_text(self.scope),
            page_index: self.page_index,
            in_scope: self.in_scope,
            pending: self.pending,
        }
    }
}

/// No two rows share an id.
pub open spec fn distinct_ids(rows: Seq<PageRowView>) -> bool {
    forall|p: int, q: int| 0 <= p < q < rows.len() ==> (#[trigger] rows[p]).id != (#[trigger] rows[q]).id
}

/// `rows` holds a row with this id.
pub open spec fn has_row(rows: Seq<PageRowView>, id: Seq<char>) -> bool {
    exists|p: int| 0 <= p < rows.len() && (#[trigger] rows[p]).id == id
}

/// What every state of a walk satisfies: at most `limit` rows, at most
/// `max_pages` requests, rows of distinct ids.
pub open spec fn walk_ok(w: WalkView) -> bool {
    &&& w.rows.len() <= w.limit
    &&& w.scanned <= w.max_pages
    &&& distinct_ids(w.rows)
    &&& 0 <= w.head <= w.queue.len()
    &&& w.in_scope ==> w.page_index <= w.scanned
    &&& w.pending ==> w.in_scope && w.page_index < w.scanned
}

/// The walk after the next request is chosen, and the request: the next
/// page of the current scope, or the first page of the next queued scope,
/// while rows and requests are under their limits.
pub open spec fn next_spec(w: WalkView) -> (WalkView, Option<(Option<Seq<char>>, u32)>) {
    if w.in_scope && w.rows.len() < w.limit && w.scanned < w.max_pages {
        (WalkView { scanned: (w.scanned + 1) as u32, pending: true, ..w }, Some((w.scope, w.page_index)))
    } else if w.head < w.queue.len() && w.rows.len() < w.limit && w.scanned < w.max_pages {
        (
            WalkView {
                scope: w.queue[w.head],
                head: w.head + 1,
                page_index: 0,
                in_scope: true,
                scanned: (w.scanned + 1) as u32,
                pending: true,
                ..w
            },
            Some((w.queue[w.head], 0u32)),
        )
    } else {
        (WalkView { in_scope: false, ..w }, None)
    }
}

/// The walk after one listed item: a directory not seen before is queued;
/// a row whose id is new is added.
pub open spec fn item_step(w: WalkView, item: Json) -> WalkView {
    match normalized(item, w.project_id, w.input_dir) {
        Some(row) => {
            let w1 = if may_have_children(row.row_type) && !w.seen_scopes.contains(row.id) {
                WalkView { seen_scopes: w.seen_scopes.push(row.id), queue: w.queue.push(Some(row.id)), ..w }
            } else {
                w
            };
            if has_row(w1.rows, row.id) {
                w1
            } else {
                WalkView { rows: w1.rows.push(row), ..w1 }
            }
        },
        None => w,
    }
}

/// The walk after the listed items, stopping once `limit` rows are held.
pub open spec fn items_step(w: WalkView, items: Seq<Json>) -> WalkView
    decreases items.len(),
{
    if items.len() == 0 || w.rows.len() >= w.limit {
        w
    } else {
        items_step(item_step(w, items[0]), items.drop_first())
    }
}

/// The walk after the response to its pending request: an empty page ends
/// the scope; otherwise the items are taken, and the scope ends at its last
/// page or else moves to the next page.
pub open spec fn absorb_spec(w: WalkView, response: Json) -> WalkView {
    let items = items_of(response);
    if items.len() == 0 {
        WalkView { in_scope: false, pending: false, ..w }
    } else {
        let w1 = items_step(w, items);
        let meta = pagination_spec(response, w1.rows.len() as usize);
        if last_page(meta) {
            WalkView { in_scope: false, pending: false, ..w1 }
        } else {
            WalkView { page_index: (w1.page_index + 1) as u32, pending: false, ..w1 }
        }
    }
}

impl PageWalk {
    /// A walk over the project of `ids`, starting at its directory (or the
    /// project root), keeping at most `limit` rows and making at most
    /// `max_pages` requests.
    pub fn new(ids: &crate::api::MoonvyUrl, limit: u32, max_pages: u32) -> (r: PageWalk)
        ensures
            walk_ok(r@),
            r@.project_id == ids.project_id@,
            r@.input_dir == opt_text(ids.dir_id),
            r@.limit == limit,
            r@.max_pages == max_pages,
            r@.rows.len() == 0,
            r@.queue == seq![opt_text(ids.dir_id)],
            r@.seen_scopes == (match ids.dir_id {
                Some(d) => seq![d@, "project"@],
                None => seq!["project"@],
            }),
            r@.scanned == 0,
            r@.head == 0,
            !r@.in_scope,
            !r@.pending,
    {
        let mut queue: Vec<Option<String>> = Vec::new();
        queue.push(ids.dir_id.clone());
        let mut seen_scopes: Vec<String> = Vec::new();
        match &ids.dir_id {
            Some(d) => seen_scopes.push(d.clone()),
            None => {},
        }
        seen_scopes.push(String::from_str("project"));
        let w = PageWalk {
            project_id: ids.project_id.clone(),
            input_dir: ids.dir_id.clone(),
            limit,
            max_pages,
            rows: Vec::new(),
            queue,
            seen_scopes,
            scanned_pages: 0,
            head: 0,
            scope: None,
            page_index: 0,
            in_scope: false,
            pending: false,
        };
        proof {
            assert(w@.rows =~= Seq::<PageRowView>::empty());
            assert(w@.queue =~= seq![opt_text(ids.dir_id)]);
            if ids.dir_id is Some {
                assert(w@.seen_scopes =~= seq![ids.dir_id->0@, "project"@]);
            } else {
                assert(w@.seen_scopes =~= seq!["project"@]);
            }
        }
        w
    }

    /// The rows listed so far.
    pub fn rows(&self) -> (r: &Vec<PageRow>)
        ensures
            r@.map_values(|row: PageRow| row@) == self@.rows,
    {
        &self.rows
    }

    /// The project being listed.
    pub fn project_id(&self) -> (r: &String)
        ensures
            r@ == self@.project_id,
    {
        &self.project_id
    }

    /// The rows listed, ending the walk.
    pub fn into_rows(self) -> (r: Vec<PageRow>)
        ensures
            r@.map_values(|row: PageRow| row@) == self@.rows,
    {
        self.rows
    }
}


/// A request as plain values.
pub open spec fn request_view(r: Option<(Option<String>, u32)>) -> Option<(Option<Seq<char>>, u32)> {
    match r {
        Some((s, p)) => Some((opt_text(s), p)),
        None => None,
    }
}

fn has_row_exec(rows: &Vec<PageRow>, id: &String) -> (r: bool)
    ensures
        r == has_row(rows@.map_values(|row: PageRow| row@), id@),
{
    let ghost rv = rows@.map_values(|row: PageRow| row@);
    let mut p: usize = 0;
    while p < rows.len()
        invariant
            rv == rows@.map_values(|row: PageRow| row@),
            p <= rows@.len(),
            forall|q: int| 0 <= q < p ==> (#[trigger] rv[q]).id != id@,
        decreases rows@.len() - p,
    {
        if rows[p].id.eq(id) {
            assert(rv[p as int].id == id@);
            return true;
        }
        p += 1;
    }
    false
}

fn scope_seen(scopes: &Vec<String>, id: &String) -> (r: bool)
    ensures
        r == scopes@.map_values(|s: String| s@).contains(id@),
{
    let ghost sv = scopes@.map_values(|s: String| s@);
    let mut p: usize = 0;
    while p < scopes.len()
        invariant
            sv == scopes@.map_values(|s: String| s@),
            p <= scopes@.len(),
            forall|q: int| 0 <= q < p ==> sv[q] != id@,
        decreases scopes@.len() - p,
    {
        if scopes[p].eq(id) {
            assert(sv[p as int] == id@);
            return true;
        }
        p += 1;
    }
    false
}

impl PageWalk {
    /// The next list page to fetch, as (directory scope, page number), or
    /// `None` when the walk is over (see `next_spec`).
    pub fn next_request(&mut self) -> (r: Option<(Option<String>, u32)>)
        requires
            walk_ok(old(self)@),
            !old(self)@.pending,
        ensures
            walk_ok(final(self)@),
            (final(self)@, request_view(r)) == next_spec(old(self)@),
    {
        let ghost w = self@;
        if self.in_scope && self.rows.len() < self.limit as usize && self.scanned_pages < self.max_pages {
            self.scanned_pages = self.scanned_pages + 1;
            self.pending = true;
            let r = Some((self.scope.clone(), self.page_index));
            proof {
                assert(self@ =~= next_spec(w).0);
            }
            return r;
        }
        self.in_scope = false;
        if self.head < self.queue.len() && self.rows.len() < self.limit as usize && self.scanned_pages < self.max_pages {
            let scope = self.queue[self.head].clone();
            self.scope = scope.clone();
            self.head = self.head + 1;
            self.page_index = 0;
            self.in_scope = true;
            self.scanned_pages = self.scanned_pages + 1;
            self.pending = true;
            proof {
                assert(opt_text(scope) == w.queue[w.head]);
                assert(self@ =~= next_spec(w).0);
            }
            return Some((scope, 0));
        }
        proof {
            assert(self@ =~= next_spec(w).0);
        }
        None
    }

    /// Takes one listed item (see `item_step`).
    fn take_item(&mut self, item: &Json)
        requires
            walk_ok(old(self)@),
            old(self)@.pending,
            old(self)@.rows.len() < old(self)@.limit,
        ensures
            final(self)@ == item_step(old(self)@, *item),
            walk_ok(final(self)@),
    {
        let ghost w = self@;
        let dir: Option<&str> = match &self.input_dir {
            Some(d) => Some(d.as_str()),
            None => None,
        };
        proof {
            assert(crate::api::opt_str_view(dir) == w.input_dir);
        }
        match normalize_item(item, self.project_id.as_str(), dir) {
            Some(row) => {
                if can_have_children(row.row_type.as_str()) && !scope_seen(&self.seen_scopes, &row.id) {
                    self.seen_scopes.push(row.id.clone());
                    self.queue.push(Some(row.id.clone()));
                    proof {
                        assert(self@.seen_scopes =~= w.seen_scopes.push(row@.id));
                        assert(self@.queue =~= w.queue.push(Some(row@.id)));
                    }
                }
                let ghost w1 = self@;
                if !has_row_exec(&self.rows, &row.id) {
                    let ghost rv = row@;
                    self.rows.push(row);
                    proof {
                        assert(self@.rows =~= w1.rows.push(rv));
                        assert forall|p: int, q: int| 0 <= p < q < self@.rows.len() implies (#[trigger] self@.rows[p]).id != (#[trigger] self@.rows[q]).id by {
                            if q == self@.rows.len() - 1 {
                                assert(self@.rows[p] == w1.rows[p]);
                            } else {
                                assert(self@.rows[p] == w1.rows[p] && self@.rows[q] == w1.rows[q]);
                            }
                        }
                    }
                }
                proof {
                    assert(self@ =~= item_step(w, *item));
                }
            },
            None => {},
        }
    }

    /// Takes the response to the pending request (see `absorb_spec`).
    pub fn absorb(&mut self, response: &Json)
        requires
            walk_ok(old(self)@),
            old(self)@.pending,
            old(self)@.rows.len() < old(self)@.limit,
        ensures
            walk_ok(final(self)@),
            final(self)@ == absorb_spec(old(self)@, *response),
    {
        let ghost w = self@;
        let items = extract_items(response);
        let ghost iv = items_of(*response);
        if items.len() == 0 {
            self.in_scope = false;
            self.pending = false;
            proof {
                assert(self@ =~= absorb_spec(w, *response));
            }
            return;
        }
        let mut k: usize = 0;
        proof {
            assert(iv.subrange(0, iv.len() as int) =~= iv);
        }
        while k < items.len() && self.rows.len() < self.limit as usize
            invariant
                iv == items_of(*response),
                items@.len() == iv.len(),
                forall|t: int| 0 <= t < items@.len() ==> *items@[t] == #[trigger] iv[t],
                k <= items@.len(),
                walk_ok(self@),
                self@.pending,
                self@.limit == w.limit,
                self@.page_index == w.page_index,
                self@.in_scope == w.in_scope,
                self@.scanned == w.scanned,
                items_step(w, iv) == items_step(self@, iv.subrange(k as int, iv.len() as int)),
            decreases items@.len() - k,
        {
            let ghost before = self@;
            proof {
                let rest = iv.subrange(k as int, iv.len() as int);
                assert(rest[0] == iv[k as int]);
                assert(rest.drop_first() =~= iv.subrange(k + 1, iv.len() as int));
            }
            self.take_item(items[k]);
            proof {
                assert(self@.rows.len() <= self@.limit);
            }
            k += 1;
        }
        let ghost w1 = self@;
        proof {
            assert(w1 == items_step(w, iv));
        }
        let meta = pagination_meta(response, self.rows.len());
        if is_last_page(&meta) {
            self.in_scope = false;
            self.pending = false;
        } else {
            self.page_index = self.page_index + 1;
            self.pending = false;
        }
        proof {
            assert(self@ =~= absorb_spec(w, *response));
        }
    }
}


/* ------------------------------ choosing a design ------------------------------ */

/// Name for the query pairs of a URL, decoded as `url::Url::query_pairs`
/// gives them, in order; `None` when the text does not parse as a URL.
pub uninterp spec fn query_pairs_of(url: Seq<char>) -> Option<Seq<(Seq<char>, Seq<char>)>>;

/// The texts of a list of key/value pairs.
pub open spec fn pair_texts(v: Seq<(String, String)>) -> Seq<(Seq<char>, Seq<char>)> {
    v.map_values(|p: (String, String)| (p.0@, p.1@))
}

/// `url::Url::parse`, then `query_pairs`, each pair turned into two
/// `String`s: the result is the name `query_pairs_of` applied to the input.
#[verifier::external_body]
fn url_query_pairs(url: &str) -> (r: Option<Vec<(String, String)>>)
    ensures
        match r {
            Some(v) => query_pairs_of(url@) == Some(pair_texts(v@)),
            None => query_pairs_of(url@) is None,
        },
{
    match url::Url::parse(url) {
        Ok(u) => Some(u.query_pairs().map(|(k, v)| (k.to_string(), v.to_string())).collect()),
        Err(_) => None,
    }
}

/// The value of the first pair whose key is `key`.
pub open spec fn first_value(ps: Seq<(Seq<char>, Seq<char>)>, key: Seq<char>) -> Option<Seq<char>>
    decreases ps.len(),
{
    if ps.len() == 0 {
        None
    } else if ps[0].0 == key {
        Some(ps[0].1)
    } else {
        first_value(ps.drop_first(), key)
    }
}

/// The value of the first `design` query parameter of a URL; `None` when
/// the text does not parse as a URL or has no such parameter.
pub open spec fn design_query(url: Seq<char>) -> Option<Seq<char>> {
    match query_pairs_of(url) {
        Some(ps) => first_value(ps, "design"@),
        None => None,
    }
}

/// The value of the first pair whose key is `design`.
pub fn design_param(pairs: &Vec<(String, String)>) -> (r: Option<String>)
    ensures
        opt_text(r) == first_value(pair_texts(pairs@), "design"@),
{
    let key = String::from_str("design");
    let ghost ps = pair_texts(pairs@);
    let mut i: usize = 0;
    proof {
        assert(ps.skip(0) =~= ps);
    }
    while i < pairs.len()
        invariant
            i <= pairs@.len(),
            ps == pair_texts(pairs@),
            key@ == "design"@,
            first_value(ps, "design"@) == first_value(ps.skip(i as int), "design"@),
        decreases pairs@.len() - i,
    {
        proof {
            assert(ps.skip(i as int)[0] == (pairs@[i as int].0@, pairs@[i as int].1@));
        }
        if pairs[i].0.eq(&key) {
            return Some(pairs[i].1.clone());
        }
        proof {
            assert(ps.skip(i as int).drop_first() =~= ps.skip(i + 1));
        }
        i += 1;
    }
    proof {
        assert(ps.skip(i as int).len() == 0);
    }
    None
}

/// The `?design=` selector of a URL, when it is present and non-empty.
pub open spec fn design_selector(url: Seq<char>) -> Option<Seq<char>> {
    match design_query(url) {
        Some(w) => if w.len() > 0 {
            Some(w)
        } else {
            None
        },
        None => None,
    }
}

/// The selector of a directory URL, when it is present and non-empty.
pub fn design_selector_of(url: &str) -> (r: Option<String>)
    ensures
        opt_text(r) == design_selector(url@),
{
    let found = match url_query_pairs(url) {
        Some(pairs) => design_param(&pairs),
        None => None,
    };
    match found {
        Some(w) => {
            if w.as_str().is_empty() {
                None
            } else {
                Some(w)
            }
        },
        None => None,
    }
}

/// Why no design file could be chosen in a directory.
#[derive(Debug, Clone)]
pub enum DesignChoiceError {
    /// The directory lists no design file with a URL.
    NoDesigns,
    /// No design name contains the selector: the selector and the names.
    NoMatch(String, Vec<String>),
}

/// The design files of a listing: rows of type `design` with a URL.
pub open spec fn design_rows(rows: Seq<PageRowView>) -> Seq<PageRowView>
    decreases rows.len(),
{
    if rows.len() == 0 {
        Seq::empty()
    } else {
        let r = design_rows(rows.drop_last());
        if rows.last().row_type == "design"@ && rows.last().url.len() > 0 {
            r.push(rows.last())
        } else {
            r
        }
    }
}

/// The first design whose lowercased name contains the lowercased selector.
pub open spec fn first_named(ds: Seq<PageRowView>, w: Seq<char>) -> Option<PageRowView>
    decreases ds.len(),
{
    if ds.len() == 0 {
        None
    } else if crate::text::seq_contains(crate::text::lowercase(ds[0].name), crate::text::lowercase(w)) {
        Some(ds[0])
    } else {
        first_named(ds.drop_first(), w)
    }
}

/// The URL of the design file a directory URL stands for: with a selector,
/// the first design whose name contains it (case-insensitively); without,
/// the first design.
pub fn choose_design(rows: &Vec<PageRow>, wanted: Option<&str>) -> (r: Result<String, DesignChoiceError>)
    ensures
        ({
            let ds = design_rows(rows@.map_values(|row: PageRow| row@));
            match r {
                Ok(u) => ds.len() > 0 && match crate::ids::opt_str(wanted) {
                    Some(w) => first_named(ds, w) is Some && u@ == first_named(ds, w)->0.url,
                    None => u@ == ds[0].url,
                },
                Err(DesignChoiceError::NoDesigns) => ds.len() == 0,
                Err(DesignChoiceError::NoMatch(w, names)) => ds.len() > 0 && crate::ids::opt_str(wanted) == Some(w@)
                    && first_named(ds, w@) is None && names@.map_values(|n: String| n@) == ds.map_values(
                    |d: PageRowView| d.name,
                ),
            }
        }),
{
    let ghost rv = rows@.map_values(|row: PageRow| row@);
    let mut ds: Vec<&PageRow> = Vec::new();
    let mut i: usize = 0;
    proof {
        assert(rv.subrange(0, 0) =~= Seq::<PageRowView>::empty());
        assert(ds@.map_values(|d: &PageRow| d@) =~= Seq::<PageRowView>::empty());
    }
    while i < rows.len()
        invariant
            rv == rows@.map_values(|row: PageRow| row@),
            i <= rows@.len(),
            ds@.map_values(|d: &PageRow| d@) == design_rows(rv.subrange(0, i as int)),
        decreases rows@.len() - i,
    {
        let row = &rows[i];
        proof {
            assert(rv.subrange(0, i + 1).drop_last() =~= rv.subrange(0, i as int));
            assert(rv.subrange(0, i + 1).last() == row@);
        }
        let t = chars_of(row.row_type.as_str());
        if eq_str(t.as_slice(), "design") && !row.url.as_str().is_empty() {
            let ghost before = ds@.map_values(|d: &PageRow| d@);
            ds.push(row);
            proof {
                assert(ds@.map_values(|d: &PageRow| d@) =~= before.push(row@));
            }
        }
        i += 1;
    }
    proof {
        assert(rv.subrange(0, rows@.len() as int) =~= rv);
    }
    let ghost dv = ds@.map_values(|d: &PageRow| d@);
    if ds.len() == 0 {
        return Err(DesignChoiceError::NoDesigns);
    }
    match wanted {
        None => {
            proof {
                assert(dv[0] == ds@[0]@);
            }
            Ok(ds[0].url.clone())
        },
        Some(w) => {
            let lw = crate::text::to_lower(w);
            let lwc = chars_of(lw.as_str());
            let mut k: usize = 0;
            proof {
                assert(dv.subrange(0, dv.len() as int) =~= dv);
            }
            while k < ds.len()
                invariant
                    dv == ds@.map_values(|d: &PageRow| d@),
                    dv == design_rows(rows@.map_values(|row: PageRow| row@)),
                    dv.len() > 0,
                    wanted == Some(w),
                    k <= ds@.len(),
                    lwc@ == crate::text::lowercase(w@),
                    first_named(dv, w@) == first_named(dv.subrange(k as int, dv.len() as int), w@),
                decreases ds@.len() - k,
            {
                let ghost rest = dv.subrange(k as int, dv.len() as int);
                proof {
                    assert(rest[0] == ds@[k as int]@);
                    assert(rest.drop_first() =~= dv.subrange(k + 1, dv.len() as int));
                }
                let ln = crate::text::to_lower(ds[k].name.as_str());
                let lnc = chars_of(ln.as_str());
                if crate::text::contains_chars(lnc.as_slice(), lwc.as_slice()) {
                    proof {
                        assert(first_named(rest, w@) == Some(rest[0]));
                    }
                    return Ok(ds[k].url.clone());
                }
                k += 1;
            }
            let mut names: Vec<String> = Vec::new();
            let mut j: usize = 0;
            while j < ds.len()
                invariant
                    dv == ds@.map_values(|d: &PageRow| d@),
                    dv == design_rows(rows@.map_values(|row: PageRow| row@)),
                    j <= ds@.len(),
                    names@.map_values(|n: String| n@) == dv.subrange(0, j as int).map_values(|d: PageRowView| d.name),
                decreases ds@.len() - j,
            {
                let ghost before = names@.map_values(|n: String| n@);
                names.push(ds[j].name.clone());
                proof {
                    assert(names@.map_values(|n: String| n@) =~= before.push(dv[j as int].name));
                    assert(dv.subrange(0, j + 1).map_values(|d: PageRowView| d.name) =~= dv.subrange(0, j as int).map_values(
                        |d: PageRowView| d.name,
                    ).push(dv[j as int].name));
                }
                j += 1;
            }
            proof {
                assert(dv.subrange(0, dv.len() as int) =~= dv);
                assert(dv.subrange(dv.len() as int, dv.len() as int) =~= Seq::<PageRowView>::empty());
            }
            Err(DesignChoiceError::NoMatch(String::from_str(w), names))
        },
    }
}

impl DesignChoiceError {
    /// The message reported for the error.
    pub fn message(&self) -> (r: String)
        ensures
            r@ == (match self {
                DesignChoiceError::NoDesigns => "Project directory has no design files"@,
                DesignChoiceError::NoMatch(w, names) => "No design matches \""@ + w@ + "\". Available designs: "@
                    + joined(names@.map_values(|n: String| n@)),
            }),
    {
        match self {
            DesignChoiceError::NoDesigns => String::from_str("Project directory has no design files"),
            DesignChoiceError::NoMatch(w, names) => {
                let mut m = String::from_str("No design matches \"");
                m.append(w.as_str());
                m.append("\". Available designs: ");
                let ghost start = m@;
                let ghost nv = names@.map_values(|n: String| n@);
                let mut i: usize = 0;
                proof {
                    assert(nv.subrange(0, 0) =~= Seq::<Seq<char>>::empty());
                    assert(m@ =~= start + joined(Seq::<Seq<char>>::empty()));
                }
                while i < names.len()
                    invariant
                        nv == names@.map_values(|n: String| n@),
                        i <= names@.len(),
                        m@ == start + joined(nv.subrange(0, i as int)),
                    decreases names@.len() - i,
                {
                    proof {
                        assert(nv.subrange(0, i + 1).drop_last() =~= nv.subrange(0, i as int));
                        assert(nv.subrange(0, i + 1).last() == names@[i as int]@);
                    }
                    if i > 0 {
                        m.append(", ");
                    }
                    m.append(names[i].as_str());
                    proof {
                        assert(m@ =~= start + joined(nv.subrange(0, i + 1)));
                    }
                    i += 1;
                }
                proof {
                    assert(nv.subrange(0, nv.len() as int) =~= nv);
                }
                m
            },
        }
    }
}

/// Texts joined with ", ".
pub open spec fn joined(parts: Seq<Seq<char>>) -> Seq<char>
    decreases parts.len(),
{
    if parts.len() == 0 {
        Seq::empty()
    } else if parts.len() == 1 {
        parts[0]
    } else {
        joined(parts.drop_last()) + ", "@ + parts.last()
    }
}

} // verus!
