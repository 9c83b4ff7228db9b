//! Helpers shared by the tools: URL and file-name sanitizing, asset
//! extensions, and building catalog designs from a page listing.

use vstd::prelude::*;
use crate::catalog::{clone_strings, texts, Catalog, CatalogDesign, DesignView};
use crate::text::{alphanumeric, char_is_alphanumeric, chars_eq, chars_of, contains_str, lowercase, seq_contains, string_of, to_lower};

verus! {

/* ------------------------------------ URLs ----------------------------------- */

/// Name for what parsing `u` as a URL, clearing its user name, password,
/// query and fragment, and serializing it gives; `None` when `u` does not
/// parse as a URL.
pub uninterp spec fn url_without_credentials(u: Seq<char>) -> Option<Seq<char>>;

/// `url::Url::parse`, then `set_username("")`, `set_password(None)`,
/// `set_query(None)`, `set_fragment(None)` and `to_string`: the result is
/// the name `url_without_credentials` applied to the input.
#[verifier::external_body]
fn strip_url(url: &str) -> (r: Option<String>)
    ensures
        match r {
            Some(s) => url_without_credentials(url@) == Some(s@),
            None => url_without_credentials(url@) is None,
        },
{
    match url::Url::parse(url) {
        Ok(mut parsed) => {
            let _ = parsed.set_username("");
            let _ = parsed.set_password(None);
            parsed.set_query(None);
            parsed.set_fragment(None);
            Some(parsed.to_string())
        },
        Err(_) => None,
    }
}

/// A URL without credentials, query or fragment; a text that does not
/// parse as a URL is kept as it is.
pub open spec fn sanitized(u: Seq<char>) -> Seq<char> {
    match url_without_credentials(u) {
        Some(s) => s,
        None => u,
    }
}

/// Removes user name, password, query and fragment from a URL; a text that
/// does not parse as a URL is returned unchanged.
pub fn sanitize_url(url: &str) -> (r: String)
    ensures
        r@ == sanitized(url@),
{
    match strip_url(url) {
        Some(s) => s,
        None => String::from_str(url),
    }
}

/* ---------------------------------- file names ---------------------------------- */

/// A character kept in file names: alphanumeric, `_`, `-`, or a CJK
/// unified ideograph (U+4E00..U+9FFF).
pub open spec fn name_char_kept(c: char) -> bool {
    alphanumeric(c) || c == '_' || c == '-' || ('\u{4e00}' <= c && c <= '\u{9fff}')
}

/// `name` with every character that is not kept replaced by `_`.
pub open spec fn sanitized_name(name: Seq<char>) -> Seq<char> {
    name.map_values(|c: char| if name_char_kept(c) { c } else { '_' })
}

/// Makes a text safe as a file name: every character that is not
/// alphanumeric, `_`, `-` or a CJK ideograph becomes `_`.
pub fn sanitize_name(name: &str) -> (r: String)
    ensures
        r@ == sanitized_name(name@),
{
    let cs = chars_of(name);
    let mut out: Vec<char> = Vec::new();
    let mut i: usize = 0;
    while i < cs.len()
        invariant
            cs@ == name@,
            i <= cs@.len(),
            out@ == sanitized_name(name@).subrange(0, i as int),
        decreases cs@.len() - i,
    {
        let c = cs[i];
        let keep = char_is_alphanumeric(c) || c == '_' || c == '-' || ('\u{4e00}' <= c && c <= '\u{9fff}');
        if keep {
            out.push(c);
        } else {
            out.push('_');
        }
        proof {
            assert(sanitized_name(name@).subrange(0, i + 1) =~= sanitized_name(name@).subrange(0, i as int).push(
                sanitized_name(name@)[i as int],
            ));
        }
        i += 1;
    }
    proof {
        assert(sanitized_name(name@).subrange(0, cs@.len() as int) =~= sanitized_name(name@));
    }
    string_of(out.as_slice())
}

/// Sanitizing a name twice changes nothing more than sanitizing it once.
pub proof fn lemma_sanitize_name_idempotent(name: Seq<char>)
    ensures
        sanitized_name(sanitized_name(name)) == sanitized_name(name),
{
    let once = sanitized_name(name);
    assert forall|i: int| 0 <= i < once.len() implies #[trigger] name_char_kept(once[i]) by {
        if !name_char_kept(name[i]) {
            assert(once[i] == '_');
        }
    }
    assert(sanitized_name(once) =~= once);
}

/// The asset extensions recognized in URLs, in the order they are tried.
pub open spec fn known_extensions() -> Seq<Seq<char>> {
    seq!["svg"@, "png"@, "jpg"@, "jpeg"@, "webp"@, "gif"@]
}

/// The first of the known extensions `e` such that the lowercased URL
/// contains `.e`, with its dot; empty when there is none.
pub open spec fn extension_from(lower: Seq<char>, k: int) -> Seq<char>
    decreases 6 - k,
{
    if k >= 6 || k < 0 {
        Seq::empty()
    } else if seq_contains(lower, seq!['.'] + known_extensions()[k]) {
        seq!['.'] + known_extensions()[k]
    } else {
        extension_from(lower, k + 1)
    }
}

/// The extension (with its dot) of an already lowercased URL: the first of
/// svg, png, jpg, jpeg, webp, gif that occurs as `.ext` in it, or nothing.
pub fn extension_of_lowercase(lower: &str) -> (r: String)
    ensures
        r@ == extension_from(lower@, 0),
{
    let l = chars_of(lower);
    proof {
        reveal_strlit(".svg");
        reveal_strlit(".png");
        reveal_strlit(".jpg");
        reveal_strlit(".jpeg");
        reveal_strlit(".webp");
        reveal_strlit(".gif");
        reveal_strlit("svg");
        reveal_strlit("png");
        reveal_strlit("jpg");
        reveal_strlit("jpeg");
        reveal_strlit("webp");
        reveal_strlit("gif");
        assert(".svg"@ =~= seq!['.'] + "svg"@);
        assert(".png"@ =~= seq!['.'] + "png"@);
        assert(".jpg"@ =~= seq!['.'] + "jpg"@);
        assert(".jpeg"@ =~= seq!['.'] + "jpeg"@);
        assert(".webp"@ =~= seq!['.'] + "webp"@);
        assert(".gif"@ =~= seq!['.'] + "gif"@);
        reveal_with_fuel(extension_from, 7);
    }
    if contains_str(l.as_slice(), ".svg") {
        return String::from_str(".svg");
    }
    if contains_str(l.as_slice(), ".png") {
        return String::from_str(".png");
    }
    if contains_str(l.as_slice(), ".jpg") {
        return String::from_str(".jpg");
    }
    if contains_str(l.as_slice(), ".jpeg") {
        return String::from_str(".jpeg");
    }
    if contains_str(l.as_slice(), ".webp") {
        return String::from_str(".webp");
    }
    if contains_str(l.as_slice(), ".gif") {
        return String::from_str(".gif");
    }
    String::new()
}

/// Guesses a file extension (with its dot) from a URL: the first of svg,
/// png, jpg, jpeg, webp, gif that occurs as `.ext` in the lowercased URL,
/// or nothing.
pub fn infer_extension(url: &str) -> (r: String)
    ensures
        r@ == extension_from(lowercase(url@), 0),
{
    let lower = to_lower(url);
    extension_of_lowercase(lower.as_str())
}


/* ---------------------------------- page rows ---------------------------------- */

/// Preview images of a listed page.
#[derive(Debug, Clone, Default)]
pub struct PagePreview {
    pub normal: Option<String>,
    pub large: Option<String>,
}

/// One node of a project listing.
#[derive(Debug, Clone, Default)]
pub struct PageRow {
    pub id: String,
    pub name: String,
    pub row_type: String,
    pub parent_id: Option<String>,
    pub project_id: String,
    pub url: String,
    pub preview: Option<PagePreview>,
    /// Best-effort timestamps from the list API (may be absent).
    pub created_at: Option<String>,
    pub updated_at: Option<String>,
    /// Best-effort frame dimensions from the list API (may be absent).
    pub width: Option<i64>,
    pub height: Option<i64>,
}

/// Text of an optional string.
pub open spec fn opt_text(o: Option<String>) -> Option<Seq<char>> {
    match o {
        Some(s) => Some(s@),
        None => None,
    }
}

pub struct PreviewView {
    pub normal: Option<Seq<char>>,
    pub large: Option<Seq<char>>,
}

pub struct PageRowView {
    pub id: Seq<char>,
    pub name: Seq<char>,
    pub row_type: Seq<char>,
    pub parent_id: Option<Seq<char>>,
    pub project_id: Seq<char>,
    pub url: Seq<char>,
    pub preview: Option<PreviewView>,
    pub created_at: Option<Seq<char>>,
    pub updated_at: Option<Seq<char>>,
    pub width: Option<i64>,
    pub height: Option<i64>,
}

impl View for PagePreview {
    type V = PreviewView;

    open spec fn view(&self) -> PreviewView {
        PreviewView { normal: opt_text(self.normal), large: opt_text(self.large) }
    }
}

impl View for PageRow {
    type V = PageRowView;

    open spec fn view(&self) -> PageRowView {
        PageRowView {
            id: self.id@,
            name: self.name@,
            row_type: self.row_type@,
            parent_id: opt_text(self.parent_id),
            project_id: self.project_id@,
            url: self.url@,
            preview: match self.preview {
                Some(p) => Some(p@),
                None => None,
            },
            created_at: opt_text(self.created_at),
            updated_at: opt_text(self.updated_at),
            width: self.width,
            height: self.height,
        }
    }
}

/* ------------------------------- catalog sync ---------------------------------- */

/// `key` is the id, url or name of `d`.
pub open spec fn index_match(d: DesignView, key: Seq<char>) -> bool {
    d.id == key || d.url == key || d.name == key
}

/// The previous design indexed under `key`: the last design whose id, url
/// or name is `key` (later designs take the key over).
pub open spec fn previous_lookup(ds: Seq<DesignView>, key: Seq<char>) -> Option<DesignView>
    decreases ds.len(),
{
    if ds.len() == 0 {
        None
    } else if index_match(ds.last(), key) {
        Some(ds.last())
    } else {
        previous_lookup(ds.drop_last(), key)
    }
}

/// The previous design of a row: looked up by id, then url, then name.
pub open spec fn previous_of(ds: Seq<DesignView>, row: PageRowView) -> Option<DesignView> {
    match previous_lookup(ds, row.id) {
        Some(d) => Some(d),
        None => match previous_lookup(ds, row.url) {
            Some(d) => Some(d),
            None => previous_lookup(ds, row.name),
        },
    }
}

/// The type filter: no types, or the lowercased row type among them.
pub open spec fn type_included(types: Seq<Seq<char>>, row_type: Seq<char>) -> bool {
    types.len() == 0 || types.contains(lowercase(row_type))
}

/// The catalog design made from a row, keeping the aliases and tags of its
/// previous design.
pub open spec fn synced_design(row: PageRowView, prev: Option<DesignView>, now: Seq<char>) -> DesignView {
    DesignView {
        id: row.id,
        name: row.name,
        design_type: row.row_type,
        url: sanitized(row.url),
        project_id: row.project_id,
        parent_id: match row.parent_id {
            Some(p) => p,
            None => Seq::empty(),
        },
        aliases: match prev {
            Some(p) => p.aliases,
            None => Seq::empty(),
        },
        tags: match prev {
            Some(p) => p.tags,
            None => Seq::empty(),
        },
        last_synced_at: now,
        width: row.width,
        height: row.height,
    }
}

/// The catalog designs made from the rows that pass the type filter, in
/// row order, dropping those whose url or name is empty.
pub open spec fn synced_designs(rows: Seq<PageRowView>, types: Seq<Seq<char>>, prev: Seq<DesignView>, now: Seq<char>) -> Seq<DesignView>
    decreases rows.len(),
{
    if rows.len() == 0 {
        Seq::empty()
    } else {
        let r = synced_designs(rows.drop_last(), types, prev, now);
        let row = rows.last();
        let d = synced_design(row, previous_of(prev, row), now);
        if type_included(types, row.row_type) && d.url.len() > 0 && d.name.len() > 0 {
            r.push(d)
        } else {
            r
        }
    }
}

/// The previous design indexed under `key`, by position.
fn lookup_previous(designs: &Vec<CatalogDesign>, key: &String) -> (r: Option<usize>)
    ensures
        match r {
            Some(i) => i < designs@.len() && previous_lookup(designs@.map_values(|d: CatalogDesign| d@), key@) == Some(designs@[i as int]@),
            None => previous_lookup(designs@.map_values(|d: CatalogDesign| d@), key@) is None,
        },
{
    let ghost ds = designs@.map_values(|d: CatalogDesign| d@);
    let mut i: usize = designs.len();
    proof {
        assert(ds.subrange(0, ds.len() as int) =~= ds);
    }
    while i > 0
        invariant
            ds == designs@.map_values(|d: CatalogDesign| d@),
            i <= designs@.len(),
            previous_lookup(ds, key@) == previous_lookup(ds.subrange(0, i as int), key@),
        decreases i,
    {
        let d = &designs[i - 1];
        proof {
            assert(ds.subrange(0, i as int).last() == d@);
            assert(ds.subrange(0, i as int).drop_last() =~= ds.subrange(0, i - 1));
        }
        if d.id.eq(key) || d.url.eq(key) || d.name.eq(key) {
            return Some(i - 1);
        }
        i -= 1;
    }
    None
}

/// The lowercased row type is among `types` (or `types` is empty).
fn type_passes(types: &[String], row_type: &String) -> (r: bool)
    ensures
        r == type_included(texts(types@), row_type@),
{
    if types.len() == 0 {
        return true;
    }
    let lower = to_lower(row_type.as_str());
    let mut i: usize = 0;
    while i < types.len()
        invariant
            i <= types@.len(),
            lower@ == lowercase(row_type@),
            forall|k: int| 0 <= k < i ==> types@[k]@ != lower@,
        decreases types@.len() - i,
    {
        if types[i].eq(&lower) {
            proof {
                assert(texts(types@)[i as int] == lower@);
            }
            return true;
        }
        i += 1;
    }
    proof {
        if texts(types@).contains(lower@) {
            let k = choose|k: int| 0 <= k < texts(types@).len() && texts(types@)[k] == lower@;
            assert(types@[k]@ == lower@);
        }
    }
    false
}

/// Builds catalog designs from a page listing: rows whose lowercased type is
/// among `include_types` (all rows when it is empty), with sanitized URLs,
/// keeping the aliases and tags of the previous catalog's design with the
/// same id, url or name; rows left without url or name are dropped.
pub fn normalize_catalog_designs(rows: &[PageRow], include_types: &[String], previous: &Catalog, now: &str) -> (r: Vec<CatalogDesign>)
    ensures
        r@.map_values(|d: CatalogDesign| d@) == synced_designs(
            rows@.map_values(|row: PageRow| row@),
            texts(include_types@),
            previous.designs@.map_values(|d: CatalogDesign| d@),
            now@,
        ),
{
    let ghost rv = rows@.map_values(|row: PageRow| row@);
    let ghost tv = texts(include_types@);
    let ghost pv = previous.designs@.map_values(|d: CatalogDesign| d@);
    let mut out: Vec<CatalogDesign> = Vec::new();
    let mut i: usize = 0;
    while i < rows.len()
        invariant
            rv == rows@.map_values(|row: PageRow| row@),
            tv == texts(include_types@),
            pv == previous.designs@.map_values(|d: CatalogDesign| d@),
            i <= rows@.len(),
            out@.map_values(|d: CatalogDesign| d@) == synced_designs(rv.subrange(0, i as int), tv, pv, now@),
        decreases rows@.len() - i,
    {
        let row = &rows[i];
        proof {
            assert(rv.subrange(0, i + 1).drop_last() =~= rv.subrange(0, i as int));
            assert(rv.subrange(0, i + 1).last() == row@);
        }
        let ghost old_out = out@;
        if type_passes(include_types, &row.row_type) {
            let prev = match lookup_previous(&previous.designs, &row.id) {
                Some(k) => Some(k),
                None => match lookup_previous(&previous.designs, &row.url) {
                    Some(k) => Some(k),
                    None => lookup_previous(&previous.designs, &row.name),
                },
            };
            let url = sanitize_url(row.url.as_str());
            if url.as_str().is_empty() || row.name.as_str().is_empty() {
            } else {
                let (aliases, tags) = match prev {
                    Some(k) => (clone_strings(&previous.designs[k].aliases), clone_strings(&previous.designs[k].tags)),
                    None => (Vec::new(), Vec::new()),
                };
                proof {
                    if prev is None {
                        assert(texts(aliases@) =~= Seq::<Seq<char>>::empty());
                        assert(texts(tags@) =~= Seq::<Seq<char>>::empty());
                    }
                }
                let parent_id = match &row.parent_id {
                    Some(p) => p.clone(),
                    None => String::new(),
                };
                let d = CatalogDesign {
                    id: row.id.clone(),
                    name: row.name.clone(),
                    design_type: row.row_type.clone(),
                    url,
                    project_id: row.project_id.clone(),
                    parent_id,
                    aliases,
                    tags,
                    last_synced_at: String::from_str(now),
                    width: row.width,
                    height: row.height,
                };
                proof {
                    assert(d@ == synced_design(row@, previous_of(pv, row@), now@));
                }
                out.push(d);
                proof {
                    assert(out@.map_values(|d: CatalogDesign| d@) =~= old_out.map_values(|d: CatalogDesign| d@).push(
                        synced_design(row@, previous_of(pv, row@), now@),
                    ));
                }
            }
        }
        i += 1;
    }
    proof {
        assert(rv.subrange(0, rows@.len() as int) =~= rv);
    }
    out
}


/* ------------------------------- download names -------------------------------- */

/// The file name a downloaded asset is saved under: the file name given by
/// the output path, else the sanitized name (the one asked for, else the
/// asset's), then `_crop` when the image was cropped, then the extension
/// (`.png` for a cropped image).
pub open spec fn download_name_spec(
    file_name: Option<Seq<char>>,
    name: Option<Seq<char>>,
    asset_name: Seq<char>,
    cropped: bool,
    extension: Seq<char>,
) -> Seq<char> {
    match file_name {
        Some(f) => f,
        None => {
            let stem = sanitized_name(
                match name {
                    Some(n) => n,
                    None => asset_name,
                },
            );
            if cropped {
                stem + "_crop"@ + ".png"@
            } else {
                stem + extension
            }
        },
    }
}

/// The file name a downloaded asset is saved under (see
/// `download_name_spec`).
pub fn download_name(file_name: Option<&str>, name: Option<&str>, asset_name: &str, cropped: bool, extension: &str) -> (r: String)
    ensures
        r@ == download_name_spec(crate::ids::opt_str(file_name), crate::ids::opt_str(name), asset_name@, cropped, extension@),
{
    match file_name {
        Some(f) => String::from_str(f),
        None => {
            let base: &str = match name {
                Some(n) => n,
                None => asset_name,
            };
            let mut out = sanitize_name(base);
            if cropped {
                out.append("_crop");
                out.append(".png");
            } else {
                out.append(extension);
            }
            out
        },
    }
}

/* -------------------------------- asset manifest -------------------------------- */

/// An image of a design, as its image table lists it.
#[derive(Debug, Clone, Default)]
pub struct ImageRef {
    pub hash: String,
    pub url: Option<String>,
    pub image_type: Option<String>,
}

/// An entry of the asset manifest of a layer tree: an image, with the ids
/// of the tree nodes whose snapshot is that image (absent when none is).
#[derive(Debug, Clone, Default)]
pub struct AssetEntry {
    pub hash: String,
    pub url: String,
    pub asset_type: Option<String>,
    pub refs: Option<Vec<String>>,
}

pub struct AssetView {
    pub hash: Seq<char>,
    pub url: Seq<char>,
    pub asset_type: Option<Seq<char>>,
    pub refs: Option<Seq<Seq<char>>>,
}

impl View for AssetEntry {
    type V = AssetView;

    open spec fn view(&self) -> AssetView {
        AssetView {
            hash: self.hash@,
            url: self.url@,
            asset_type: opt_text(self.asset_type),
            refs: match self.refs {
                Some(v) => Some(texts(v@)),
                None => None,
            },
        }
    }
}

/// The ids of the nodes of `ns`, in order, whose snapshot hash is `hash`.
pub open spec fn refs_in(ns: Seq<crate::tree::TreeNode>, hash: Seq<char>) -> Seq<Seq<char>>
    decreases ns.len(),
{
    if ns.len() == 0 {
        Seq::empty()
    } else {
        let r = refs_in(ns.drop_last(), hash);
        if opt_text(ns.last().snapshot_hash) == Some(hash) {
            r.push(ns.last().id@)
        } else {
            r
        }
    }
}

/// The manifest entry of image `img` for the layer tree `tree`: the nodes
/// that reference it are taken in stack-walk order (see `flat_nodes`).
pub open spec fn asset_entry_spec(tree: Seq<crate::tree::TreeNode>, img: ImageRef) -> AssetView {
    let r = refs_in(crate::tree::flat_nodes(tree), img.hash@);
    AssetView {
        hash: img.hash@,
        url: match img.url {
            Some(u) => u@,
            None => Seq::empty(),
        },
        asset_type: opt_text(img.image_type),
        refs: if r.len() > 0 {
            Some(r)
        } else {
            None
        },
    }
}

/// Number of images an asset manifest lists at most.
pub const MANIFEST_IMAGES: usize = 50;

/// The asset manifest of a layer tree: the first 50 images, in the order
/// given, each with the ids of the tree nodes whose snapshot it is.
pub fn asset_manifest(tree: &Vec<crate::tree::TreeNode>, images: &Vec<ImageRef>) -> (r: Vec<AssetEntry>)
    ensures
        r@.len() == (if images@.len() < 50 { images@.len() } else { 50 }),
        forall|k: int| 0 <= k < r@.len() ==> (#[trigger] r@[k])@ == asset_entry_spec(tree@, images@[k]),
{
    let flat = crate::tree::flatten_tree(tree);
    let n = if images.len() < MANIFEST_IMAGES { images.len() } else { MANIFEST_IMAGES };
    let mut r: Vec<AssetEntry> = Vec::new();
    let mut k: usize = 0;
    while k < n
        invariant
            flat@.unref() == crate::tree::flat_nodes(tree@),
            n == (if images@.len() < 50 { images@.len() } else { 50 }),
            k <= n,
            r@.len() == k,
            forall|t: int| 0 <= t < k ==> (#[trigger] r@[t])@ == asset_entry_spec(tree@, images@[t]),
        decreases n - k,
    {
        let img = &images[k];
        let ghost fl = flat@.unref();
        let mut ids: Vec<String> = Vec::new();
        let mut t: usize = 0;
        while t < flat.len()
            invariant
                fl == flat@.unref(),
                fl == crate::tree::flat_nodes(tree@),
                t <= fl.len(),
                texts(ids@) == refs_in(fl.subrange(0, t as int), img.hash@),
            decreases fl.len() - t,
        {
            let node: &crate::tree::TreeNode = flat[t];
            proof {
                assert(fl.subrange(0, t + 1).drop_last() =~= fl.subrange(0, t as int));
                assert(fl.subrange(0, t + 1).last() == *node);
            }
            match &node.snapshot_hash {
                Some(h) => {
                    if h.eq(&img.hash) {
                        let ghost before = texts(ids@);
                        ids.push(node.id.clone());
                        proof {
                            assert(texts(ids@) =~= before.push(node.id@));
                        }
                    }
                },
                None => {},
            }
            t += 1;
        }
        proof {
            assert(fl.subrange(0, fl.len() as int) =~= fl);
        }
        let url = match &img.url {
            Some(u) => u.clone(),
            None => String::new(),
        };
        let asset_type = match &img.image_type {
            Some(x) => Some(x.clone()),
            None => None,
        };
        let refs = if ids.len() > 0 {
            Some(ids)
        } else {
            None
        };
        let entry = AssetEntry { hash: img.hash.clone(), url, asset_type, refs };
        r.push(entry);
        k += 1;
    }
    r
}

} // verus!
