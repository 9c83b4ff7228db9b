//! Moonvy URLs and the node records of the Moonvy API, as plain data.
//!
//! A Moonvy design URL has the shape `/project/:projectId/:dirId/:fileId`.

use vstd::prelude::*;
use crate::text::{
    chars_eq, chars_of, keep_nonempty, lemma_nonempty_concat, lemma_split_join, lemma_split_no_sep, nonempty_parts,
    split_chars, split_seq, string_of,
};

verus! {

/// Preview image URLs of a Moonvy node.
#[derive(Debug, Clone, Default)]
pub struct Preview {
    pub normal: Option<String>,
    pub large: Option<String>,
}

/// File references of a Moonvy node.
#[derive(Debug, Clone, Default)]
pub struct Files {
    pub genome: Option<GenomeFile>,
    pub file: Option<FileRef>,
}

/// Where the genome (design tree) of a node is stored.
#[derive(Debug, Clone, Default)]
pub struct GenomeFile {
    pub url: Option<String>,
}

/// Where the raw file of a node is stored.
#[derive(Debug, Clone, Default)]
pub struct FileRef {
    pub url: Option<String>,
}

/// The ids found in a Moonvy URL.
#[derive(Debug, Clone)]
pub struct MoonvyUrl {
    pub project_id: String,
    pub dir_id: Option<String>,
    pub file_id: Option<String>,
}

/* ------------------------------- specification ------------------------------ */

/// The non-empty `/`-separated segments of a URL.
pub open spec fn url_segments(url: Seq<char>) -> Seq<Seq<char>> {
    nonempty_parts(split_seq(url, '/'))
}

/// Index of the first element of `parts` equal to `x`, if any.
pub open spec fn first_index(parts: Seq<Seq<char>>, x: Seq<char>) -> Option<int> {
    if exists|i: int| 0 <= i < parts.len() && parts[i] == x {
        Some(
            choose|i: int|
                0 <= i < parts.len() && parts[i] == x && forall|k: int|
                    0 <= k < i ==> parts[k] != x,
        )
    } else {
        None
    }
}

pub open spec fn opt_at(parts: Seq<Seq<char>>, i: int) -> Option<Seq<char>> {
    if 0 <= i < parts.len() {
        Some(parts[i])
    } else {
        None
    }
}

/// The ids of a Moonvy URL: the three segments after the first `project`
/// segment (only the first is required), as (project, dir, file).
pub open spec fn parse_url_spec(url: Seq<char>) -> Option<
    (Seq<char>, Option<Seq<char>>, Option<Seq<char>>),
> {
    let parts = url_segments(url);
    match first_index(parts, "project"@) {
        Some(i) => if i + 1 < parts.len() {
            Some((parts[i + 1], opt_at(parts, i + 2), opt_at(parts, i + 3)))
        } else {
            None
        },
        None => None,
    }
}

pub open spec fn opt_view(o: Option<String>) -> Option<Seq<char>> {
    match o {
        Some(s) => Some(s@),
        None => None,
    }
}

pub open spec fn opt_str_view(o: Option<&str>) -> Option<Seq<char>> {
    match o {
        Some(s) => Some(s@),
        None => None,
    }
}

/// The canonical web URL of a Moonvy file: with the parent directory in
/// the path unless there is none or it is the file itself.
pub open spec fn file_url_spec(project_id: Seq<char>, parent_id: Option<Seq<char>>, id: Seq<char>) -> Seq<
    char,
> {
    match parent_id {
        Some(parent) => if parent != id {
            "https://moonvy.com/project/"@ + project_id + "/"@ + parent + "/"@ + id
        } else {
            "https://moonvy.com/project/"@ + project_id + "/"@ + id
        },
        None => "https://moonvy.com/project/"@ + project_id + "/"@ + id,
    }
}

/* -------------------------------- executable -------------------------------- */

fn opt_segment(parts: &Vec<Vec<char>>, i: usize) -> (r: Option<String>)
    ensures
        opt_view(r) == opt_at(parts@.map_values(|p: Vec<char>| p@), i as int),
{
    if i < parts.len() {
        Some(string_of(parts[i].as_slice()))
    } else {
        None
    }
}

/// Parses a Moonvy URL into its ids; `None` when there is no `project`
/// segment followed by a project id.
pub fn parse_moonvy_url(url: &str) -> (r: Option<MoonvyUrl>)
    ensures
        match (r, parse_url_spec(url@)) {
            (Some(u), Some((p, d, f))) => u.project_id@ == p && opt_view(u.dir_id) == d
                && opt_view(u.file_id) == f,
            (None, None) => true,
            _ => false,
        },
{
    let chars = chars_of(url);
    let pieces = split_chars(chars.as_slice(), '/');
    let ghost pv = pieces@.map_values(|p: Vec<char>| p@);
    proof {
        assert(pv =~= split_seq(url@, '/'));
    }
    let parts = keep_nonempty(pieces);
    let ghost parts_v = parts@.map_values(|p: Vec<char>| p@);
    proof {
        assert(parts_v =~= url_segments(url@));
    }
    let project = chars_of("project");
    let mut i: usize = 0;
    while i < parts.len() && !chars_eq(parts[i].as_slice(), project.as_slice())
        invariant
            i <= parts@.len(),
            parts_v == parts@.map_values(|p: Vec<char>| p@),
            project@ == "project"@,
            forall|k: int| 0 <= k < i ==> parts_v[k] != "project"@,
        decreases parts@.len() - i,
    {
        i += 1;
    }
    if i == parts.len() {
        assert(!(exists|k: int| 0 <= k < parts_v.len() && parts_v[k] == "project"@));
        return None;
    }
    proof {
        assert(parts_v[i as int] == "project"@);
        let c = choose|k: int|
            0 <= k < parts_v.len() && parts_v[k] == "project"@ && forall|t: int|
                0 <= t < k ==> parts_v[t] != "project"@;
        assert(c == i) by {
            if c < i {
            } else if c > i {
                assert(parts_v[i as int] != "project"@);
            }
        }
    }
    if i + 1 >= parts.len() {
        return None;
    }
    let project_id = string_of(parts[i + 1].as_slice());
    let j = i + 2;
    let dir_id = opt_segment(&parts, j);
    let file_id = if j < parts.len() {
        opt_segment(&parts, j + 1)
    } else {
        None
    };
    Some(MoonvyUrl { project_id, dir_id, file_id })
}

/// The canonical web URL of a Moonvy file.
pub fn file_url_for(project_id: &str, parent_id: Option<&str>, id: &str) -> (r: String)
    ensures
        r@ == file_url_spec(project_id@, opt_str_view(parent_id), id@),
{
    let mut out = String::from_str("https://moonvy.com/project/");
    out.append(project_id);
    out.append("/");
    match parent_id {
        Some(parent) => {
            let pc = chars_of(parent);
            let ic = chars_of(id);
            if !chars_eq(pc.as_slice(), ic.as_slice()) {
                out.append(parent);
                out.append("/");
            }
        },
        None => {},
    }
    out.append(id);
    proof {
        match parent_id {
            Some(parent) => {
                if parent@ != id@ {
                    assert(out@ =~= file_url_spec(project_id@, opt_str_view(parent_id), id@));
                } else {
                    assert(out@ =~= file_url_spec(project_id@, opt_str_view(parent_id), id@));
                }
            },
            None => {
                assert(out@ =~= file_url_spec(project_id@, opt_str_view(parent_id), id@));
            },
        }
    }
    out
}

/* ----------------------------------- laws ----------------------------------- */

/// One segment: kept when non-empty.
proof fn lemma_nonempty_single(x: Seq<char>)
    ensures
        nonempty_parts(seq![x]) == (if x.len() > 0 {
            seq![x]
        } else {
            Seq::<Seq<char>>::empty()
        }),
{
    assert(seq![x].drop_last() =~= Seq::<Seq<char>>::empty());
    assert(nonempty_parts(Seq::<Seq<char>>::empty()) == Seq::<Seq<char>>::empty());
    assert(seq![x].last() == x);
    assert(Seq::<Seq<char>>::empty().push(x) =~= seq![x]);
}

/// A piece of text without `/` is one segment (none when empty).
proof fn lemma_plain_segments(x: Seq<char>)
    requires
        !x.contains('/'),
    ensures
        url_segments(x) == (if x.len() > 0 {
            seq![x]
        } else {
            Seq::<Seq<char>>::empty()
        }),
{
    lemma_split_no_sep(x, '/');
    lemma_nonempty_single(x);
}

/// Joining with `/` concatenates the segments of both sides.
proof fn lemma_join_segments(a: Seq<char>, b: Seq<char>)
    ensures
        url_segments(a + seq!['/'] + b) == url_segments(a) + url_segments(b),
{
    lemma_split_join(a, b, '/');
    lemma_nonempty_concat(split_seq(a, '/'), split_seq(b, '/'));
}

/// The segments of a Moonvy project URL: `https:`, `moonvy.com`,
/// `project`, then those of the rest.
proof fn lemma_project_url_segments(rest: Seq<char>)
    ensures
        url_segments("https://moonvy.com/project/"@ + rest) == seq!["https:"@, "moonvy.com"@, "project"@]
            + url_segments(rest),
{
    reveal_strlit("https://moonvy.com/project/");
    reveal_strlit("https:");
    reveal_strlit("moonvy.com");
    reveal_strlit("project");
    let h = "https:"@;
    let m = "moonvy.com"@;
    let pr = "project"@;
    let e = Seq::<char>::empty();
    let t3 = pr + seq!['/'] + rest;
    let t2 = m + seq!['/'] + t3;
    let t1 = e + seq!['/'] + t2;
    assert("https://moonvy.com/project/"@ + rest =~= h + seq!['/'] + t1);
    lemma_join_segments(h, t1);
    lemma_join_segments(e, t2);
    lemma_join_segments(m, t3);
    lemma_join_segments(pr, rest);
    assert(!h.contains('/')) by {
        assert forall|k: int| 0 <= k < h.len() implies h[k] != '/' by {}
    }
    assert(!m.contains('/')) by {
        assert forall|k: int| 0 <= k < m.len() implies m[k] != '/' by {}
    }
    assert(!pr.contains('/')) by {
        assert forall|k: int| 0 <= k < pr.len() implies pr[k] != '/' by {}
    }
    assert(!e.contains('/'));
    lemma_plain_segments(h);
    lemma_plain_segments(m);
    lemma_plain_segments(pr);
    lemma_plain_segments(e);
    assert(seq![h] + (Seq::<Seq<char>>::empty() + (seq![m] + (seq![pr] + url_segments(rest)))) =~= seq![h, m, pr]
        + url_segments(rest));
}

/// The ids after the `project` segment of a project URL.
proof fn lemma_project_url_ids(ids: Seq<Seq<char>>)
    requires
        ids.len() >= 1,
    ensures
        ({
            let parts = seq!["https:"@, "moonvy.com"@, "project"@] + ids;
            first_index(parts, "project"@) == Some(2int)
        }),
{
    reveal_strlit("https:");
    reveal_strlit("moonvy.com");
    reveal_strlit("project");
    let parts = seq!["https:"@, "moonvy.com"@, "project"@] + ids;
    let pr = "project"@;
    assert(parts[0].len() != pr.len());
    assert(parts[1].len() != pr.len());
    assert(parts[2] == pr);
    assert(forall|k: int| 0 <= k < 2 ==> parts[k] != pr);
    let c = choose|i: int| 0 <= i < parts.len() && parts[i] == pr && forall|k: int| 0 <= k < i ==> parts[k] != pr;
    assert(c == 2) by {
        if c < 2 {
            assert(parts[c] != pr);
        } else if c > 2 {
            assert(parts[2] != pr);
        }
    }
}

/// A file URL built by `file_url_for` parses back to its ids: the project,
/// then the parent directory and the file when a parent other than the
/// file is given, else the file in the directory position.
pub proof fn lemma_file_url_round_trip(project_id: Seq<char>, parent_id: Option<Seq<char>>, id: Seq<char>)
    requires
        project_id.len() > 0,
        !project_id.contains('/'),
        id.len() > 0,
        !id.contains('/'),
        parent_id matches Some(d) ==> d.len() > 0 && !d.contains('/'),
    ensures
        parse_url_spec(file_url_spec(project_id, parent_id, id)) == (match parent_id {
            Some(d) => if d != id {
                Some((project_id, Some(d), Some(id)))
            } else {
                Some((project_id, Some(id), None))
            },
            None => Some((project_id, Some(id), None)),
        }),
{
    reveal_strlit("/");
    let prefix = "https://moonvy.com/project/"@;
    lemma_plain_segments(project_id);
    lemma_plain_segments(id);
    let two = project_id + seq!['/'] + id;
    lemma_join_segments(project_id, id);
    assert(url_segments(two) =~= seq![project_id, id]);
    match parent_id {
        Some(d) => {
            if d != id {
                lemma_plain_segments(d);
                let tail = d + seq!['/'] + id;
                let three = project_id + seq!['/'] + tail;
                lemma_join_segments(d, id);
                lemma_join_segments(project_id, tail);
                assert(url_segments(three) =~= seq![project_id, d, id]);
                assert(file_url_spec(project_id, parent_id, id) =~= prefix + three);
                lemma_project_url_segments(three);
                lemma_project_url_ids(seq![project_id, d, id]);
                assert(seq!["https:"@, "moonvy.com"@, "project"@] + seq![project_id, d, id] =~= seq![
                    "https:"@,
                    "moonvy.com"@,
                    "project"@,
                    project_id,
                    d,
                    id,
                ]);
            } else {
                assert(file_url_spec(project_id, parent_id, id) =~= prefix + two);
                lemma_project_url_segments(two);
                lemma_project_url_ids(seq![project_id, id]);
                assert(seq!["https:"@, "moonvy.com"@, "project"@] + seq![project_id, id] =~= seq![
                    "https:"@,
                    "moonvy.com"@,
                    "project"@,
                    project_id,
                    id,
                ]);
            }
        },
        None => {
            assert(file_url_spec(project_id, parent_id, id) =~= prefix + two);
            lemma_project_url_segments(two);
            lemma_project_url_ids(seq![project_id, id]);
            assert(seq!["https:"@, "moonvy.com"@, "project"@] + seq![project_id, id] =~= seq![
                "https:"@,
                "moonvy.com"@,
                "project"@,
                project_id,
                id,
            ]);
        },
    }
}

/* ------------------------------- API responses ------------------------------- */

/// At most the first 200 characters of a text.
pub open spec fn first_200(t: Seq<char>) -> Seq<char> {
    if t.len() > 200 {
        t.subrange(0, 200)
    } else {
        t
    }
}

/// The error an API call to `path` reports for an HTTP status `code`
/// (printed as `status_text`) with response body `body`: none for a 2xx
/// status; a login request for 401; otherwise the status and the first 200
/// characters of the body.
pub open spec fn api_error_spec(path: Seq<char>, code: u16, status_text: Seq<char>, body: Seq<char>) -> Option<Seq<char>> {
    if 200 <= code <= 299 {
        None
    } else if code == 401 {
        Some(
            "[AUTH_REQUIRED] moonvy api "@ + path
                + " returned 401. Call moonvy_login, or set MOONVY_TOKEN / run moonvy_set_token."@,
        )
    } else {
        Some("moonvy api "@ + path + " returned "@ + status_text + ": "@ + first_200(body))
    }
}

/// The error message of an API response, or `None` when its status is a
/// success.
pub fn api_error(path: &str, code: u16, status_text: &str, body: &str) -> (r: Option<String>)
    ensures
        match r {
            Some(m) => api_error_spec(path@, code, status_text@, body@) == Some(m@),
            None => api_error_spec(path@, code, status_text@, body@) is None,
        },
{
    if 200 <= code && code <= 299 {
        return None;
    }
    if code == 401 {
        let mut m = String::from_str("[AUTH_REQUIRED] moonvy api ");
        m.append(path);
        m.append(" returned 401. Call moonvy_login, or set MOONVY_TOKEN / run moonvy_set_token.");
        return Some(m);
    }
    let chars = chars_of(body);
    let n = if chars.len() > 200 { 200 } else { chars.len() };
    let mut kept: Vec<char> = Vec::new();
    let mut i: usize = 0;
    while i < n
        invariant
            chars@ == body@,
            n == (if chars@.len() > 200 { 200 } else { chars@.len() }),
            i <= n,
            kept@ == chars@.subrange(0, i as int),
        decreases n - i,
    {
        kept.push(chars[i]);
        i += 1;
        assert(kept@ =~= chars@.subrange(0, i as int));
    }
    proof {
        assert(kept@ =~= first_200(body@));
    }
    let cut = string_of(kept.as_slice());
    let mut m = String::from_str("moonvy api ");
    m.append(path);
    m.append(" returned ");
    m.append(status_text);
    m.append(": ");
    m.append(cut.as_str());
    Some(m)
}

} // verus!
