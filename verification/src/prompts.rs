//! The workflow prompts the server offers: restoring a design, diffing
//! two states of a design, and handing a workspace's designs over.

use vstd::prelude::*;
use crate::catalog::CatalogDesign;
use crate::ids::opt_str;
use crate::text::string_of;

verus! {

/// Why a prompt could not be produced.
#[derive(Debug, Clone, PartialEq, Eq)]
pub enum PromptError {
    /// `url` is missing or empty for `moonvy_restore_design`.
    MissingUrl,
    /// `urlA` is missing or empty for `moonvy_diff_states`.
    MissingUrlA,
    /// `urlB` is missing or empty for `moonvy_diff_states`.
    MissingUrlB,
}

impl PromptError {
    /// The message reported for the error.
    pub fn message(&self) -> (r: String)
        ensures
            r@ == (match *self {
                PromptError::MissingUrl => "url is required for moonvy_restore_design"@,
                PromptError::MissingUrlA => "urlA is required for moonvy_diff_states"@,
                PromptError::MissingUrlB => "urlB is required for moonvy_diff_states"@,
            }),
    {
        match self {
            PromptError::MissingUrl => String::from_str("url is required for moonvy_restore_design"),
            PromptError::MissingUrlA => String::from_str("urlA is required for moonvy_diff_states"),
            PromptError::MissingUrlB => String::from_str("urlB is required for moonvy_diff_states"),
        }
    }
}

/// A prompt: its description and its text.
#[derive(Debug, Clone)]
pub struct PromptText {
    pub description: String,
    pub text: String,
}

/// The stack named in a prompt, with its default.
pub open spec fn stack_text(stack: Option<Seq<char>>) -> Seq<char> {
    match stack {
        Some(s) => s,
        None => "not specified (use sensible defaults)"@,
    }
}

/// The text of the design-restore prompt, one line after another.
pub open spec fn restore_text(url: Seq<char>, stack: Seq<char>, workspace: Option<Seq<char>>) -> Seq<char> {
    "Design restore workflow for: "@ + url + "\n"@ + "Target stack: "@ + stack + "\n"@ + "\n"@ + "Steps:\n"@
        + "1. Call moonvy_get_design_context on the URL (one call: metadata + layer tree with styles + tokens).\n"@
        + "2. Use the frame dimensions as the layout viewport; map tree nodes to UI components.\n"@
        + "3. Apply tokens (colors/fontSizes/radii/spacing) as design-system values.\n"@
        + "4. Call moonvy_download_asset for slice/snapshot assets (out must be an absolute path).\n"@ + match workspace {
        Some(ws) => "5. Optionally moonvy_sync_project to index the project (workspace: "@ + ws + ")."@,
        None => "5. Optionally moonvy_sync_project to index the project for name-based lookups."@,
    } + "\n"@ + "\n"@ + "Guidance:\n"@ + "- Check child nodes for real colors and radii (parent nodes often carry none).\n"@
        + "- Reuse tokens instead of hardcoding hex values.\n"@
        + "- Export icons and slices as SVG via moonvy_download_asset with sliceFormat: \"svg\"."@
}

/// The design-restore workflow prompt for a design URL; the URL is
/// required and must not be empty.
pub fn restore_design_prompt(url: Option<&str>, stack: Option<&str>, workspace_dir: Option<&str>) -> (r: Result<PromptText, PromptError>)
    ensures
        match r {
            Ok(p) => opt_str(url) is Some && opt_str(url)->0.len() > 0 && p.description@ == "Design restore workflow for "@
                + opt_str(url)->0 && p.text@ == restore_text(opt_str(url)->0, stack_text(opt_str(stack)), opt_str(workspace_dir)),
            Err(e) => e == PromptError::MissingUrl && (opt_str(url) is None || opt_str(url)->0.len() == 0),
        },
{
    let url = match url {
        Some(u) => {
            if u.is_empty() {
                return Err(PromptError::MissingUrl);
            }
            u
        },
        None => {
            return Err(PromptError::MissingUrl);
        },
    };
    let stack: &str = match stack {
        Some(s) => s,
        None => "not specified (use sensible defaults)",
    };
    let mut t = String::from_str("Design restore workflow for: ");
    t.append(url);
    t.append("\n");
    t.append("Target stack: ");
    t.append(stack);
    t.append("\n");
    t.append("\n");
    t.append("Steps:\n");
    t.append("1. Call moonvy_get_design_context on the URL (one call: metadata + layer tree with styles + tokens).\n");
    t.append("2. Use the frame dimensions as the layout viewport; map tree nodes to UI components.\n");
    t.append("3. Apply tokens (colors/fontSizes/radii/spacing) as design-system values.\n");
    t.append("4. Call moonvy_download_asset for slice/snapshot assets (out must be an absolute path).\n");
    match workspace_dir {
        Some(ws) => {
            t.append("5. Optionally moonvy_sync_project to index the project (workspace: ");
            t.append(ws);
            t.append(").");
        },
        None => {
            t.append("5. Optionally moonvy_sync_project to index the project for name-based lookups.");
        },
    }
    t.append("\n");
    t.append("\n");
    t.append("Guidance:\n");
    t.append("- Check child nodes for real colors and radii (parent nodes often carry none).\n");
    t.append("- Reuse tokens instead of hardcoding hex values.\n");
    t.append("- Export icons and slices as SVG via moonvy_download_asset with sliceFormat: \"svg\".");
    let mut d = String::from_str("Design restore workflow for ");
    d.append(url);
    proof {
        assert(t@ =~= restore_text(url@, stack@, opt_str(workspace_dir)));
    }
    Ok(PromptText { description: d, text: t })
}

/// The text of the state-diff prompt, one line after another.
pub open spec fn diff_text(url_a: Seq<char>, url_b: Seq<char>, stack: Seq<char>) -> Seq<char> {
    "State diff workflow: "@ + url_a + " vs "@ + url_b + "\n"@ + "Target stack: "@ + stack + "\n"@ + "\n"@ + "Steps:\n"@
        + "1. Call moonvy_get_tree on both URLs with withStyle: true, flatten: true, skipEmptyGroups: true (absolute coordinates, no container noise).\n"@
        + "2. Call moonvy_diff_designs with the same options to get added/removed/changed layers with before/after snapshots.\n"@
        + "3. Treat `changed` as the state transition: read `fields` (text/style/rect/childrenCount) and apply only those deltas on top of the base state.\n"@
        + "4. `added` layers belong to the new state only; `removed` layers must be hidden or removed.\n"@
        + "5. For any image/snapshot node, use moonvy_get_asset_url to fetch the direct URL, or moonvy_download_asset to save it.\n"@
        + "\n"@ + "Guidance:\n"@
        + "- If both designs are separate pages, diff pairs nodes by id first, then by identical names; review unmatched added/removed as real structural changes.\n"@
        + "- Skip empty groups on both sides so coordinate deltas stay meaningful."@
}

/// The state-diff workflow prompt for two design URLs; both are required
/// and must not be empty (the first is checked first).
pub fn diff_states_prompt(url_a: Option<&str>, url_b: Option<&str>, stack: Option<&str>) -> (r: Result<PromptText, PromptError>)
    ensures
        match r {
            Ok(p) => {
                &&& opt_str(url_a) is Some && opt_str(url_a)->0.len() > 0
                &&& opt_str(url_b) is Some && opt_str(url_b)->0.len() > 0
                &&& p.description@ == "State diff workflow: "@ + opt_str(url_a)->0 + " vs "@ + opt_str(url_b)->0
                &&& p.text@ == diff_text(opt_str(url_a)->0, opt_str(url_b)->0, stack_text(opt_str(stack)))
            },
            Err(e) => (e == PromptError::MissingUrlA && (opt_str(url_a) is None || opt_str(url_a)->0.len() == 0)) || (e
                == PromptError::MissingUrlB && opt_str(url_a) is Some && opt_str(url_a)->0.len() > 0 && (opt_str(url_b) is None
                || opt_str(url_b)->0.len() == 0)),
        },
{
    let a = match url_a {
        Some(u) => {
            if u.is_empty() {
                return Err(PromptError::MissingUrlA);
            }
            u
        },
        None => {
            return Err(PromptError::MissingUrlA);
        },
    };
    let b = match url_b {
        Some(u) => {
            if u.is_empty() {
                return Err(PromptError::MissingUrlB);
            }
            u
        },
        None => {
            return Err(PromptError::MissingUrlB);
        },
    };
    let stack: &str = match stack {
        Some(s) => s,
        None => "not specified (use sensible defaults)",
    };
    let mut head = String::from_str("State diff workflow: ");
    head.append(a);
    head.append(" vs ");
    head.append(b);
    let mut t = String::from_str("State diff workflow: ");
    t.append(a);
    t.append(" vs ");
    t.append(b);
    t.append("\n");
    t.append("Target stack: ");
    t.append(stack);
    t.append("\n");
    t.append("\n");
    t.append("Steps:\n");
    t.append(
        "1. Call moonvy_get_tree on both URLs with withStyle: true, flatten: true, skipEmptyGroups: true (absolute coordinates, no container noise).\n",
    );
    t.append("2. Call moonvy_diff_designs with the same options to get added/removed/changed layers with before/after snapshots.\n");
    t.append(
        "3. Treat `changed` as the state transition: read `fields` (text/style/rect/childrenCount) and apply only those deltas on top of the base state.\n",
    );
    t.append("4. `added` layers belong to the new state only; `removed` layers must be hidden or removed.\n");
    t.append("5. For any image/snapshot node, use moonvy_get_asset_url to fetch the direct URL, or moonvy_download_asset to save it.\n");
    t.append("\n");
    t.append("Guidance:\n");
    t.append(
        "- If both designs are separate pages, diff pairs nodes by id first, then by identical names; review unmatched added/removed as real structural changes.\n",
    );
    t.append("- Skip empty groups on both sides so coordinate deltas stay meaningful.");
    proof {
        assert(t@ =~= diff_text(a@, b@, stack@));
    }
    Ok(PromptText { description: head, text: t })
}

/* --------------------------------- handoff ---------------------------------- */

/// Most designs a handoff prompt lists.
pub const HANDOFF_DESIGNS: usize = 20;

/// The decimal digit `d`.
pub open spec fn digit_char(d: int) -> char {
    "0123456789"@[d]
}

/// The decimal text of `n`.
pub open spec fn decimal(n: nat) -> Seq<char>
    decreases n,
{
    if n < 10 {
        seq![digit_char(n as int)]
    } else {
        decimal(n / 10) + seq![digit_char((n % 10) as int)]
    }
}

/// The decimal text of a count.
pub fn decimal_text(n: usize) -> (r: String)
    ensures
        r@ == decimal(n as nat),
    decreases n,
{
    let digits = "0123456789";
    proof {
        reveal_strlit("0123456789");
    }
    let c = digits.get_char(n % 10);
    let one: Vec<char> = vec![c];
    let cs = string_of(one.as_slice());
    if n < 10 {
        cs
    } else {
        let mut s = decimal_text(n / 10);
        s.append(cs.as_str());
        s
    }
}

/// One line per design: `- ` and the line.
pub open spec fn design_bullets(ds: Seq<Seq<char>>) -> Seq<char>
    decreases ds.len(),
{
    if ds.len() == 0 {
        Seq::empty()
    } else {
        design_bullets(ds.drop_last()) + "- "@ + ds.last() + "\n"@
    }
}

/// One line per alias: `- from -> to`.
pub open spec fn alias_bullets(al: Seq<(Seq<char>, Seq<char>)>) -> Seq<char>
    decreases al.len(),
{
    if al.len() == 0 {
        Seq::empty()
    } else {
        alias_bullets(al.drop_last()) + "- "@ + al.last().0 + " -> "@ + al.last().1 + "\n"@
    }
}

/// The closing line of the handoff prompt.
pub open spec fn handoff_close() -> Seq<char> {
    "Use moonvy_get_tree_by_name to fetch a design tree, moonvy_extract_tokens for tokens, and moonvy_download_asset for assets."@
}

/// The text of the handoff prompt: the workspace, its catalog file, the
/// designs (with their count), the aliases when there are any, and the
/// tools to use next, one line after another.
pub open spec fn handoff_text(
    workspace: Seq<char>,
    catalog_path: Seq<char>,
    designs: Seq<Seq<char>>,
    aliases: Seq<(Seq<char>, Seq<char>)>,
) -> Seq<char> {
    "Workspace: "@ + workspace + "\n"@ + "Catalog: "@ + catalog_path + "\n"@ + "Designs ("@ + decimal(designs.len())
        + "):\n"@ + design_bullets(designs) + (if aliases.len() > 0 {
        "Aliases:\n"@ + alias_bullets(aliases)
    } else {
        Seq::empty()
    }) + handoff_close()
}

/// The description of the handoff prompt for a catalog of `total` designs.
pub open spec fn handoff_description(workspace: Seq<char>, total: nat) -> Seq<char> {
    "Handoff for "@ + decimal(if total < 20 { total } else { 20 }) + " designs in "@ + workspace
}

/// The line a catalog design gets in a handoff prompt: name, type in
/// brackets, URL.
pub open spec fn catalog_line(d: crate::catalog::DesignView) -> Seq<char> {
    d.name + " ("@ + d.design_type + ") "@ + d.url
}

/// The handoff lines of a catalog's designs: the first 20, in order.
pub fn catalog_lines(designs: &Vec<CatalogDesign>) -> (r: Vec<String>)
    ensures
        r@.len() == (if designs@.len() < 20 { designs@.len() } else { 20 }),
        forall|k: int| 0 <= k < r@.len() ==> (#[trigger] r@[k])@ == catalog_line(designs@[k]@),
{
    let n = if designs.len() < HANDOFF_DESIGNS { designs.len() } else { HANDOFF_DESIGNS };
    let mut r: Vec<String> = Vec::new();
    let mut k: usize = 0;
    while k < n
        invariant
            n == (if designs@.len() < 20 { designs@.len() } else { 20 }),
            k <= n,
            r@.len() == k,
            forall|t: int| 0 <= t < k ==> (#[trigger] r@[t])@ == catalog_line(designs@[t]@),
        decreases n - k,
    {
        let d = &designs[k];
        let mut line = d.name.clone();
        line.append(" (");
        line.append(d.design_type.as_str());
        line.append(") ");
        line.append(d.url.as_str());
        proof {
            reveal_strlit(" (");
            reveal_strlit(") ");
        }
        r.push(line);
        k += 1;
    }
    r
}

/// The handoff prompt for a workspace: `designs` holds the design lines to
/// list (search hits or catalog lines), `total` the catalog's size.
pub fn handoff_prompt(
    workspace: &str,
    catalog_path: &str,
    designs: &Vec<String>,
    aliases: &Vec<(String, String)>,
    total: usize,
) -> (r: PromptText)
    ensures
        r.text@ == handoff_text(
            workspace@,
            catalog_path@,
            designs@.map_values(|d: String| d@),
            aliases@.map_values(|a: (String, String)| (a.0@, a.1@)),
        ),
        r.description@ == handoff_description(workspace@, total as nat),
{
    let ghost dv = designs@.map_values(|d: String| d@);
    let ghost av = aliases@.map_values(|a: (String, String)| (a.0@, a.1@));
    let mut text = String::from_str("Workspace: ");
    text.append(workspace);
    text.append("\n");
    text.append("Catalog: ");
    text.append(catalog_path);
    text.append("\n");
    text.append("Designs (");
    let count = decimal_text(designs.len());
    text.append(count.as_str());
    text.append("):\n");
    let ghost head = text@;
    proof {
        assert(dv.len() == designs@.len());
        assert(dv.subrange(0, 0) =~= Seq::<Seq<char>>::empty());
    }
    let mut k: usize = 0;
    while k < designs.len()
        invariant
            dv == designs@.map_values(|d: String| d@),
            k <= designs@.len(),
            text@ == head + design_bullets(dv.subrange(0, k as int)),
        decreases designs@.len() - k,
    {
        text.append("- ");
        text.append(designs[k].as_str());
        text.append("\n");
        proof {
            assert(dv.subrange(0, k + 1).drop_last() =~= dv.subrange(0, k as int));
            assert(dv.subrange(0, k + 1).last() == designs@[k as int]@);
        }
        k += 1;
    }
    proof {
        assert(dv.subrange(0, designs@.len() as int) =~= dv);
    }
    if aliases.len() > 0 {
        text.append("Aliases:\n");
        let ghost mid = text@;
        proof {
            assert(av.subrange(0, 0) =~= Seq::<(Seq<char>, Seq<char>)>::empty());
        }
        let mut j: usize = 0;
        while j < aliases.len()
            invariant
                av == aliases@.map_values(|a: (String, String)| (a.0@, a.1@)),
                j <= aliases@.len(),
                text@ == mid + alias_bullets(av.subrange(0, j as int)),
            decreases aliases@.len() - j,
        {
            text.append("- ");
            text.append(aliases[j].0.as_str());
            text.append(" -> ");
            text.append(aliases[j].1.as_str());
            text.append("\n");
            proof {
                assert(av.subrange(0, j + 1).drop_last() =~= av.subrange(0, j as int));
                assert(av.subrange(0, j + 1).last() == (aliases@[j as int].0@, aliases@[j as int].1@));
            }
            j += 1;
        }
        proof {
            assert(av.subrange(0, aliases@.len() as int) =~= av);
        }
    }
    text.append(
        "Use moonvy_get_tree_by_name to fetch a design tree, moonvy_extract_tokens for tokens, and moonvy_download_asset for assets.",
    );
    let shown = if total < HANDOFF_DESIGNS { total } else { HANDOFF_DESIGNS };
    let mut description = String::from_str("Handoff for ");
    let sc = decimal_text(shown);
    description.append(sc.as_str());
    description.append(" designs in ");
    description.append(workspace);
    proof {
        assert(text@ =~= handoff_text(workspace@, catalog_path@, dv, av));
        assert(description@ =~= handoff_description(workspace@, total as nat));
    }
    PromptText { description, text }
}

} // verus!
