//! Node id comparison. Moonvy instance ids may be compound
//! (`I4:1222;4:1005;4:69`): two ids are equal when they are the same
//! trimmed text, or when either is compound and they share a segment.

use vstd::prelude::*;
use crate::text::{
    chars_eq, chars_of, keep_nonempty, nonempty_parts, split_chars, split_seq, trim_chars,
    trim_seq,
};

verus! {

/// The trimmed, non-empty `;`-separated segments of an id.
pub open spec fn id_segments(s: Seq<char>) -> Seq<Seq<char>> {
    nonempty_parts(split_seq(s, ';').map_values(|p: Seq<char>| trim_seq(p)))
}

/// When two optional node ids denote the same node.
pub open spec fn ids_equal_spec(a: Option<Seq<char>>, b: Option<Seq<char>>) -> bool {
    match (a, b) {
        (Some(a0), Some(b0)) => {
            let a1 = trim_seq(a0);
            let b1 = trim_seq(b0);
            if a1.len() == 0 || b1.len() == 0 {
                false
            } else if a1 == b1 {
                true
            } else {
                let sa = id_segments(a1);
                let sb = id_segments(b1);
                (sa.len() > 1 || sb.len() > 1) && exists|i: int, j: int|
                    0 <= i < sa.len() && 0 <= j < sb.len() && #[trigger] sa[i] == #[trigger] sb[j]
            }
        },
        _ => false,
    }
}

pub open spec fn opt_str(o: Option<&str>) -> Option<Seq<char>> {
    match o {
        Some(s) => Some(s@),
        None => None,
    }
}

/// The `;`-separated segments of an id, trimmed, empty ones left out.
pub fn segments_of(s: &Vec<char>) -> (r: Vec<Vec<char>>)
    ensures
        r@.len() == id_segments(s@).len(),
        forall|k: int| 0 <= k < r@.len() ==> #[trigger] r@[k]@ == id_segments(s@)[k],
{
    let pieces = split_chars(s.as_slice(), ';');
    let ghost sp = split_seq(s@, ';');
    let mut trimmed: Vec<Vec<char>> = Vec::new();
    let mut i: usize = 0;
    while i < pieces.len()
        invariant
            i <= pieces@.len(),
            pieces@.len() == sp.len(),
            forall|k: int| 0 <= k < pieces@.len() ==> #[trigger] pieces@[k]@ == sp[k],
            trimmed@.len() == i,
            forall|k: int| 0 <= k < i ==> #[trigger] trimmed@[k]@ == trim_seq(sp[k]),
        decreases pieces@.len() - i,
    {
        trimmed.push(trim_chars(pieces[i].as_slice()));
        i += 1;
    }
    let ghost tv = trimmed@.map_values(|p: Vec<char>| p@);
    proof {
        assert(tv =~= sp.map_values(|p: Seq<char>| trim_seq(p)));
    }
    keep_nonempty(trimmed)
}

/// Whether two optional node ids denote the same node.
#[verifier::loop_isolation(false)]
pub fn ids_equal(a: Option<&str>, b: Option<&str>) -> (r: bool)
    ensures
        r == ids_equal_spec(opt_str(a), opt_str(b)),
{
    let (a, b) = match (a, b) {
        (Some(a), Some(b)) => (a, b),
        _ => return false,
    };
    let ac = chars_of(a);
    let bc = chars_of(b);
    let a1 = trim_chars(ac.as_slice());
    let b1 = trim_chars(bc.as_slice());
    if a1.len() == 0 || b1.len() == 0 {
        return false;
    }
    if chars_eq(a1.as_slice(), b1.as_slice()) {
        return true;
    }
    let sa = segments_of(&a1);
    let sb = segments_of(&b1);
    let ghost ssa = id_segments(a1@);
    let ghost ssb = id_segments(b1@);
    if !(sa.len() > 1 || sb.len() > 1) {
        return false;
    }
    let mut i: usize = 0;
    while i < sa.len()
        invariant
            i <= sa@.len(),
            sa@.len() == ssa.len(),
            sb@.len() == ssb.len(),
            forall|k: int| 0 <= k < sa@.len() ==> #[trigger] sa@[k]@ == ssa[k],
            forall|k: int| 0 <= k < sb@.len() ==> #[trigger] sb@[k]@ == ssb[k],
            forall|p: int, q: int| 0 <= p < i && 0 <= q < ssb.len() ==> ssa[p] != ssb[q],
        decreases sa@.len() - i,
    {
        let mut j: usize = 0;
        while j < sb.len()
            invariant
                i < sa@.len(),
                j <= sb@.len(),
                sa@.len() == ssa.len(),
                sb@.len() == ssb.len(),
                forall|k: int| 0 <= k < sa@.len() ==> #[trigger] sa@[k]@ == ssa[k],
                forall|k: int| 0 <= k < sb@.len() ==> #[trigger] sb@[k]@ == ssb[k],
                forall|q: int| 0 <= q < j ==> ssa[i as int] != ssb[q],
            decreases sb@.len() - j,
        {
            if chars_eq(sa[i].as_slice(), sb[j].as_slice()) {
                assert(ssa[i as int] == ssb[j as int]);
                return true;
            }
            j += 1;
        }
        i += 1;
    }
    false
}


/// Id equality does not depend on the order of the two ids.
pub proof fn lemma_ids_equal_symmetric(a: Option<Seq<char>>, b: Option<Seq<char>>)
    ensures
        ids_equal_spec(a, b) == ids_equal_spec(b, a),
{
    match (a, b) {
        (Some(a0), Some(b0)) => {
            let sa = id_segments(trim_seq(a0));
            let sb = id_segments(trim_seq(b0));
            if exists|i: int, j: int| 0 <= i < sa.len() && 0 <= j < sb.len() && #[trigger] sa[i] == #[trigger] sb[j] {
                let (i, j) = choose|i: int, j: int| 0 <= i < sa.len() && 0 <= j < sb.len() && #[trigger] sa[i] == #[trigger] sb[j];
                assert(sb[j] == sa[i]);
            }
            if exists|j: int, i: int| 0 <= j < sb.len() && 0 <= i < sa.len() && #[trigger] sb[j] == #[trigger] sa[i] {
                let (j, i) = choose|j: int, i: int| 0 <= j < sb.len() && 0 <= i < sa.len() && #[trigger] sb[j] == #[trigger] sa[i];
                assert(sa[i] == sb[j]);
            }
        },
        _ => {},
    }
}

} // verus!
