//! Index discovery: the highest rotation index already in use, read from a
//! list of file stems.
//!
//! The list is an already-materialized enumeration of the numbered archive
//! files' stems (names without extension); listing the directory and
//! stripping extensions are the caller's business.  Discovery never fails on
//! a malformed or foreign stem: a stem without the expected marker is
//! skipped, and an infix whose digits do not parse counts as index `0`.

use vstd::prelude::*;

use crate::codec::parse_u32;
use crate::codec::parse_index;
use crate::naming::FileSpec;

verus! {

/// Whether the two-character marker `"_r"` stands at position `k` of `stem`.
pub open spec fn marker_at(stem: Seq<char>, k: int) -> bool {
    0 <= k && k + 2 <= stem.len() && stem[k] == '_' && stem[k + 1] == 'r'
}

/// The stem's trailing segment after the last occurrence of the marker
/// `"_r"`, or `None` when the marker does not occur.
pub open spec fn infix_after_marker(stem: Seq<char>) -> Option<Seq<char>>
    decreases stem.len(),
{
    if stem.len() < 2 {
        None
    } else if stem[stem.len() - 2] == '_' && stem[stem.len() - 1] == 'r' {
        Some(Seq::empty())
    } else {
        match infix_after_marker(stem.drop_last()) {
            Some(infix) => Some(infix.push(stem.last())),
            None => None,
        }
    }
}

/// Without any marker in `stem`, there is no infix after one.
proof fn lemma_no_marker(stem: Seq<char>)
    requires
        forall|k: int| !marker_at(stem, k),
    ensures
        infix_after_marker(stem) is None,
    decreases stem.len(),
{
    if stem.len() >= 2 {
        assert(!marker_at(stem, stem.len() - 2));
        let dl = stem.drop_last();
        assert forall|k: int| !marker_at(dl, k) by {
            if marker_at(dl, k) {
                assert(marker_at(stem, k));
            }
        }
        lemma_no_marker(dl);
    }
}

/// With its last marker at position `k`, the infix after the marker is the
/// stem from position `k + 2` on.
proof fn lemma_last_marker(stem: Seq<char>, k: int)
    requires
        marker_at(stem, k),
        forall|k2: int| k < k2 ==> !marker_at(stem, k2),
    ensures
        infix_after_marker(stem) == Some(stem.skip(k + 2)),
    decreases stem.len(),
{
    if k == stem.len() - 2 {
        assert(stem.skip(k + 2) =~= Seq::<char>::empty());
    } else {
        assert(!marker_at(stem, stem.len() - 2));
        let dl = stem.drop_last();
        assert(marker_at(dl, k));
        assert forall|k2: int| k < k2 implies !marker_at(dl, k2) by {
            if marker_at(dl, k2) {
                assert(marker_at(stem, k2));
            }
        }
        lemma_last_marker(dl, k);
        assert(dl.skip(k + 2).push(stem.last()) =~= stem.skip(k + 2));
    }
}

/// Finds the position of the last `"_r"` marker in `stem`, if any.
fn find_last_marker(stem: &str) -> (r: Option<usize>)
    ensures
        match r {
            Some(k) => marker_at(stem@, k as int) && (forall|k2: int|
                k < k2 ==> !marker_at(stem@, k2)),
            None => forall|k: int| !marker_at(stem@, k),
        },
{
    let n = stem.unicode_len();
    if n < 2 {
        return None;
    }
    let mut i: usize = n - 2;
    loop
        invariant
            n == stem@.len(),
            2 <= n,
            0 <= i <= n - 2,
            forall|k2: int| i < k2 ==> !marker_at(stem@, k2),
        decreases i,
    {
        if stem.get_char(i) == '_' && stem.get_char(i + 1) == 'r' {
            return Some(i);
        }
        proof {
            assert(!marker_at(stem@, i as int));
        }
        if i == 0 {
            return None;
        }
        i = i - 1;
    }
}

/// Where the infix lives in a candidate's stem.  Under a naming pattern with
/// a component before the infix (`marked`), it is the trailing segment after
/// the last `"_r"` marker, and a stem without the marker has none; otherwise
/// the stem is the infix marker character followed by the infix itself.
pub open spec fn candidate_infix(marked: bool, stem: Seq<char>) -> Option<Seq<char>> {
    if marked {
        infix_after_marker(stem)
    } else if stem.len() == 0 {
        Some(stem)
    } else {
        Some(stem.skip(1))
    }
}

/// The index a candidate stem contributes to discovery: `None` when the stem
/// is skipped for want of its marker, the parsed infix value when its digits
/// parse, and `0` otherwise.
pub open spec fn candidate_index(marked: bool, stem: Seq<char>) -> Option<u32> {
    match candidate_infix(marked, stem) {
        Option::None => Option::None,
        Option::Some(infix) => match parse_u32(infix) {
            Option::Some(v) => Option::Some(v),
            Option::None => Option::Some(0u32),
        },
    }
}

/// The highest index contributed by any stem of the list, or `None` when no
/// stem contributes one.
pub open spec fn highest_index_spec(marked: bool, stems: Seq<Seq<char>>) -> Option<u32>
    decreases stems.len(),
{
    if stems.len() == 0 {
        Option::None
    } else {
        let prev = highest_index_spec(marked, stems.drop_last());
        match candidate_index(marked, stems.last()) {
            Option::None => prev,
            Option::Some(v) => match prev {
                Option::None => Option::Some(v),
                Option::Some(p) => if v > p {
                    Option::Some(v)
                } else {
                    Option::Some(p)
                },
            },
        }
    }
}

/// Under the bare naming shape, a stem that is exactly the canonical infix
/// of `i` contributes `i` itself: discovery reads formatted indexes back.
pub proof fn lemma_bare_stem_reads_back(i: u32)
    ensures
        candidate_index(false, crate::codec::infix_chars(i)) == Some(i),
{
    crate::codec::lemma_parse_number_infix(i);
}

/// The index one candidate stem contributes, if any.
fn stem_index(marked: bool, stem: &str) -> (r: Option<u32>)
    ensures
        r == candidate_index(marked, stem@),
{
    let n = stem.unicode_len();
    let infix: Option<&str> = if marked {
        match find_last_marker(stem) {
            Some(k) => {
                proof {
                    lemma_last_marker(stem@, k as int);
                    assert(stem@.subrange(k + 2, n as int) =~= stem@.skip(k + 2));
                }
                Some(stem.substring_char(k + 2, n))
            },
            None => {
                proof {
                    lemma_no_marker(stem@);
                }
                None
            },
        }
    } else if n == 0 {
        Some(stem)
    } else {
        proof {
            assert(stem@.subrange(1, n as int) =~= stem@.skip(1));
        }
        Some(stem.substring_char(1, n))
    };
    match infix {
        Some(infix) => match parse_index(infix) {
            Some(v) => Some(v),
            None => Some(0),
        },
        None => None,
    }
}

/// Scans the candidate stems and returns the highest rotation index in use,
/// or `None` when the list is empty or no stem carries the expected marker.
/// A stem whose infix digits do not parse contributes index `0` rather than
/// stopping the scan.
pub fn get_highest_index(file_spec: &FileSpec, stems: &Vec<String>) -> (r: Option<u32>)
    ensures
        r == highest_index_spec(file_spec.uses_marker_spec(), stems.deep_view()),
{
    let marked = file_spec.uses_marker();
    let ghost dv = stems.deep_view();
    proof {
        assert(dv.len() == stems@.len());
    }
    let mut best: Option<u32> = None;
    let mut i: usize = 0;
    while i < stems.len()
        invariant
            0 <= i <= stems@.len(),
            marked == file_spec.uses_marker_spec(),
            dv == stems.deep_view(),
            dv.len() == stems@.len(),
            best == highest_index_spec(marked, dv.take(i as int)),
        decreases stems@.len() - i,
    {
        let r = stem_index(marked, stems[i].as_str());
        proof {
            assert(dv[i as int] == stems@[i as int]@);
            assert(dv.take(i + 1).drop_last() =~= dv.take(i as int));
            assert(dv.take(i + 1).last() == dv[i as int]);
        }
        match r {
            Some(v) => {
                best = match best {
                    None => Some(v),
                    Some(p) => if v > p {
                        Some(v)
                    } else {
                        Some(p)
                    },
                };
            },
            None => {},
        }
        i = i + 1;
    }
    proof {
        assert(dv.take(stems@.len() as int) =~= dv);
    }
    best
}

} // verus!
