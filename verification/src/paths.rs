//! Traversal paths: a concatenation of node-reference tokens delimited
//! by direction markers.  Decoding drops the markers (strand is not
//! kept), drops empty tokens, and reads each remaining token as a
//! positive node identifier.
use vstd::prelude::*;
use crate::fields::{split_by, split_markers, marker_set, is_marker};
use crate::num::{is_numeral, dec_value, dec_digits, is_digit, parse_u64, lemma_dec_digits_value};
use crate::GafError;

verus! {

/// The non-empty tokens of a path, in order.
pub open spec fn traversal_tokens(p: Seq<u8>) -> Seq<Seq<u8>> {
    split_by(p, marker_set()).filter(|t: Seq<u8>| t.len() > 0)
}

/// A token stands for a node: a numeral whose value is a positive
/// identifier that fits in a machine word.
pub open spec fn token_ok(t: Seq<u8>) -> bool {
    is_numeral(t) && 1 <= dec_value(t) <= usize::MAX as nat
}

/// Every token of the path is a well-formed node reference.
pub open spec fn path_decodable(p: Seq<u8>) -> bool {
    forall|k: int| 0 <= k < traversal_tokens(p).len() ==> token_ok(#[trigger] traversal_tokens(p)[k])
}

/// The node identifiers the path traverses, in order.
pub open spec fn decoded_path(p: Seq<u8>) -> Seq<nat> {
    traversal_tokens(p).map_values(|t: Seq<u8>| dec_value(t))
}

/// Decode a traversal path into its node identifiers.
///
/// Fails exactly when some non-empty token is not a decimal numeral,
/// is zero, or does not fit in a machine word.
pub fn decode_path(path: &Vec<u8>) -> (r: Result<Vec<usize>, GafError>)
    ensures
        match r {
            Ok(ids) => path_decodable(path@) && ids@.map_values(|x: usize| x as nat)
                == decoded_path(path@),
            Err(e) => e == GafError::InvalidNumber && !path_decodable(path@),
        },
{
    broadcast use vstd::seq_lib::group_seq_properties;

    let segments = split_markers(path);
    let ghost all = segments.deep_view();
    let ghost ne = |t: Seq<u8>| t.len() > 0;
    let mut ids: Vec<usize> = Vec::new();
    let mut k: usize = 0;
    proof {
        crate::fields::lemma_filter_empty(ne);
        assert(all.take(0) =~= Seq::<Seq<u8>>::empty());
    }
    assert(ids@.map_values(|x: usize| x as nat) =~= Seq::<nat>::empty());
    while k < segments.len()
        invariant
            0 <= k <= all.len(),
            all == segments.deep_view(),
            all == split_by(path@, marker_set()),
            ne == (|t: Seq<u8>| t.len() > 0),
            ids@.map_values(|x: usize| x as nat) == all.take(k as int).filter(ne).map_values(
                |t: Seq<u8>| dec_value(t),
            ),
            forall|j: int|
                0 <= j < all.take(k as int).filter(ne).len() ==> token_ok(
                    #[trigger] all.take(k as int).filter(ne)[j],
                ),
        decreases all.len() - k,
    {
        let seg = &segments[k];
        assert(seg@ == all[k as int]);
        k = k + 1;
        assert(all.take(k as int).drop_last() =~= all.take(k - 1));
        assert(all.take(k as int).last() == seg@);
        if seg.len() > 0 {
            let id: usize = match parse_u64(seg.as_slice()) {
                Some(v) => {
                    if v == 0 || v > usize::MAX as u64 {
                        proof {
                            lemma_token_bad(path@, all, k - 1);
                        }
                        return Err(GafError::InvalidNumber);
                    }
                    v as usize
                },
                None => {
                    proof {
                        lemma_token_bad(path@, all, k - 1);
                    }
                    return Err(GafError::InvalidNumber);
                },
            };
            let ghost prev = ids@;
            ids.push(id);
            proof {
                let f = |t: Seq<u8>| dec_value(t);
                let g = |x: usize| x as nat;
                assert(all.take(k as int) =~= all.take(k - 1).push(seg@));
                crate::fields::lemma_filter_push(all.take(k - 1), seg@, ne);
                assert(all.take(k as int).filter(ne) == all.take(k - 1).filter(ne).push(seg@));
                assert(ids@.map_values(g) =~= prev.map_values(g).push(id as nat));
                assert(all.take(k as int).filter(ne).map_values(f) =~= all.take(k - 1).filter(
                    ne,
                ).map_values(f).push(dec_value(seg@)));
            }
        } else {
            proof {
                assert(all.take(k as int) =~= all.take(k - 1).push(seg@));
                crate::fields::lemma_filter_push(all.take(k - 1), seg@, ne);
            }
        }
    }
    assert(all.take(k as int) =~= all);
    Ok(ids)
}

/// A segment that fails to parse as a node identifier refutes
/// decodability of the whole path.
proof fn lemma_token_bad(p: Seq<u8>, all: Seq<Seq<u8>>, k: int)
    requires
        all == split_by(p, marker_set()),
        0 <= k < all.len(),
        all[k].len() > 0,
        !token_ok(all[k]),
    ensures
        !path_decodable(p),
{
    let ne = |t: Seq<u8>| t.len() > 0;
    all.lemma_filter_contains(ne, k);
    let toks = traversal_tokens(p);
    assert(toks.contains(all[k]));
    let j = choose|j: int| 0 <= j < toks.len() && toks[j] == all[k];
    assert(!token_ok(toks[j]));
}

/// Render a sequence of node identifiers back into path syntax: each
/// identifier in decimal, each preceded by the same direction marker.
pub open spec fn join_with(ids: Seq<nat>, m: u8) -> Seq<u8>
    decreases ids.len(),
{
    if ids.len() == 0 {
        Seq::empty()
    } else {
        join_with(ids.drop_last(), m) + seq![m] + dec_digits(ids.last())
    }
}

/// Joining well-formed identifiers with any fixed direction marker
/// yields a path that decodes to exactly those identifiers.
pub proof fn lemma_join_decodes(ids: Seq<nat>, m: u8)
    requires
        is_marker(m),
        forall|i: int| 0 <= i < ids.len() ==> 1 <= #[trigger] ids[i] <= usize::MAX as nat,
    ensures
        path_decodable(join_with(ids, m)),
        decoded_path(join_with(ids, m)) == ids,
    decreases ids.len(),
{
    let ne = |t: Seq<u8>| t.len() > 0;
    let f = |t: Seq<u8>| dec_value(t);
    if ids.len() == 0 {
        let p = join_with(ids, m);
        assert(p =~= Seq::<u8>::empty());
        assert(split_by(p, marker_set()) == seq![Seq::<u8>::empty()]);
        assert(seq![Seq::<u8>::empty()] =~= Seq::<Seq<u8>>::empty().push(Seq::<u8>::empty()));
        crate::fields::lemma_filter_empty(ne);
        crate::fields::lemma_filter_push(Seq::<Seq<u8>>::empty(), Seq::<u8>::empty(), ne);
        assert(traversal_tokens(p) =~= Seq::<Seq<u8>>::empty());
        assert(decoded_path(p) =~= ids);
    } else {
        lemma_join_decodes(ids.drop_last(), m);
        let prev = join_with(ids.drop_last(), m);
        let d = dec_digits(ids.last());
        lemma_dec_digits_value(ids.last());
        assert forall|i: int| 0 <= i < d.len() implies !marker_set().contains(#[trigger] d[i]) by {
            assert(is_digit(d[i]));
        }
        crate::fields::lemma_split_by_append_segment(prev, m, d, marker_set());
        let p = join_with(ids, m);
        assert(p == prev + seq![m] + d);
        assert(split_by(p, marker_set()) == split_by(prev, marker_set()).push(d));
        crate::fields::lemma_filter_push(split_by(prev, marker_set()), d, ne);
        assert(ne(d));
        assert(traversal_tokens(p) == traversal_tokens(prev).push(d));
        assert(token_ok(d));
        assert forall|k: int| 0 <= k < traversal_tokens(p).len() implies token_ok(
            #[trigger] traversal_tokens(p)[k],
        ) by {
            if k < traversal_tokens(p).len() - 1 {
                assert(traversal_tokens(p)[k] == traversal_tokens(prev)[k]);
            }
        }
        assert(decoded_path(p) =~= decoded_path(prev).push(dec_value(d)));
        assert(ids.drop_last().push(ids.last()) =~= ids);
    }
}

/// Decoding a path, rendering the identifiers with one fixed marker,
/// and decoding again yields the same identifier sequence.
pub proof fn lemma_decode_join_roundtrip(p: Seq<u8>, m: u8)
    requires
        is_marker(m),
        path_decodable(p),
    ensures
        path_decodable(join_with(decoded_path(p), m)),
        decoded_path(join_with(decoded_path(p), m)) == decoded_path(p),
{
    let ids = decoded_path(p);
    assert forall|i: int| 0 <= i < ids.len() implies 1 <= #[trigger] ids[i] <= usize::MAX as nat by {
        assert(token_ok(traversal_tokens(p)[i]));
    }
    lemma_join_decodes(ids, m);
}

} // verus!
