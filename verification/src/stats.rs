//! Pre-pass statistics over the alignment file: the greatest traversed
//! node identifier, and the length of the N-th longest read inside the
//! configured length bounds.
use vstd::prelude::*;
use vstd::seq_lib::lemma_multiset_commutative;
use vstd::multiset::Multiset;
use vstd::seq_lib::lemma_sorted_unique;
use vstd::relations::{sorted_by, total_ordering};
use crate::fields::{split_by, split_tabs, tab_set};
use crate::num::{is_numeral, dec_value, parse_u64};
use crate::paths::{path_decodable, decoded_path, decode_path};
use crate::GafError;

verus! {

/// The tab-delimited fields of an alignment line.
pub open spec fn gaf_fields(line: Seq<u8>) -> Seq<Seq<u8>> {
    split_by(line, tab_set())
}

/// The raw traversal-path field of an alignment line.
pub open spec fn path_of_line(line: Seq<u8>) -> Seq<u8> {
    gaf_fields(line)[5]
}

/// The line carries a readable query length: at least two fields, the
/// second a numeral fitting a 64-bit word.
pub open spec fn line_length_ok(line: Seq<u8>) -> bool {
    &&& gaf_fields(line).len() >= 2
    &&& is_numeral(gaf_fields(line)[1])
    &&& dec_value(gaf_fields(line)[1]) <= u64::MAX as nat
}

/// The query length the line declares.
pub open spec fn line_length(line: Seq<u8>) -> nat {
    dec_value(gaf_fields(line)[1])
}

/// Every line of the file carries a readable query length.
pub open spec fn lengths_ok(lines: Seq<Seq<u8>>) -> bool {
    forall|i: int| 0 <= i < lines.len() ==> line_length_ok(#[trigger] lines[i])
}

/// The query lengths that fall inside the closed bounds, in file order.
pub open spec fn qualifying(lines: Seq<Seq<u8>>, min_length: u64, max_length: u64) -> Seq<u64>
    decreases lines.len(),
{
    if lines.len() == 0 {
        Seq::empty()
    } else {
        let rest = qualifying(lines.drop_last(), min_length, max_length);
        if min_length as nat <= line_length(lines.last()) <= max_length as nat {
            rest.push(line_length(lines.last()) as u64)
        } else {
            rest
        }
    }
}

/// How many entries of `s` satisfy `pred`.
pub open spec fn count_if(s: Seq<u64>, pred: spec_fn(u64) -> bool) -> nat
    decreases s.len(),
{
    if s.len() == 0 {
        0
    } else {
        count_if(s.drop_last(), pred) + if pred(s.last()) {
            1nat
        } else {
            0nat
        }
    }
}

/// How many entries of `s` are at least `x`.
pub open spec fn count_ge(s: Seq<u64>, x: u64) -> nat {
    count_if(s, |v: u64| v >= x)
}

/// How many entries of `s` exceed `x`.
pub open spec fn count_gt(s: Seq<u64>, x: u64) -> nat {
    count_if(s, |v: u64| v > x)
}

/// Counting distributes over concatenation.
pub proof fn lemma_count_if_add(a: Seq<u64>, b: Seq<u64>, pred: spec_fn(u64) -> bool)
    ensures
        count_if(a + b, pred) == count_if(a, pred) + count_if(b, pred),
    decreases b.len(),
{
    if b.len() == 0 {
        assert(a + b =~= a);
    } else {
        lemma_count_if_add(a, b.drop_last(), pred);
        assert((a + b).drop_last() =~= a + b.drop_last());
        assert((a + b).last() == b.last());
    }
}

/// A count never exceeds the length, equals the length when every
/// entry satisfies the predicate, and is zero when none does.
pub proof fn lemma_count_if_bounds(s: Seq<u64>, pred: spec_fn(u64) -> bool)
    ensures
        count_if(s, pred) <= s.len(),
        (forall|i: int| 0 <= i < s.len() ==> pred(#[trigger] s[i])) ==> count_if(s, pred) == s.len(),
        (forall|i: int| 0 <= i < s.len() ==> !pred(#[trigger] s[i])) ==> count_if(s, pred) == 0,
    decreases s.len(),
{
    if s.len() > 0 {
        lemma_count_if_bounds(s.drop_last(), pred);
    }
}

/// Sequences with the same multiset of entries have the same counts.
pub proof fn lemma_count_if_permutation(s1: Seq<u64>, s2: Seq<u64>, pred: spec_fn(u64) -> bool)
    requires
        s1.to_multiset() == s2.to_multiset(),
    ensures
        count_if(s1, pred) == count_if(s2, pred),
    decreases s1.len(),
{
    broadcast use vstd::seq_lib::group_to_multiset_ensures;

    if s1.len() == 0 {
        assert(s1.to_multiset().len() == s1.len());
        assert(s2.to_multiset().len() == s2.len());
        assert(s2.len() == 0);
    } else {
        let e = s1.last();
        assert(s1.contains(e));
        assert(s2.to_multiset().count(e) > 0);
        assert(s2.contains(e));
        let j = choose|j: int| 0 <= j < s2.len() && s2[j] == e;
        assert(s1.drop_last() =~= s1.remove(s1.len() - 1));
        assert(s1.drop_last().to_multiset() == s1.to_multiset().remove(e));
        assert(s2.remove(j).to_multiset() == s2.to_multiset().remove(e));
        lemma_count_if_permutation(s1.drop_last(), s2.remove(j), pred);
        assert(s2 =~= s2.take(j) + (seq![e] + s2.skip(j + 1)));
        assert(s2.remove(j) =~= s2.take(j) + s2.skip(j + 1));
        lemma_count_if_add(s2.take(j), seq![e] + s2.skip(j + 1), pred);
        lemma_count_if_add(seq![e], s2.skip(j + 1), pred);
        lemma_count_if_add(s2.take(j), s2.skip(j + 1), pred);
        assert(seq![e].drop_last() =~= Seq::<u64>::empty());
        assert(count_if(Seq::<u64>::empty(), pred) == 0);
        assert(count_if(seq![e], pred) == if pred(e) {
            1nat
        } else {
            0nat
        });
    }
}

/// Descending order: no entry is exceeded by a later one.
pub open spec fn sorted_desc(s: Seq<u64>) -> bool {
    forall|i: int, j: int| 0 <= i < j < s.len() ==> #[trigger] s[i] >= #[trigger] s[j]
}

/// The at-least ordering on lengths, under which sorting is descending.
pub open spec fn ge_order() -> spec_fn(u64, u64) -> bool {
    |a: u64, b: u64| a >= b
}

/// The qualifying lengths in descending order.
pub open spec fn sorted_of(q: Seq<u64>) -> Seq<u64> {
    q.sort_by(ge_order())
}

/// How many records the longest-read cutoff asks for, clipped to what
/// is there.
pub open spec fn length_cutoff(q: Seq<u64>, keep_n_longest: nat) -> nat {
    if keep_n_longest > q.len() {
        q.len()
    } else {
        keep_n_longest
    }
}

/// The length of the N-th longest qualifying read: the additional
/// lower bound the length filter applies.
pub open spec fn length_threshold(q: Seq<u64>, keep_n_longest: nat) -> u64 {
    sorted_of(q)[length_cutoff(q, keep_n_longest) - 1]
}

/// The at-least ordering is total.
proof fn lemma_ge_order_total()
    ensures
        total_ordering(ge_order()),
{
}

/// Sort a vector of lengths in descending order.
pub fn sort_desc(v: &Vec<u64>) -> (out: Vec<u64>)
    ensures
        out@ == sorted_of(v@),
        sorted_desc(out@),
        out@.to_multiset() == v@.to_multiset(),
        out@.len() == v@.len(),
{
    broadcast use vstd::seq_lib::group_to_multiset_ensures;

    let mut out: Vec<u64> = Vec::new();
    let mut i: usize = 0;
    assert(v@.take(0) =~= Seq::<u64>::empty());
    assert(out@.to_multiset() =~= v@.take(0).to_multiset());
    while i < v.len()
        invariant
            0 <= i <= v@.len(),
            out@.len() == i,
            sorted_desc(out@),
            out@.to_multiset() == v@.take(i as int).to_multiset(),
        decreases v@.len() - i,
    {
        let x = v[i];
        let mut p: usize = 0;
        while p < out.len() && out[p] >= x
            invariant
                0 <= p <= out@.len(),
                forall|q: int| 0 <= q < p ==> #[trigger] out@[q] >= x,
                sorted_desc(out@),
            decreases out@.len() - p,
        {
            p = p + 1;
        }
        let ghost prev = out@;
        out.insert(p, x);
        proof {
            broadcast use vstd::seq_lib::group_to_multiset_ensures;
            broadcast use vstd::multiset::group_multiset_axioms;

            assert(out@ =~= prev.take(p as int) + (seq![x] + prev.skip(p as int)));
            assert forall|a: int, b: int| 0 <= a < b < out@.len() implies #[trigger] out@[a]
                >= #[trigger] out@[b] by {
                if p < prev.len() {
                    assert(prev[p as int] < x);
                }
            }
            lemma_multiset_commutative(prev.take(p as int), seq![x] + prev.skip(p as int));
            lemma_multiset_commutative(seq![x], prev.skip(p as int));
            lemma_multiset_commutative(prev.take(p as int), prev.skip(p as int));
            assert(prev.take(p as int) + prev.skip(p as int) =~= prev);
            assert(seq![x] =~= Seq::<u64>::empty().push(x));
            assert(Seq::<u64>::empty().push(x).to_multiset() =~= Seq::<u64>::empty().to_multiset().insert(x));
            assert(Seq::<u64>::empty().to_multiset() =~= Multiset::<u64>::empty());
            assert(seq![x].to_multiset() =~= Multiset::<u64>::empty().insert(x));
            assert(out@.to_multiset() =~= prev.to_multiset().insert(x));
            assert(v@.take(i + 1).drop_last() =~= v@.take(i as int));
            assert(v@.take(i + 1) =~= v@.take(i as int).push(x));
            assert(v@.take(i as int).push(x).to_multiset() =~= v@.take(i as int).to_multiset().insert(x));
            assert(v@.take(i + 1).to_multiset() =~= v@.take(i as int).to_multiset().insert(x));
        }
        i = i + 1;
    }
    assert(v@.take(i as int) =~= v@);
    proof {
        lemma_ge_order_total();
        v@.lemma_sort_by_ensures(ge_order());
        assert(sorted_by(out@, ge_order()));
        lemma_sorted_unique(out@, sorted_of(v@), ge_order());
    }
    out
}

/// The threshold is a qualifying length; at least the cutoff's worth
/// of qualifying reads reach it, and fewer than the cutoff exceed it.
pub proof fn lemma_threshold_bounds(q: Seq<u64>, keep_n_longest: nat)
    requires
        keep_n_longest >= 1,
        q.len() >= 1,
    ensures
        count_ge(q, length_threshold(q, keep_n_longest)) >= length_cutoff(q, keep_n_longest),
        count_gt(q, length_threshold(q, keep_n_longest)) < length_cutoff(q, keep_n_longest),
        q.to_multiset().contains(length_threshold(q, keep_n_longest)),
{
    broadcast use vstd::seq_lib::group_to_multiset_ensures;

    let s = sorted_of(q);
    let c = length_cutoff(q, keep_n_longest) as int;
    let t = length_threshold(q, keep_n_longest);
    lemma_ge_order_total();
    q.lemma_sort_by_ensures(ge_order());
    assert(s.to_multiset().len() == q.to_multiset().len());
    assert(s.to_multiset().len() == s.len());
    assert(q.to_multiset().len() == q.len());
    assert(s.len() == q.len());
    assert(1 <= c <= s.len());
    assert(t == s[c - 1]);
    let ge = |v: u64| v >= t;
    let gt = |v: u64| v > t;
    lemma_count_if_permutation(q, s, ge);
    lemma_count_if_permutation(q, s, gt);
    assert(s =~= s.take(c) + s.skip(c));
    lemma_count_if_add(s.take(c), s.skip(c), ge);
    assert forall|i: int| 0 <= i < s.take(c).len() implies ge(#[trigger] s.take(c)[i]) by {
        assert(ge_order()(s[i], s[c - 1]));
    }
    lemma_count_if_bounds(s.take(c), ge);
    assert(count_if(s, ge) >= c);
    assert(s =~= s.take(c - 1) + s.skip(c - 1));
    lemma_count_if_add(s.take(c - 1), s.skip(c - 1), gt);
    assert forall|i: int| 0 <= i < s.skip(c - 1).len() implies !gt(#[trigger] s.skip(c - 1)[i]) by {
        assert(s.skip(c - 1)[i] == s[c - 1 + i]);
        if i > 0 {
            assert(ge_order()(s[c - 1], s[c - 1 + i]));
        }
    }
    lemma_count_if_bounds(s.skip(c - 1), gt);
    lemma_count_if_bounds(s.take(c - 1), gt);
    assert(count_if(s, gt) < c);
    assert(s.contains(s[c - 1]));
    assert(s.to_multiset().count(t) > 0);
}

/// The length of the N-th longest read whose query length lies within
/// the closed bounds, reading lengths from the second field of every
/// line.  Ties at the threshold are all retained by the caller, so the
/// result is a closed lower bound, not an exact rank cut.
///
/// Fails exactly when some line lacks a readable length, or when no
/// read qualifies.
pub fn gaf_nth_longest_read(
    lines: &Vec<Vec<u8>>,
    keep_n_longest: usize,
    min_length: u64,
    max_length: u64,
) -> (r: Result<u64, GafError>)
    requires
        keep_n_longest >= 1,
    ensures
        match r {
            Ok(t) => {
                let q = qualifying(lines.deep_view(), min_length, max_length);
                &&& lengths_ok(lines.deep_view())
                &&& q.len() > 0
                &&& t == length_threshold(q, keep_n_longest as nat)
                &&& count_ge(q, t) >= length_cutoff(q, keep_n_longest as nat)
                &&& count_gt(q, t) < length_cutoff(q, keep_n_longest as nat)
                &&& q.to_multiset().contains(t)
            },
            Err(e) => {
                let q = qualifying(lines.deep_view(), min_length, max_length);
                ||| (e == GafError::NoQualifyingReads && lengths_ok(lines.deep_view()) && q.len()
                    == 0)
                ||| ((e == GafError::MissingField || e == GafError::InvalidNumber) && !lengths_ok(
                    lines.deep_view(),
                ))
            },
        },
{
    let ghost dv = lines.deep_view();
    let mut q: Vec<u64> = Vec::new();
    let mut i: usize = 0;
    assert(dv.take(0) =~= Seq::<Seq<u8>>::empty());
    assert(q@ =~= qualifying(dv.take(0), min_length, max_length));
    while i < lines.len()
        invariant
            0 <= i <= lines@.len(),
            dv == lines.deep_view(),
            lengths_ok(dv.take(i as int)),
            q@ == qualifying(dv.take(i as int), min_length, max_length),
        decreases lines@.len() - i,
    {
        let line = &lines[i];
        proof {
            assert(line@ =~= dv[i as int]);
        }
        i = i + 1;
        assert(dv.take(i as int).drop_last() =~= dv.take(i - 1));
        assert(dv.take(i as int).last() == line@);
        let fields = split_tabs(line);
        if fields.len() < 2 {
            assert(!line_length_ok(dv[i - 1]));
            return Err(GafError::MissingField);
        }
        let f1 = &fields[1];
        assert(f1@ =~= gaf_fields(line@)[1]);
        match parse_u64(f1.as_slice()) {
            Some(length) => {
                assert(line_length_ok(line@));
                assert(length as nat == line_length(line@));
                if length >= min_length && length <= max_length {
                    q.push(length);
                }
            },
            None => {
                assert(!line_length_ok(dv[i - 1]));
                return Err(GafError::InvalidNumber);
            },
        }
    }
    assert(dv.take(i as int) =~= dv);
    if q.len() == 0 {
        return Err(GafError::NoQualifyingReads);
    }
    let sorted = sort_desc(&q);
    let cutoff: usize = if keep_n_longest > sorted.len() {
        sorted.len()
    } else {
        keep_n_longest
    };
    let t = sorted[cutoff - 1];
    proof {
        lemma_threshold_bounds(q@, keep_n_longest as nat);
    }
    Ok(t)
}

/// The greater of two identifiers.
pub open spec fn nat_max(a: nat, b: nat) -> nat {
    if a >= b {
        a
    } else {
        b
    }
}

/// The greatest entry of a sequence of identifiers; 0 if none.
pub open spec fn seq_max(s: Seq<nat>) -> nat
    decreases s.len(),
{
    if s.len() == 0 {
        0
    } else {
        nat_max(seq_max(s.drop_last()), s.last())
    }
}

/// The line has a traversal-path field and it decodes.
pub open spec fn line_path_ok(line: Seq<u8>) -> bool {
    &&& gaf_fields(line).len() >= 6
    &&& path_decodable(path_of_line(line))
}

/// Every line's traversal path decodes.
pub open spec fn paths_ok(lines: Seq<Seq<u8>>) -> bool {
    forall|i: int| 0 <= i < lines.len() ==> line_path_ok(#[trigger] lines[i])
}

/// The greatest node identifier traversed anywhere in the file.
pub open spec fn gaf_max_node_id(lines: Seq<Seq<u8>>) -> nat
    decreases lines.len(),
{
    if lines.len() == 0 {
        0
    } else {
        nat_max(
            gaf_max_node_id(lines.drop_last()),
            seq_max(decoded_path(path_of_line(lines.last()))),
        )
    }
}

/// Scan every line's traversal path for the greatest node identifier,
/// to size the matrix when no graph supplies it.
///
/// Fails exactly when some line lacks the path field or its path does
/// not decode.
pub fn gaf_max_id(lines: &Vec<Vec<u8>>) -> (r: Result<usize, GafError>)
    ensures
        match r {
            Ok(m) => paths_ok(lines.deep_view()) && m as nat == gaf_max_node_id(lines.deep_view()),
            Err(e) => !paths_ok(lines.deep_view()) && (e == GafError::MissingField || e
                == GafError::InvalidNumber),
        },
{
    let ghost dv = lines.deep_view();
    let mut max_id: usize = 0;
    let mut i: usize = 0;
    assert(dv.take(0) =~= Seq::<Seq<u8>>::empty());
    while i < lines.len()
        invariant
            0 <= i <= lines@.len(),
            dv == lines.deep_view(),
            paths_ok(dv.take(i as int)),
            max_id as nat == gaf_max_node_id(dv.take(i as int)),
        decreases lines@.len() - i,
    {
        let line = &lines[i];
        proof {
            assert(line@ =~= dv[i as int]);
        }
        i = i + 1;
        assert(dv.take(i as int).drop_last() =~= dv.take(i - 1));
        assert(dv.take(i as int).last() == line@);
        let fields = split_tabs(line);
        if fields.len() < 6 {
            assert(!line_path_ok(dv[i - 1]));
            return Err(GafError::MissingField);
        }
        let path = &fields[5];
        assert(path@ =~= path_of_line(line@));
        match decode_path(path) {
            Ok(ids) => {
                assert(line_path_ok(line@));
                let ghost decoded = decoded_path(path_of_line(line@));
                let mut j: usize = 0;
                assert(decoded.take(0) =~= Seq::<nat>::empty());
                while j < ids.len()
                    invariant
                        0 <= j <= ids@.len(),
                        ids@.map_values(|x: usize| x as nat) == decoded,
                        max_id as nat == nat_max(
                            gaf_max_node_id(dv.take(i as int).drop_last()),
                            seq_max(decoded.take(j as int)),
                        ),
                    decreases ids@.len() - j,
                {
                    let id = ids[j];
                    assert(id as nat == decoded[j as int]);
                    j = j + 1;
                    assert(decoded.take(j as int).drop_last() =~= decoded.take(j - 1));
                    assert(decoded.take(j as int).last() == id as nat);
                    if id > max_id {
                        max_id = id;
                    }
                }
                assert(decoded.take(j as int) =~= decoded);
            },
            Err(_) => {
                assert(!line_path_ok(dv[i - 1]));
                return Err(GafError::InvalidNumber);
            },
        }
    }
    assert(dv.take(i as int) =~= dv);
    Ok(max_id)
}

} // verus!
