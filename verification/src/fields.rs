//! Splitting byte strings on separator bytes, as the tab-delimited
//! record formats and the traversal-path syntax both require.
use vstd::prelude::*;

verus! {

/// The field separator of the record formats.
pub open spec fn tab() -> u8 {
    '\t' as u8
}

/// Separator set holding only the tab byte.
pub open spec fn tab_set() -> Set<u8> {
    set![tab()]
}

/// Split `s` wherever a byte of `seps` occurs; the separators are
/// removed and empty segments are kept.  A string without separators
/// is one segment; the result is never empty.
pub open spec fn split_by(s: Seq<u8>, seps: Set<u8>) -> Seq<Seq<u8>>
    decreases s.len(),
{
    if s.len() == 0 {
        seq![Seq::<u8>::empty()]
    } else if seps.contains(s.last()) {
        split_by(s.drop_last(), seps).push(Seq::<u8>::empty())
    } else {
        let r = split_by(s.drop_last(), seps);
        r.update(r.len() - 1, r.last().push(s.last()))
    }
}

/// A split always yields at least one segment.
pub proof fn lemma_split_by_len(s: Seq<u8>, seps: Set<u8>)
    ensures
        split_by(s, seps).len() >= 1,
    decreases s.len(),
{
    if s.len() > 0 {
        lemma_split_by_len(s.drop_last(), seps);
    }
}

/// No segment of a split contains a separator byte.
pub proof fn lemma_split_by_segments_clean(s: Seq<u8>, seps: Set<u8>)
    ensures
        forall|k: int, i: int|
            0 <= k < split_by(s, seps).len() && 0 <= i < split_by(s, seps)[k].len()
                ==> !seps.contains(#[trigger] split_by(s, seps)[k][i]),
    decreases s.len(),
{
    if s.len() > 0 {
        lemma_split_by_segments_clean(s.drop_last(), seps);
        lemma_split_by_len(s.drop_last(), seps);
    }
}

/// Appending one separator and then a separator-free segment appends
/// exactly that segment to the split.
pub proof fn lemma_split_by_append_segment(s: Seq<u8>, m: u8, d: Seq<u8>, seps: Set<u8>)
    requires
        seps.contains(m),
        forall|i: int| 0 <= i < d.len() ==> !seps.contains(#[trigger] d[i]),
    ensures
        split_by(s + seq![m] + d, seps) == split_by(s, seps).push(d),
    decreases d.len(),
{
    if d.len() == 0 {
        let w = s + seq![m] + d;
        assert(w =~= s + seq![m]);
        assert(w.drop_last() =~= s);
        assert(d =~= Seq::<u8>::empty());
        assert(split_by(w, seps) == split_by(s, seps).push(Seq::<u8>::empty()));
    } else {
        lemma_split_by_append_segment(s, m, d.drop_last(), seps);
        let w0 = s + seq![m] + d.drop_last();
        let w = s + seq![m] + d;
        assert(w.last() == d.last());
        assert(w.drop_last() =~= w0);
        lemma_split_by_len(w0, seps);
        let r = split_by(w0, seps);
        assert(r == split_by(s, seps).push(d.drop_last()));
        assert(r.last() == d.drop_last());
        assert(split_by(w, seps) == r.update(r.len() - 1, d.drop_last().push(d.last())));
        assert(d.drop_last().push(d.last()) =~= d);
        assert(r.update(r.len() - 1, d) =~= split_by(s, seps).push(d));
    }
}

/// A string free of separators is one single segment.
pub proof fn lemma_split_by_no_seps(s: Seq<u8>, seps: Set<u8>)
    requires
        forall|i: int| 0 <= i < s.len() ==> !seps.contains(#[trigger] s[i]),
    ensures
        split_by(s, seps) == seq![s],
    decreases s.len(),
{
    if s.len() == 0 {
        assert(seq![Seq::<u8>::empty()] =~~= seq![s]);
    } else {
        lemma_split_by_no_seps(s.drop_last(), seps);
        let r = split_by(s.drop_last(), seps);
        assert(r == seq![s.drop_last()]);
        assert(r.update(r.len() - 1, r.last().push(s.last())) =~~= seq![s.drop_last().push(
            s.last(),
        )]);
        assert(s.drop_last().push(s.last()) =~= s);
    }
}

/// Filtering an empty sequence yields an empty sequence.
pub proof fn lemma_filter_empty<A>(pred: spec_fn(A) -> bool)
    ensures
        Seq::<A>::empty().filter(pred) == Seq::<A>::empty(),
{
    reveal(Seq::filter);
}

/// One step of filtering: pushing an element keeps it exactly when it
/// satisfies the predicate.
pub proof fn lemma_filter_push<A>(s: Seq<A>, x: A, pred: spec_fn(A) -> bool)
    ensures
        s.push(x).filter(pred) == if pred(x) {
            s.filter(pred).push(x)
        } else {
            s.filter(pred)
        },
{
    reveal(Seq::filter);
    assert(s.push(x).drop_last() =~= s);
    assert(s.push(x).last() == x);
}

/// Split a line on tab bytes into its fields.
pub fn split_tabs(line: &Vec<u8>) -> (fields: Vec<Vec<u8>>)
    ensures
        fields.deep_view() == split_by(line@, tab_set()),
        fields.len() >= 1,
{
    split_on_seps(line, true)
}

/// The direction markers of a traversal path.
pub open spec fn marker_set() -> Set<u8> {
    set!['<' as u8, '>' as u8]
}

/// `b` is a direction marker.
pub open spec fn is_marker(b: u8) -> bool {
    marker_set().contains(b)
}

/// Split a traversal path on the direction markers.
pub fn split_markers(path: &Vec<u8>) -> (segments: Vec<Vec<u8>>)
    ensures
        segments.deep_view() == split_by(path@, marker_set()),
        segments.len() >= 1,
{
    split_on_seps(path, false)
}

/// Which separator set an exec split uses: tabs, or the markers.
spec fn seps_of(tabs: bool) -> Set<u8> {
    if tabs {
        tab_set()
    } else {
        marker_set()
    }
}

/// Shared splitting loop for both separator sets.
fn split_on_seps(line: &Vec<u8>, tabs: bool) -> (fields: Vec<Vec<u8>>)
    ensures
        fields.deep_view() == split_by(line@, seps_of(tabs)),
        fields.len() >= 1,
{
    let ghost seps = seps_of(tabs);
    let mut fields: Vec<Vec<u8>> = Vec::new();
    let mut cur: Vec<u8> = Vec::new();
    let mut i: usize = 0;
    assert(split_by(line@.take(0), seps) =~= seq![Seq::<u8>::empty()]);
    assert(fields.deep_view().push(cur@) =~~= seq![Seq::<u8>::empty()]);
    while i < line.len()
        invariant
            0 <= i <= line@.len(),
            seps == seps_of(tabs),
            split_by(line@.take(i as int), seps) == fields.deep_view().push(cur@),
        decreases line@.len() - i,
    {
        let b = line[i];
        let is_sep = if tabs {
            b == '\t' as u8
        } else {
            b == '<' as u8 || b == '>' as u8
        };
        assert(is_sep == seps.contains(b));
        i = i + 1;
        assert(line@.take(i as int).drop_last() =~= line@.take(i - 1));
        assert(line@.take(i as int).last() == b);
        if is_sep {
            let done = cur;
            cur = Vec::new();
            let ghost old_fields = fields.deep_view();
            fields.push(done);
            assert(fields.deep_view() =~~= old_fields.push(done@));
            assert(split_by(line@.take(i as int), seps) =~~= fields.deep_view().push(cur@));
        } else {
            let ghost r = fields.deep_view().push(cur@);
            cur.push(b);
            assert(split_by(line@.take(i as int), seps) == r.update(r.len() - 1, r.last().push(b)));
            assert(r.update(r.len() - 1, r.last().push(b)) =~~= fields.deep_view().push(cur@));
        }
    }
    assert(line@.take(i as int) =~= line@);
    let ghost old_fields = fields.deep_view();
    fields.push(cur);
    assert(fields.deep_view() =~~= old_fields.push(cur@));
    fields
}

} // verus!
