//! The graph index: node identifier to segment length, built from the
//! segment lines of a graph-description file.
use vstd::prelude::*;
use crate::fields::{split_by, split_tabs, tab_set};
use crate::num::{is_numeral, dec_value, parse_u64};
use crate::GafError;

verus! {

/// The tab-delimited fields of a graph-file line.
pub open spec fn gfa_fields(line: Seq<u8>) -> Seq<Seq<u8>> {
    split_by(line, tab_set())
}

/// The line declares a segment: its first field is the literal `S`.
pub open spec fn is_seg_line(line: Seq<u8>) -> bool {
    gfa_fields(line)[0] == seq!['S' as u8]
}

/// A segment line is well formed: at least three fields, the second a
/// numeral naming a positive node identifier that fits a machine word.
pub open spec fn seg_line_ok(line: Seq<u8>) -> bool {
    &&& gfa_fields(line).len() >= 3
    &&& is_numeral(gfa_fields(line)[1])
    &&& 1 <= dec_value(gfa_fields(line)[1]) <= usize::MAX as nat
}

/// The node identifier a segment line declares.
pub open spec fn seg_id(line: Seq<u8>) -> nat {
    dec_value(gfa_fields(line)[1])
}

/// The length of the sequence a segment line carries.
pub open spec fn seg_len(line: Seq<u8>) -> nat {
    gfa_fields(line)[2].len()
}

/// Every segment line of the file is well formed.
pub open spec fn gfa_ok(lines: Seq<Seq<u8>>) -> bool {
    forall|i: int|
        0 <= i < lines.len() && is_seg_line(#[trigger] lines[i]) ==> seg_line_ok(lines[i])
}

/// The greatest node identifier any segment line declares; 0 if none.
pub open spec fn gfa_max_id(lines: Seq<Seq<u8>>) -> nat
    decreases lines.len(),
{
    if lines.len() == 0 {
        0
    } else {
        let rest = gfa_max_id(lines.drop_last());
        if is_seg_line(lines.last()) && seg_id(lines.last()) > rest {
            seg_id(lines.last())
        } else {
            rest
        }
    }
}

/// The length recorded for node `id`: that of the last segment line
/// declaring `id`, or 0 if no line declares it.
pub open spec fn gfa_node_length(lines: Seq<Seq<u8>>, id: nat) -> nat
    decreases lines.len(),
{
    if lines.len() == 0 {
        0
    } else if is_seg_line(lines.last()) && seg_id(lines.last()) == id {
        seg_len(lines.last())
    } else {
        gfa_node_length(lines.drop_last(), id)
    }
}

/// A dense node-length index over identifiers `1..=max_id`.
pub struct GfaGraph {
    /// Length of node `id` at position `id - 1`.
    pub node_length: Vec<usize>,
    /// The greatest node identifier the index covers.
    pub max_id: usize,
}

impl GfaGraph {
    /// The index is dense: one slot for each identifier up to the maximum.
    pub open spec fn wf(&self) -> bool {
        self.node_length@.len() == self.max_id
    }

    /// The index matches the segment lines it was built from.
    pub open spec fn matches(&self, lines: Seq<Seq<u8>>) -> bool {
        &&& self.max_id as nat == gfa_max_id(lines)
        &&& forall|i: int|
            0 <= i < self.max_id ==> self.node_length@[i] as nat == gfa_node_length(
                lines,
                (i + 1) as nat,
            )
    }

    /// An empty index: no graph was given.
    pub fn new() -> (g: Self)
        ensures
            g.wf(),
            g.max_id == 0,
            g.node_length@.len() == 0,
    {
        GfaGraph { node_length: Vec::new(), max_id: 0 }
    }

    /// Build the index from the lines of a graph file, in two passes:
    /// first the maximum declared identifier, then one length slot per
    /// identifier, the last declaration of an identifier winning.
    ///
    /// Fails exactly when some segment line is malformed.
    pub fn from_gfa(lines: &Vec<Vec<u8>>) -> (r: Result<GfaGraph, GafError>)
        ensures
            match r {
                Ok(g) => gfa_ok(lines.deep_view()) && g.wf() && g.matches(lines.deep_view()),
                Err(e) => !gfa_ok(lines.deep_view()) && (e == GafError::MissingField || e
                    == GafError::InvalidNumber),
            },
    {
        let ghost dv = lines.deep_view();
        let mut max_id: usize = 0;
        let mut i: usize = 0;
        assert(dv.take(0) =~= Seq::<Seq<u8>>::empty());
        while i < lines.len()
            invariant
                0 <= i <= lines@.len(),
                dv == lines.deep_view(),
                max_id as nat == gfa_max_id(dv.take(i as int)),
                gfa_ok(dv.take(i as int)),
            decreases lines@.len() - i,
        {
            let line = &lines[i];
            proof {
                assert(line@ =~= dv[i as int]);
            }
            i = i + 1;
            assert(dv.take(i as int).drop_last() =~= dv.take(i - 1));
            assert(dv.take(i as int).last() == line@);
            let fields = split_tabs(line);
            let f0 = &fields[0];
            assert(f0@ =~= gfa_fields(line@)[0]);
            if f0.len() == 1 && f0[0] == 'S' as u8 {
                assert(f0@ =~= seq!['S' as u8]);
                assert(is_seg_line(line@));
                if fields.len() < 3 {
                    proof {
                        lemma_bad_seg_line(dv, i - 1);
                    }
                    return Err(GafError::MissingField);
                }
                let f1 = &fields[1];
                assert(f1@ =~= gfa_fields(line@)[1]);
                match parse_u64(f1.as_slice()) {
                    Some(v) => {
                        if v == 0 || v > usize::MAX as u64 {
                            proof {
                                lemma_bad_seg_line(dv, i - 1);
                            }
                            return Err(GafError::InvalidNumber);
                        }
                        let id = v as usize;
                        assert(seg_line_ok(line@));
                        if id > max_id {
                            max_id = id;
                        }
                    },
                    None => {
                        proof {
                            lemma_bad_seg_line(dv, i - 1);
                        }
                        return Err(GafError::InvalidNumber);
                    },
                }
            } else {
                assert(f0@ != seq!['S' as u8]);
                assert(!is_seg_line(line@));
            }
        }
        assert(dv.take(i as int) =~= dv);
        let ghost m = max_id as nat;
        let mut node_length: Vec<usize> = Vec::new();
        let mut j: usize = 0;
        while j < max_id
            invariant
                0 <= j <= max_id,
                node_length@.len() == j,
                forall|x: int| 0 <= x < j ==> node_length@[x] == 0,
            decreases max_id - j,
        {
            node_length.push(0);
            j = j + 1;
        }
        let mut k: usize = 0;
        assert(dv.take(0) =~= Seq::<Seq<u8>>::empty());
        while k < lines.len()
            invariant
                0 <= k <= lines@.len(),
                dv == lines.deep_view(),
                gfa_ok(dv),
                m == gfa_max_id(dv),
                max_id as nat == m,
                node_length@.len() == max_id,
                forall|x: int|
                    0 <= x < max_id ==> node_length@[x] as nat == gfa_node_length(
                        dv.take(k as int),
                        (x + 1) as nat,
                    ),
            decreases lines@.len() - k,
        {
            let line = &lines[k];
            proof {
                assert(line@ =~= dv[k as int]);
            }
            k = k + 1;
            assert(dv.take(k as int).drop_last() =~= dv.take(k - 1));
            assert(dv.take(k as int).last() == line@);
            let fields = split_tabs(line);
            let f0 = &fields[0];
            assert(f0@ =~= gfa_fields(line@)[0]);
            if f0.len() == 1 && f0[0] == 'S' as u8 {
                assert(f0@ =~= seq!['S' as u8]);
                assert(is_seg_line(line@));
                assert(seg_line_ok(line@));
                let f1 = &fields[1];
                assert(f1@ =~= gfa_fields(line@)[1]);
                match parse_u64(f1.as_slice()) {
                    Some(v) => {
                        let id = v as usize;
                        assert(id as nat == seg_id(line@));
                        proof {
                            lemma_gfa_max_id_bounds(dv, k - 1);
                        }
                        assert(1 <= id <= max_id);
                        let f2 = &fields[2];
                        assert(f2@ =~= gfa_fields(line@)[2]);
                        node_length.set(id - 1, f2.len());
                    },
                    None => {
                        proof {
                            assert(false);
                        }
                        return Err(GafError::InvalidNumber);
                    },
                }
            } else {
                assert(!is_seg_line(line@));
            }
        }
        assert(dv.take(k as int) =~= dv);
        Ok(GfaGraph { node_length, max_id })
    }

    /// The recorded length of node `id`.
    pub fn get_node_length(&self, id: usize) -> (r: usize)
        requires
            self.wf(),
            1 <= id <= self.max_id,
        ensures
            r == self.node_length@[id - 1],
    {
        self.node_length[id - 1]
    }

    /// The greatest node identifier the index covers.
    pub fn get_max_id(&self) -> (r: usize)
        ensures
            r == self.max_id,
    {
        self.max_id
    }

    /// Whether a graph was loaded: an empty index means none was.
    pub fn loaded(&self) -> (r: bool)
        ensures
            r == (self.max_id != 0),
    {
        self.max_id != 0
    }
}

/// A malformed segment line refutes well-formedness of the whole file.
proof fn lemma_bad_seg_line(lines: Seq<Seq<u8>>, i: int)
    requires
        0 <= i < lines.len(),
        is_seg_line(lines[i]),
        !seg_line_ok(lines[i]),
    ensures
        !gfa_ok(lines),
{
}

/// Every declared identifier is bounded by the file's maximum.
proof fn lemma_gfa_max_id_bounds(lines: Seq<Seq<u8>>, i: int)
    requires
        0 <= i < lines.len(),
        is_seg_line(lines[i]),
    ensures
        seg_id(lines[i]) <= gfa_max_id(lines),
    decreases lines.len(),
{
    if i == lines.len() - 1 {
        assert(lines.last() == lines[i]);
    } else {
        lemma_gfa_max_id_bounds(lines.drop_last(), i);
        assert(lines.drop_last()[i] == lines[i]);
    }
}

} // verus!
