//! The two output strategies: one row per node traversal (vectorize),
//! or one row per read with a fixed column per node (matrix).  Every
//! row is built as bytes and stated exactly, cell by cell.
use vstd::prelude::*;
use crate::fields::tab;
use crate::graph::GfaGraph;
use crate::num::{dec_digits, format_u64};
use crate::paths::{path_decodable, decoded_path, decode_path, traversal_tokens};
use crate::GafError;

verus! {

/// The bytes of a piece of ASCII text.
pub open spec fn text_bytes(s: Seq<char>) -> Seq<u8> {
    s.map_values(|c: char| c as u8)
}

/// Copy a byte slice onto the end of a row.
pub fn append_slice(out: &mut Vec<u8>, s: &[u8])
    ensures
        final(out)@ == old(out)@ + s@,
{
    let mut i: usize = 0;
    assert(out@ =~= old(out)@ + s@.take(0));
    while i < s.len()
        invariant
            0 <= i <= s@.len(),
            out@ == old(out)@ + s@.take(i as int),
        decreases s@.len() - i,
    {
        out.push(s[i]);
        i = i + 1;
        assert(out@ =~= old(out)@ + s@.take(i as int));
    }
    assert(out@ =~= old(out)@ + s@);
}

/// Copy an ASCII literal onto the end of a row.
fn append_literal(out: &mut Vec<u8>, s: &str)
    requires
        s.is_ascii(),
    ensures
        final(out)@ == old(out)@ + text_bytes(s@),
{
    let b = s.as_bytes();
    assert(b@ =~= text_bytes(s@));
    append_slice(out, b);
}

/// The leading group cell of a data row, when a group label is set.
pub open spec fn group_prefix(group: Option<Seq<u8>>) -> Seq<u8> {
    match group {
        Some(g) => g + seq![tab()],
        None => Seq::empty(),
    }
}

/// The view of an optional borrowed group label.
pub open spec fn opt_view(group: Option<&Vec<u8>>) -> Option<Seq<u8>> {
    match group {
        Some(g) => Some(g@),
        None => None,
    }
}

/// The leading header cell naming the group column, when one is set.
pub open spec fn header_prefix(group: Option<Seq<u8>>) -> Seq<u8> {
    match group {
        Some(_) => text_bytes("group.name\t"@),
        None => Seq::empty(),
    }
}

/// The header row of vectorize output.
pub open spec fn vectorize_header_text(group: Option<Seq<u8>>) -> Seq<u8> {
    header_prefix(group) + text_bytes("aln.name\tquery.length\tnode.id\trank"@)
}

/// Build the vectorize header row.
pub fn vectorize_header(group: Option<&Vec<u8>>) -> (row: Vec<u8>)
    ensures
        row@ == vectorize_header_text(opt_view(group)),
{
    proof {
        reveal_strlit("group.name\t");
        reveal_strlit("aln.name\tquery.length\tnode.id\trank");
    }
    let mut row: Vec<u8> = Vec::new();
    if group.is_some() {
        append_literal(&mut row, "group.name\t");
    }
    append_literal(&mut row, "aln.name\tquery.length\tnode.id\trank");
    row
}

/// The trailing per-node header cells `\tnode.1` .. `\tnode.<max_id>`.
pub open spec fn matrix_header_cols(max_id: nat) -> Seq<u8>
    decreases max_id,
{
    if max_id == 0 {
        Seq::empty()
    } else {
        matrix_header_cols((max_id - 1) as nat) + text_bytes("\tnode."@) + dec_digits(max_id)
    }
}

/// The header row of matrix output.
pub open spec fn matrix_header_text(group: Option<Seq<u8>>, max_id: nat) -> Seq<u8> {
    header_prefix(group) + text_bytes("aln.name\tquery.length\tnode.count"@) + matrix_header_cols(
        max_id,
    )
}

/// Build the matrix header row: the fixed cells, then one column name
/// per node identifier in ascending order.
pub fn matrix_header(group: Option<&Vec<u8>>, max_id: usize) -> (row: Vec<u8>)
    ensures
        row@ == matrix_header_text(opt_view(group), max_id as nat),
{
    proof {
        reveal_strlit("group.name\t");
        reveal_strlit("aln.name\tquery.length\tnode.count");
        reveal_strlit("\tnode.");
    }
    let mut row: Vec<u8> = Vec::new();
    if group.is_some() {
        append_literal(&mut row, "group.name\t");
    }
    append_literal(&mut row, "aln.name\tquery.length\tnode.count");
    let ghost base = row@;
    let mut done: usize = 0;
    assert(row@ =~= base + matrix_header_cols(0));
    while done < max_id
        invariant
            0 <= done <= max_id,
            row@ == base + matrix_header_cols(done as nat),
        decreases max_id - done,
    {
        proof {
            reveal_strlit("\tnode.");
        }
        let x = done + 1;
        append_literal(&mut row, "\tnode.");
        let digits = format_u64(x as u64);
        append_slice(&mut row, digits.as_slice());
        assert(row@ =~= base + matrix_header_cols(x as nat));
        done = x;
    }
    row
}

/// The opening cells shared by both data-row forms: optional group
/// label, read name, query length.
pub open spec fn row_start(group: Option<Seq<u8>>, name: Seq<u8>, query_length: u64) -> Seq<u8> {
    group_prefix(group) + name + seq![tab()] + dec_digits(query_length as nat)
}

/// Append the opening cells of a data row.
fn append_row_start(out: &mut Vec<u8>, group: Option<&Vec<u8>>, name: &Vec<u8>, query_length: u64)
    ensures
        final(out)@ == old(out)@ + row_start(opt_view(group), name@, query_length),
{
    match group {
        Some(g) => {
            append_slice(out, g.as_slice());
            out.push('\t' as u8);
        },
        None => {},
    }
    append_slice(out, name.as_slice());
    out.push('\t' as u8);
    let digits = format_u64(query_length);
    append_slice(out, digits.as_slice());
    assert(out@ =~= old(out)@ + row_start(opt_view(group), name@, query_length));
}

/// One vectorize data row: group label, name, query length, node
/// identifier, and the traversal's 1-based rank within the path.
pub open spec fn vectorize_row_text(
    group: Option<Seq<u8>>,
    name: Seq<u8>,
    query_length: u64,
    id: nat,
    rank: nat,
) -> Seq<u8> {
    row_start(group, name, query_length) + seq![tab()] + dec_digits(id) + seq![tab()] + dec_digits(
        rank,
    )
}

/// All vectorize data rows of one record, in traversal order.
pub open spec fn vectorize_rows_text(
    group: Option<Seq<u8>>,
    name: Seq<u8>,
    query_length: u64,
    ids: Seq<nat>,
) -> Seq<Seq<u8>> {
    Seq::new(ids.len(), |k: int| vectorize_row_text(group, name, query_length, ids[k], (k + 1) as nat))
}

/// Emit one row per node traversal of a retained record: the number
/// of rows equals the number of non-empty tokens in the path field.
///
/// Fails exactly when the path does not decode.
pub fn vectorize_rows(
    group: Option<&Vec<u8>>,
    name: &Vec<u8>,
    query_length: u64,
    path: &Vec<u8>,
) -> (r: Result<Vec<Vec<u8>>, GafError>)
    ensures
        match r {
            Ok(rows) => {
                &&& path_decodable(path@)
                &&& rows.deep_view() == vectorize_rows_text(
                    opt_view(group),
                    name@,
                    query_length,
                    decoded_path(path@),
                )
                &&& rows@.len() == traversal_tokens(path@).len()
            },
            Err(e) => e == GafError::InvalidNumber && !path_decodable(path@),
        },
{
    let ids = match decode_path(path) {
        Ok(ids) => ids,
        Err(e) => {
            return Err(e);
        },
    };
    let ghost decoded = decoded_path(path@);
    assert(ids@.len() == decoded.len());
    let mut rows: Vec<Vec<u8>> = Vec::new();
    let mut k: usize = 0;
    assert(rows.deep_view() =~~= vectorize_rows_text(
        opt_view(group),
        name@,
        query_length,
        decoded.take(0),
    ));
    while k < ids.len()
        invariant
            0 <= k <= ids@.len(),
            ids@.map_values(|x: usize| x as nat) == decoded,
            rows.deep_view() == vectorize_rows_text(
                opt_view(group),
                name@,
                query_length,
                decoded.take(k as int),
            ),
        decreases ids@.len() - k,
    {
        let id = ids[k];
        assert(id as nat == decoded[k as int]);
        let mut row: Vec<u8> = Vec::new();
        append_row_start(&mut row, group, name, query_length);
        row.push('\t' as u8);
        let digits = format_u64(id as u64);
        append_slice(&mut row, digits.as_slice());
        row.push('\t' as u8);
        let rank = format_u64((k as u64) + 1);
        append_slice(&mut row, rank.as_slice());
        assert(row@ =~= vectorize_row_text(
            opt_view(group),
            name@,
            query_length,
            id as nat,
            (k + 1) as nat,
        ));
        let ghost prev = rows.deep_view();
        rows.push(row);
        k = k + 1;
        proof {
            assert(rows.deep_view() =~~= prev.push(vectorize_row_text(
                opt_view(group),
                name@,
                query_length,
                decoded[k - 1],
                k as nat,
            )));
            assert(rows.deep_view() =~~= vectorize_rows_text(
                opt_view(group),
                name@,
                query_length,
                decoded.take(k as int),
            ));
        }
    }
    assert(decoded.take(k as int) =~= decoded);
    Ok(rows)
}

/// The sum of a vector of per-node values.
pub open spec fn seq_sum(s: Seq<nat>) -> nat
    decreases s.len(),
{
    if s.len() == 0 {
        0
    } else {
        seq_sum(s.drop_last()) + s.last()
    }
}

/// A sum of bounded values is bounded by count times bound.
pub proof fn lemma_seq_sum_bound(s: Seq<nat>, b: nat)
    requires
        forall|i: int| 0 <= i < s.len() ==> #[trigger] s[i] <= b,
    ensures
        seq_sum(s) <= s.len() * b,
    decreases s.len(),
{
    if s.len() > 0 {
        lemma_seq_sum_bound(s.drop_last(), b);
        assert((s.len() - 1) * b + b == s.len() * b) by (nonlinear_arith);
    }
}

/// The value a traversed node contributes to a matrix row: 1 in
/// binary output, the node's sequence length when a graph weights the
/// output, and 1 again when neither is available.
pub open spec fn traversal_value(graph: &GfaGraph, binary_out: bool, id: nat) -> nat {
    if binary_out {
        1
    } else if graph.max_id != 0 {
        graph.node_length@[id - 1] as nat
    } else {
        1
    }
}

/// The per-node value cells of one read, indexed by `id - 1`: the
/// node's value where the read traverses it, 0 elsewhere.  A node
/// visited more than once contributes its value once — presence, not
/// frequency.
pub open spec fn value_vector(ids: Seq<nat>, graph: &GfaGraph, binary_out: bool, max_id: nat) -> Seq<
    nat,
> {
    Seq::new(
        max_id,
        |x: int|
            if ids.contains((x + 1) as nat) {
                traversal_value(graph, binary_out, (x + 1) as nat)
            } else {
                0
            },
    )
}

/// Every traversed identifier lies within the matrix's columns.
pub open spec fn ids_in_range(ids: Seq<nat>, max_id: nat) -> bool {
    forall|i: int| 0 <= i < ids.len() ==> #[trigger] ids[i] <= max_id
}

/// The trailing value cells of a matrix row, one per node identifier.
pub open spec fn matrix_cells(values: Seq<nat>) -> Seq<u8>
    decreases values.len(),
{
    if values.len() == 0 {
        Seq::empty()
    } else {
        matrix_cells(values.drop_last()) + seq![tab()] + dec_digits(values.last())
    }
}

/// One matrix data row: group label, name, query length, the sum of
/// the per-node values as `node.count`, then the values in identifier
/// order.
pub open spec fn matrix_row_text(
    group: Option<Seq<u8>>,
    name: Seq<u8>,
    query_length: u64,
    values: Seq<nat>,
) -> Seq<u8> {
    row_start(group, name, query_length) + seq![tab()] + dec_digits(seq_sum(values))
        + matrix_cells(values)
}

/// Emit the matrix row of a retained record: each traversed node's
/// column gets its value, every other column 0, and `node.count` is
/// the sum of all columns.
///
/// Fails exactly when the path does not decode, or when it names a
/// node beyond the matrix's columns.
pub fn matrix_row(
    group: Option<&Vec<u8>>,
    name: &Vec<u8>,
    query_length: u64,
    path: &Vec<u8>,
    graph: &GfaGraph,
    binary_out: bool,
    max_id: usize,
) -> (r: Result<Vec<u8>, GafError>)
    requires
        graph.wf(),
        graph.max_id != 0 ==> graph.max_id == max_id,
    ensures
        match r {
            Ok(row) => {
                &&& path_decodable(path@)
                &&& ids_in_range(decoded_path(path@), max_id as nat)
                &&& row@ == matrix_row_text(
                    opt_view(group),
                    name@,
                    query_length,
                    value_vector(decoded_path(path@), graph, binary_out, max_id as nat),
                )
            },
            Err(e) => {
                ||| (e == GafError::InvalidNumber && !path_decodable(path@))
                ||| (e == GafError::NodeOutOfRange && path_decodable(path@) && !ids_in_range(
                    decoded_path(path@),
                    max_id as nat,
                ))
            },
        },
{
    let ids = match decode_path(path) {
        Ok(ids) => ids,
        Err(e) => {
            return Err(e);
        },
    };
    let ghost decoded = decoded_path(path@);
    assert(ids@.len() == decoded.len());
    let mut values: Vec<usize> = Vec::new();
    let mut z: usize = 0;
    while z < max_id
        invariant
            0 <= z <= max_id,
            values@.len() == z,
            forall|x: int| 0 <= x < z ==> values@[x] == 0,
        decreases max_id - z,
    {
        values.push(0);
        z = z + 1;
    }
    let mut j: usize = 0;
    assert(decoded.take(0) =~= Seq::<nat>::empty());
    while j < ids.len()
        invariant
            0 <= j <= ids@.len(),
            graph.wf(),
            graph.max_id != 0 ==> graph.max_id == max_id,
            ids@.map_values(|x: usize| x as nat) == decoded,
            path_decodable(path@),
            decoded == decoded_path(path@),
            ids_in_range(decoded.take(j as int), max_id as nat),
            values@.len() == max_id,
            forall|x: int|
                0 <= x < max_id ==> #[trigger] values@[x] as nat == (if decoded.take(
                    j as int,
                ).contains((x + 1) as nat) {
                    traversal_value(graph, binary_out, (x + 1) as nat)
                } else {
                    0
                }),
        decreases ids@.len() - j,
    {
        let id = ids[j];
        assert(id as nat == decoded[j as int]);
        if id > max_id {
            return Err(GafError::NodeOutOfRange);
        }
        assert(1 <= id <= max_id) by {
            assert(decoded.len() == traversal_tokens(path@).len());
            assert(crate::paths::token_ok(traversal_tokens(path@)[j as int]));
            assert(decoded[j as int] == crate::num::dec_value(traversal_tokens(path@)[j as int]));
        }
        let val: usize = if binary_out {
            1
        } else if graph.loaded() {
            graph.get_node_length(id)
        } else {
            1
        };
        assert(val as nat == traversal_value(graph, binary_out, id as nat));
        values.set(id - 1, val);
        j = j + 1;
        proof {
            assert(decoded.take(j as int) =~= decoded.take(j - 1).push(id as nat));
            assert forall|i: int| 0 <= i < j implies #[trigger] decoded.take(j as int)[i] <= max_id
                as nat by {
                if i < j - 1 {
                    assert(decoded.take(j - 1)[i] <= max_id as nat);
                }
            }
            assert forall|y: nat|
                decoded.take(j as int).contains(y) <==> decoded.take(j - 1).contains(y) || y == id
                    as nat by {
                let pre = decoded.take(j - 1);
                let post = decoded.take(j as int);
                if post.contains(y) {
                    let ix = choose|ix: int| 0 <= ix < post.len() && post[ix] == y;
                    if ix < pre.len() {
                        assert(pre[ix] == y);
                    }
                }
                if pre.contains(y) {
                    let ix = choose|ix: int| 0 <= ix < pre.len() && pre[ix] == y;
                    assert(post[ix] == y);
                }
                if y == id as nat {
                    assert(post[j - 1] == y);
                }
            }
        }
    }
    assert(decoded.take(j as int) =~= decoded);
    let ghost vals = value_vector(decoded, graph, binary_out, max_id as nat);
    assert(values@.map_values(|v: usize| v as nat) =~= vals);
    let mut sum: u128 = 0;
    let mut c: usize = 0;
    assert(vals.take(0) =~= Seq::<nat>::empty());
    while c < values.len()
        invariant
            0 <= c <= values@.len(),
            values@.len() == vals.len(),
            values@.map_values(|v: usize| v as nat) == vals,
            sum as nat == seq_sum(vals.take(c as int)),
            sum as nat <= (c as nat) * (usize::MAX as nat),
        decreases values@.len() - c,
    {
        let v = values[c];
        proof {
            assert(vals[c as int] == values@[c as int] as nat);
            assert(vals.take(c + 1).drop_last() =~= vals.take(c as int));
            assert(vals.take(c + 1).last() == vals[c as int]);
            assert((c as nat) * (usize::MAX as nat) + (usize::MAX as nat) == ((c + 1) as nat) * (
            usize::MAX as nat)) by (nonlinear_arith);
            assert(((c + 1) as nat) * (usize::MAX as nat) <= (values@.len() as nat) * (usize::MAX
                as nat)) by (nonlinear_arith)
                requires
                    c + 1 <= values@.len(),
            ;
            assert((values@.len() as nat) * (usize::MAX as nat) < u128::MAX as nat) by (
            nonlinear_arith)
                requires
                    values@.len() <= usize::MAX,
            ;
        }
        sum = sum + v as u128;
        c = c + 1;
    }
    assert(vals.take(c as int) =~= vals);
    let mut row: Vec<u8> = Vec::new();
    append_row_start(&mut row, group, name, query_length);
    row.push('\t' as u8);
    let count_digits = crate::num::format_u128(sum);
    append_slice(&mut row, count_digits.as_slice());
    let ghost base = row@;
    assert(base =~= row_start(opt_view(group), name@, query_length) + seq![tab()] + dec_digits(
        seq_sum(vals),
    ));
    let mut x: usize = 0;
    assert(row@ =~= base + matrix_cells(vals.take(0)));
    while x < values.len()
        invariant
            0 <= x <= values@.len(),
            values@.len() == vals.len(),
            values@.map_values(|v: usize| v as nat) == vals,
            row@ == base + matrix_cells(vals.take(x as int)),
        decreases values@.len() - x,
    {
        row.push('\t' as u8);
        let digits = format_u64(values[x] as u64);
        append_slice(&mut row, digits.as_slice());
        proof {
            assert(vals[x as int] == values@[x as int] as nat);
            assert(vals.take(x + 1).drop_last() =~= vals.take(x as int));
            assert(vals.take(x + 1).last() == vals[x as int]);
            assert(row@ =~= base + matrix_cells(vals.take(x + 1)));
        }
        x = x + 1;
    }
    assert(vals.take(x as int) =~= vals);
    assert(row@ =~= matrix_row_text(opt_view(group), name@, query_length, vals));
    Ok(row)
}

/// `s` holds no tab byte, so it stays one cell of its row.
pub open spec fn tab_free(s: Seq<u8>) -> bool {
    forall|i: int| 0 <= i < s.len() ==> #[trigger] s[i] != tab()
}

/// The canonical digits of a number hold no tab.
proof fn lemma_dec_digits_tab_free(n: nat)
    ensures
        tab_free(dec_digits(n)),
{
    crate::num::lemma_dec_digits_value(n);
    assert forall|i: int| 0 <= i < dec_digits(n).len() implies #[trigger] dec_digits(n)[i]
        != tab() by {
        assert(crate::num::is_digit(dec_digits(n)[i]));
    }
}

/// Splitting the value cells of a matrix row recovers each value's
/// digits, one cell per node identifier.
proof fn lemma_split_matrix_cells(prefix: Seq<u8>, values: Seq<nat>)
    ensures
        crate::fields::split_by(prefix + matrix_cells(values), crate::fields::tab_set())
            == crate::fields::split_by(prefix, crate::fields::tab_set()) + values.map_values(
            |v: nat| dec_digits(v),
        ),
    decreases values.len(),
{
    let seps = crate::fields::tab_set();
    if values.len() == 0 {
        assert(prefix + matrix_cells(values) =~= prefix);
        assert(values.map_values(|v: nat| dec_digits(v)) =~= Seq::<Seq<u8>>::empty());
        assert(crate::fields::split_by(prefix, seps) + Seq::<Seq<u8>>::empty()
            =~= crate::fields::split_by(prefix, seps));
    } else {
        lemma_split_matrix_cells(prefix, values.drop_last());
        let d = dec_digits(values.last());
        lemma_dec_digits_tab_free(values.last());
        let mid = prefix + matrix_cells(values.drop_last());
        assert(prefix + matrix_cells(values) =~= mid + seq![tab()] + d);
        crate::fields::lemma_split_by_append_segment(mid, tab(), d, seps);
        assert(crate::fields::split_by(mid, seps).push(d) =~= crate::fields::split_by(prefix, seps)
            + values.map_values(|v: nat| dec_digits(v)));
    }
}

/// In every matrix data row, the `node.count` cell holds exactly the
/// sum of the per-node value cells that follow it: reading the row
/// back cell by cell, the count column equals the sum of the columns.
pub proof fn lemma_matrix_count_column_is_sum(
    group: Option<Seq<u8>>,
    name: Seq<u8>,
    query_length: u64,
    values: Seq<nat>,
)
    requires
        tab_free(name),
        match group {
            Some(g) => tab_free(g),
            None => true,
        },
    ensures
        ({
            let cells = crate::fields::split_by(
                matrix_row_text(group, name, query_length, values),
                crate::fields::tab_set(),
            );
            let off: int = if group is Some {
                1
            } else {
                0
            };
            &&& cells.len() == off + 3 + values.len()
            &&& crate::num::dec_value(cells[off + 2]) == seq_sum(values)
            &&& forall|x: int|
                0 <= x < values.len() ==> crate::num::dec_value(#[trigger] cells[off + 3 + x])
                    == values[x]
        }),
{
    let seps = crate::fields::tab_set();
    let row = matrix_row_text(group, name, query_length, values);
    let dq = dec_digits(query_length as nat);
    let ds = dec_digits(seq_sum(values));
    crate::num::lemma_dec_digits_value(query_length as nat);
    crate::num::lemma_dec_digits_value(seq_sum(values));
    lemma_dec_digits_tab_free(query_length as nat);
    lemma_dec_digits_tab_free(seq_sum(values));
    let head = match group {
        Some(g) => {
            crate::fields::lemma_split_by_no_seps(g, seps);
            crate::fields::lemma_split_by_append_segment(g, tab(), name, seps);
            assert(crate::fields::split_by(g + seq![tab()] + name, seps) =~~= seq![g, name]);
            g + seq![tab()] + name
        },
        None => {
            crate::fields::lemma_split_by_no_seps(name, seps);
            name
        },
    };
    assert(head =~= group_prefix(group) + name);
    let head2 = head + seq![tab()] + dq;
    crate::fields::lemma_split_by_append_segment(head, tab(), dq, seps);
    let head3 = head2 + seq![tab()] + ds;
    crate::fields::lemma_split_by_append_segment(head2, tab(), ds, seps);
    lemma_split_matrix_cells(head3, values);
    assert(row =~= head3 + matrix_cells(values));
    let cells = crate::fields::split_by(row, seps);
    let off: int = if group is Some {
        1
    } else {
        0
    };
    assert(cells =~~= crate::fields::split_by(head3, seps) + values.map_values(
        |v: nat| dec_digits(v),
    ));
    assert(cells[off + 2] == ds);
    assert forall|x: int| 0 <= x < values.len() implies crate::num::dec_value(
        #[trigger] cells[off + 3 + x],
    ) == values[x] by {
        assert(cells[off + 3 + x] == dec_digits(values[x]));
        crate::num::lemma_dec_digits_value(values[x]);
    }
}

} // verus!
