//! The run itself: resolve the matrix width and the length threshold,
//! then stream records through parsing, the length filter, the
//! sampler, and the chosen emitter.
use vstd::prelude::*;
use crate::emit::{
    matrix_header, matrix_header_text, matrix_row, matrix_row_text, vectorize_header,
    vectorize_header_text, vectorize_rows, vectorize_rows_text, value_vector, ids_in_range,
    opt_view,
};
use crate::graph::{GfaGraph, gfa_ok, gfa_max_id};
use crate::records::{parse_record, record_ok, record_name};
use crate::paths::{path_decodable, decoded_path};
use crate::stats::{
    gaf_max_id, gaf_max_node_id, gaf_nth_longest_read, length_threshold, lengths_ok, line_length,
    paths_ok, path_of_line, qualifying,
};
use crate::GafError;

verus! {

/// Whether records are subsampled: kept unconditionally, or kept when
/// a fresh uniform draw falls below the configured threshold.
#[derive(Clone, Copy, Debug, PartialEq, Eq, Structural)]
pub enum Sampling {
    /// No sampling: every record passing the length filter is kept.
    KeepAll,
    /// Keep a record when its uniform draw is below this threshold.
    Rate(u64),
}

/// The configuration of one run, resolved once at startup.
pub struct RunConfig {
    /// Emit one row per traversal instead of one row per read.
    pub vectorize: bool,
    /// Emit 1/0 presence values instead of node-length weights.
    pub binary_out: bool,
    /// Keep reads no shorter than this.
    pub min_length: u64,
    /// Keep reads no longer than this.
    pub max_length: u64,
    /// Trim each read name at its first whitespace.
    pub trim_read_name: bool,
    /// Prefix each row with this group label, when set.
    pub group_name: Option<Vec<u8>>,
    /// Keep only the longest N reads; 0 disables the cutoff.
    pub keep_n_longest: usize,
    /// The subsampling policy.
    pub sampling: Sampling,
}

/// The configured group label as a sequence.
pub open spec fn cfg_group(cfg: &RunConfig) -> Option<Seq<u8>> {
    match cfg.group_name {
        Some(g) => Some(g@),
        None => None,
    }
}

/// The sampler keeps a record for this draw.
pub open spec fn sample_keeps(sampling: Sampling, draw: u64) -> bool {
    match sampling {
        Sampling::KeepAll => true,
        Sampling::Rate(threshold) => draw < threshold,
    }
}

/// The record's length lies within the bounds and reaches the
/// longest-read threshold.
pub open spec fn length_filter_ok(query_length: u64, cfg: &RunConfig, threshold: u64) -> bool {
    cfg.min_length <= query_length <= cfg.max_length && query_length >= threshold
}

/// The record survives both the length filter and the sampler.
pub open spec fn retained_spec(query_length: u64, cfg: &RunConfig, threshold: u64, draw: u64) -> bool {
    length_filter_ok(query_length, cfg, threshold) && sample_keeps(cfg.sampling, draw)
}

/// Decide whether one record is retained.  A retained record always
/// satisfies the length bounds, and without sampling the decision is
/// exactly the length filter: no record is dropped by the sampler.
pub fn record_retained(query_length: u64, cfg: &RunConfig, threshold: u64, draw: u64) -> (r: bool)
    ensures
        r == retained_spec(query_length, cfg, threshold, draw),
        r ==> cfg.min_length <= query_length <= cfg.max_length,
        cfg.sampling == Sampling::KeepAll ==> (r <==> length_filter_ok(
            query_length,
            cfg,
            threshold,
        )),
{
    let length_ok = query_length >= cfg.min_length && query_length <= cfg.max_length
        && query_length >= threshold;
    let sampled = match cfg.sampling {
        Sampling::KeepAll => true,
        Sampling::Rate(t) => draw < t,
    };
    length_ok && sampled
}

/// The record on this line is retained.
pub open spec fn line_retained(line: Seq<u8>, cfg: &RunConfig, threshold: u64, draw: u64) -> bool {
    retained_spec(line_length(line) as u64, cfg, threshold, draw)
}

/// The line can be carried through the pipeline without fault: it
/// parses as a record, and — when retained — its path decodes and, in
/// matrix output, stays within the matrix's columns.
pub open spec fn line_emittable(
    line: Seq<u8>,
    cfg: &RunConfig,
    max_id: nat,
    threshold: u64,
    draw: u64,
) -> bool {
    &&& record_ok(line, cfg.trim_read_name)
    &&& (line_retained(line, cfg, threshold, draw) ==> {
        &&& path_decodable(path_of_line(line))
        &&& (!cfg.vectorize ==> ids_in_range(decoded_path(path_of_line(line)), max_id))
    })
}

/// Every line can be carried through the pipeline.
pub open spec fn all_emittable(
    lines: Seq<Seq<u8>>,
    cfg: &RunConfig,
    max_id: nat,
    threshold: u64,
    draws: Seq<u64>,
) -> bool {
    forall|i: int|
        0 <= i < lines.len() ==> line_emittable(#[trigger] lines[i], cfg, max_id, threshold, draws[i])
}

/// The data rows one line contributes: none when it is not retained,
/// one row per traversal in vectorize output, one row per read in
/// matrix output.
pub open spec fn line_rows(
    line: Seq<u8>,
    cfg: &RunConfig,
    graph: &GfaGraph,
    max_id: nat,
    threshold: u64,
    draw: u64,
) -> Seq<Seq<u8>> {
    if !line_retained(line, cfg, threshold, draw) {
        Seq::empty()
    } else if cfg.vectorize {
        vectorize_rows_text(
            cfg_group(cfg),
            record_name(line, cfg.trim_read_name),
            line_length(line) as u64,
            decoded_path(path_of_line(line)),
        )
    } else {
        seq![
            matrix_row_text(
                cfg_group(cfg),
                record_name(line, cfg.trim_read_name),
                line_length(line) as u64,
                value_vector(decoded_path(path_of_line(line)), graph, cfg.binary_out, max_id),
            ),
        ]
    }
}

/// All data rows of the run, in file order.
pub open spec fn output_rows(
    lines: Seq<Seq<u8>>,
    cfg: &RunConfig,
    graph: &GfaGraph,
    max_id: nat,
    threshold: u64,
    draws: Seq<u64>,
) -> Seq<Seq<u8>>
    decreases lines.len(),
{
    if lines.len() == 0 {
        Seq::empty()
    } else {
        output_rows(lines.drop_last(), cfg, graph, max_id, threshold, draws) + line_rows(
            lines.last(),
            cfg,
            graph,
            max_id,
            threshold,
            draws[lines.len() - 1],
        )
    }
}

/// The header row of the chosen output form.
pub open spec fn header_text(cfg: &RunConfig, max_id: nat) -> Seq<u8> {
    if cfg.vectorize {
        vectorize_header_text(cfg_group(cfg))
    } else {
        matrix_header_text(cfg_group(cfg), max_id)
    }
}

/// Without sampling, the emitted rows do not depend on the draws.
pub proof fn lemma_keep_all_rows(
    lines: Seq<Seq<u8>>,
    cfg: &RunConfig,
    graph: &GfaGraph,
    max_id: nat,
    threshold: u64,
    d1: Seq<u64>,
    d2: Seq<u64>,
)
    requires
        cfg.sampling == Sampling::KeepAll,
    ensures
        output_rows(lines, cfg, graph, max_id, threshold, d1) == output_rows(
            lines,
            cfg,
            graph,
            max_id,
            threshold,
            d2,
        ),
        all_emittable(lines, cfg, max_id, threshold, d1) == all_emittable(
            lines,
            cfg,
            max_id,
            threshold,
            d2,
        ),
    decreases lines.len(),
{
    if lines.len() > 0 {
        lemma_keep_all_rows(lines.drop_last(), cfg, graph, max_id, threshold, d1, d2);
        assert forall|i: int| 0 <= i < lines.len() implies line_emittable(
            #[trigger] lines[i],
            cfg,
            max_id,
            threshold,
            d1[i],
        ) == line_emittable(lines[i], cfg, max_id, threshold, d2[i]) by {}
    }
}

/// The configured group label, borrowed for an emitter.
fn group_ref(cfg: &RunConfig) -> (r: Option<&Vec<u8>>)
    ensures
        opt_view(r) == cfg_group(cfg),
{
    match &cfg.group_name {
        Some(g) => Some(g),
        None => None,
    }
}

/// The emission pass: the header row, then every retained record's
/// rows, each record's retention decided by its own uniform draw.
///
/// Fails exactly when some line cannot be carried through: it does
/// not parse as a record, or it is retained and its path does not
/// decode or names a node beyond the matrix's columns.
pub fn emit_rows(
    gaf_lines: &Vec<Vec<u8>>,
    cfg: &RunConfig,
    graph: &GfaGraph,
    max_id: usize,
    threshold: u64,
    draws: &Vec<u64>,
) -> (r: Result<Vec<Vec<u8>>, GafError>)
    requires
        graph.wf(),
        graph.max_id != 0 ==> graph.max_id == max_id,
        draws@.len() == gaf_lines@.len(),
    ensures
        match r {
            Ok(rows) => {
                &&& all_emittable(gaf_lines.deep_view(), cfg, max_id as nat, threshold, draws@)
                &&& rows.deep_view() == seq![header_text(cfg, max_id as nat)] + output_rows(
                    gaf_lines.deep_view(),
                    cfg,
                    graph,
                    max_id as nat,
                    threshold,
                    draws@,
                )
            },
            Err(e) => {
                &&& !all_emittable(gaf_lines.deep_view(), cfg, max_id as nat, threshold, draws@)
                &&& (e == GafError::MissingField || e == GafError::EmptyName || e
                    == GafError::InvalidNumber || e == GafError::NodeOutOfRange)
            },
        },
{
    let ghost dv = gaf_lines.deep_view();
    let mut out: Vec<Vec<u8>> = Vec::new();
    let header = if cfg.vectorize {
        vectorize_header(group_ref(cfg))
    } else {
        matrix_header(group_ref(cfg), max_id)
    };
    let ghost header_ghost = header@;
    out.push(header);
    assert(header_ghost == header_text(cfg, max_id as nat));
    assert(out.deep_view() =~~= seq![header_text(cfg, max_id as nat)] + output_rows(
        dv.take(0),
        cfg,
        graph,
        max_id as nat,
        threshold,
        draws@,
    ));
    let mut i: usize = 0;
    while i < gaf_lines.len()
        invariant
            0 <= i <= gaf_lines@.len(),
            dv == gaf_lines.deep_view(),
            draws@.len() == gaf_lines@.len(),
            graph.wf(),
            graph.max_id != 0 ==> graph.max_id == max_id,
            all_emittable(dv.take(i as int), cfg, max_id as nat, threshold, draws@),
            out.deep_view() == seq![header_text(cfg, max_id as nat)] + output_rows(
                dv.take(i as int),
                cfg,
                graph,
                max_id as nat,
                threshold,
                draws@,
            ),
        decreases gaf_lines@.len() - i,
    {
        let line = &gaf_lines[i];
        proof {
            assert(line@ =~= dv[i as int]);
        }
        let rec = match parse_record(line, cfg.trim_read_name) {
            Ok(rec) => rec,
            Err(e) => {
                assert(!line_emittable(dv[i as int], cfg, max_id as nat, threshold, draws@[i as int]));
                return Err(e);
            },
        };
        let keep = record_retained(rec.query_length, cfg, threshold, draws[i]);
        assert(rec.query_length == line_length(dv[i as int]) as u64);
        assert(keep == line_retained(dv[i as int], cfg, threshold, draws@[i as int]));
        let ghost prev = out.deep_view();
        if keep {
            if cfg.vectorize {
                match vectorize_rows(group_ref(cfg), &rec.name, rec.query_length, &rec.path) {
                    Ok(mut rows) => {
                        let ghost rows_ghost = rows.deep_view();
                        out.append(&mut rows);
                        proof {
                            assert(out.deep_view() =~~= prev + rows_ghost);
                            assert(rows_ghost == line_rows(
                                dv[i as int],
                                cfg,
                                graph,
                                max_id as nat,
                                threshold,
                                draws@[i as int],
                            ));
                        }
                    },
                    Err(e) => {
                        assert(!line_emittable(
                            dv[i as int],
                            cfg,
                            max_id as nat,
                            threshold,
                            draws@[i as int],
                        ));
                        return Err(e);
                    },
                }
            } else {
                match matrix_row(
                    group_ref(cfg),
                    &rec.name,
                    rec.query_length,
                    &rec.path,
                    graph,
                    cfg.binary_out,
                    max_id,
                ) {
                    Ok(row) => {
                        let ghost row_ghost = row@;
                        out.push(row);
                        proof {
                            assert(out.deep_view() =~~= prev + seq![row_ghost]);
                            assert(seq![row_ghost] =~~= line_rows(
                                dv[i as int],
                                cfg,
                                graph,
                                max_id as nat,
                                threshold,
                                draws@[i as int],
                            ));
                        }
                    },
                    Err(e) => {
                        assert(!line_emittable(
                            dv[i as int],
                            cfg,
                            max_id as nat,
                            threshold,
                            draws@[i as int],
                        ));
                        return Err(e);
                    },
                }
            }
        } else {
            assert(line_rows(dv[i as int], cfg, graph, max_id as nat, threshold, draws@[i as int])
                =~~= Seq::<Seq<u8>>::empty());
            assert(out.deep_view() =~~= prev + line_rows(
                dv[i as int],
                cfg,
                graph,
                max_id as nat,
                threshold,
                draws@[i as int],
            ));
        }
        i = i + 1;
        proof {
            assert(dv.take(i as int).drop_last() =~= dv.take(i - 1));
            assert(dv.take(i as int).last() == dv[i - 1]);
            assert(out.deep_view() =~~= seq![header_text(cfg, max_id as nat)] + output_rows(
                dv.take(i as int),
                cfg,
                graph,
                max_id as nat,
                threshold,
                draws@,
            ));
            assert forall|k: int| 0 <= k < i implies line_emittable(
                #[trigger] dv.take(i as int)[k],
                cfg,
                max_id as nat,
                threshold,
                draws@[k],
            ) by {
                if k < i - 1 {
                    assert(line_emittable(
                        dv.take(i - 1)[k],
                        cfg,
                        max_id as nat,
                        threshold,
                        draws@[k],
                    ));
                }
            }
        }
    }
    assert(dv.take(i as int) =~= dv);
    Ok(out)
}

/// Relies on rand::random: one uniform machine word from the
/// thread-local generator.  Nothing is promised of the value.
#[verifier::external_body]
fn random_word() -> u64 {
    rand::random::<u64>()
}

/// The lines of the optional graph file.
pub open spec fn opt_lines_view(lines: Option<&Vec<Vec<u8>>>) -> Option<Seq<Seq<u8>>> {
    match lines {
        Some(l) => Some(l.deep_view()),
        None => None,
    }
}

/// The graph index the run uses, given the optional graph file.
pub open spec fn graph_from(g: GfaGraph, gfa: Option<Seq<Seq<u8>>>) -> bool {
    match gfa {
        Some(dv) => g.wf() && g.matches(dv),
        None => g.max_id == 0 && g.node_length@.len() == 0,
    }
}

/// The graph file, when given, is well formed.
pub open spec fn gfa_source_ok(gfa: Option<Seq<Seq<u8>>>) -> bool {
    match gfa {
        Some(dv) => gfa_ok(dv),
        None => true,
    }
}

/// The matrix width before any pre-pass: the graph's maximum when one
/// is loaded, else the width handed in.
pub open spec fn base_max_id(gfa: Option<Seq<Seq<u8>>>, cli_max_id: nat) -> nat {
    let gmax = match gfa {
        Some(dv) => gfa_max_id(dv),
        None => 0,
    };
    if gmax != 0 {
        gmax
    } else {
        cli_max_id
    }
}

/// Matrix output with no width yet needs the maximum-identifier
/// pre-pass over the alignment file.
pub open spec fn needs_id_prepass(cfg: &RunConfig, gfa: Option<Seq<Seq<u8>>>, cli_max_id: nat) -> bool {
    !cfg.vectorize && base_max_id(gfa, cli_max_id) == 0
}

/// The matrix width the run uses, after any pre-pass.
pub open spec fn resolved_max_id(
    cfg: &RunConfig,
    gfa: Option<Seq<Seq<u8>>>,
    gaf: Seq<Seq<u8>>,
    cli_max_id: nat,
) -> nat {
    if needs_id_prepass(cfg, gfa, cli_max_id) {
        gaf_max_node_id(gaf)
    } else {
        base_max_id(gfa, cli_max_id)
    }
}

/// The length threshold the run uses: the N-th longest qualifying
/// read's length when the cutoff is on, else 0.
pub open spec fn threshold_spec(cfg: &RunConfig, gaf: Seq<Seq<u8>>) -> u64 {
    if cfg.keep_n_longest > 0 {
        length_threshold(
            qualifying(gaf, cfg.min_length, cfg.max_length),
            cfg.keep_n_longest as nat,
        )
    } else {
        0
    }
}

/// Every pre-pass of the run can complete: the graph file is well
/// formed, the maximum-identifier pre-pass finds decodable paths when
/// it runs, and the longest-read pre-pass finds readable lengths and
/// at least one qualifying read when it runs.
pub open spec fn prepass_ok(
    cfg: &RunConfig,
    gfa: Option<Seq<Seq<u8>>>,
    gaf: Seq<Seq<u8>>,
    cli_max_id: nat,
) -> bool {
    &&& gfa_source_ok(gfa)
    &&& (needs_id_prepass(cfg, gfa, cli_max_id) ==> paths_ok(gaf))
    &&& (cfg.keep_n_longest > 0 ==> lengths_ok(gaf) && qualifying(
        gaf,
        cfg.min_length,
        cfg.max_length,
    ).len() > 0)
}

/// One full run: load the graph index if a graph file was given,
/// resolve the matrix width and the length threshold, draw once per
/// record for the sampler, and emit the header and the retained
/// records' rows.
///
/// Succeeds with the header followed by the rows of every retained
/// record.  Without sampling the rows are exactly those of the
/// length-filtered records, whatever the generator drew.
pub fn do_matrix(
    gaf_lines: &Vec<Vec<u8>>,
    gfa_lines: Option<&Vec<Vec<u8>>>,
    cfg: &RunConfig,
    max_id: usize,
) -> (r: Result<Vec<Vec<u8>>, GafError>)
    ensures
        match r {
            Ok(rows) => {
                let gaf = gaf_lines.deep_view();
                let gfa = opt_lines_view(gfa_lines);
                let rmax = resolved_max_id(cfg, gfa, gaf, max_id as nat);
                let thr = threshold_spec(cfg, gaf);
                &&& prepass_ok(cfg, gfa, gaf, max_id as nat)
                &&& exists|g: GfaGraph, draws: Seq<u64>|
                    {
                        &&& #[trigger] graph_from(g, gfa)
                        &&& draws.len() == gaf.len()
                        &&& #[trigger] all_emittable(gaf, cfg, rmax, thr, draws)
                        &&& rows.deep_view() == seq![header_text(cfg, rmax)] + output_rows(
                            gaf,
                            cfg,
                            &g,
                            rmax,
                            thr,
                            draws,
                        )
                        &&& (cfg.sampling == Sampling::KeepAll ==> forall|d2: Seq<u64>|
                            #[trigger] output_rows(gaf, cfg, &g, rmax, thr, d2) == output_rows(
                                gaf,
                                cfg,
                                &g,
                                rmax,
                                thr,
                                draws,
                            ))
                    }
            },
            Err(e) => {
                let gaf = gaf_lines.deep_view();
                let gfa = opt_lines_view(gfa_lines);
                let rmax = resolved_max_id(cfg, gfa, gaf, max_id as nat);
                let thr = threshold_spec(cfg, gaf);
                ||| !prepass_ok(cfg, gfa, gaf, max_id as nat)
                ||| exists|g: GfaGraph, draws: Seq<u64>|
                    {
                        &&& #[trigger] graph_from(g, gfa)
                        &&& draws.len() == gaf.len()
                        &&& !#[trigger] all_emittable(gaf, cfg, rmax, thr, draws)
                    }
            },
        },
{
    let ghost gaf = gaf_lines.deep_view();
    let ghost gfa = opt_lines_view(gfa_lines);
    let graph = match gfa_lines {
        Some(lines) => {
            match GfaGraph::from_gfa(lines) {
                Ok(g) => g,
                Err(e) => {
                    return Err(e);
                },
            }
        },
        None => GfaGraph::new(),
    };
    assert(graph_from(graph, gfa));
    let mut resolved: usize = if graph.loaded() {
        graph.get_max_id()
    } else {
        max_id
    };
    assert(resolved as nat == base_max_id(gfa, max_id as nat));
    if !cfg.vectorize && resolved == 0 {
        resolved = match gaf_max_id(gaf_lines) {
            Ok(m) => m,
            Err(e) => {
                return Err(e);
            },
        };
    }
    assert(resolved as nat == resolved_max_id(cfg, gfa, gaf, max_id as nat));
    let threshold: u64 = if cfg.keep_n_longest > 0 {
        match gaf_nth_longest_read(gaf_lines, cfg.keep_n_longest, cfg.min_length, cfg.max_length) {
            Ok(t) => t,
            Err(e) => {
                return Err(e);
            },
        }
    } else {
        0
    };
    assert(threshold == threshold_spec(cfg, gaf));
    let mut draws: Vec<u64> = Vec::new();
    while draws.len() < gaf_lines.len()
        invariant
            draws@.len() <= gaf_lines@.len(),
        decreases gaf_lines@.len() - draws@.len(),
    {
        let d = match cfg.sampling {
            Sampling::KeepAll => 0u64,
            Sampling::Rate(_) => random_word(),
        };
        draws.push(d);
    }
    match emit_rows(gaf_lines, cfg, &graph, resolved, threshold, &draws) {
        Ok(rows) => {
            proof {
                let rmax = resolved_max_id(cfg, gfa, gaf, max_id as nat);
                let thr = threshold_spec(cfg, gaf);
                if cfg.sampling == Sampling::KeepAll {
                    assert forall|d2: Seq<u64>|
                        #[trigger] output_rows(gaf, cfg, &graph, rmax, thr, d2) == output_rows(
                            gaf,
                            cfg,
                            &graph,
                            rmax,
                            thr,
                            draws@,
                        ) by {
                        lemma_keep_all_rows(gaf, cfg, &graph, rmax, thr, d2, draws@);
                    }
                }
            }
            Ok(rows)
        },
        Err(e) => {
            assert(!all_emittable(
                gaf,
                cfg,
                resolved_max_id(cfg, gfa, gaf, max_id as nat),
                threshold_spec(cfg, gaf),
                draws@,
            ));
            Err(e)
        },
    }
}

} // verus!
