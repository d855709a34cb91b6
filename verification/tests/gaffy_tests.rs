use gaffy::emit::{matrix_header, matrix_row, vectorize_header, vectorize_rows};
use gaffy::graph::GfaGraph;
use gaffy::num::{format_u64, parse_u64};
use gaffy::paths::decode_path;
use gaffy::pipeline::{do_matrix, RunConfig, Sampling};
use gaffy::records::{parse_record, trim_name};
use gaffy::stats::{gaf_max_id, gaf_nth_longest_read};
use gaffy::GafError;

fn b(s: &str) -> Vec<u8> {
    s.as_bytes().to_vec()
}

fn lines(ls: &[&str]) -> Vec<Vec<u8>> {
    ls.iter().map(|s| b(s)).collect()
}

fn cfg() -> RunConfig {
    RunConfig {
        vectorize: false,
        binary_out: true,
        min_length: 0,
        max_length: u64::MAX,
        trim_read_name: false,
        group_name: None,
        keep_n_longest: 0,
        sampling: Sampling::KeepAll,
    }
}

fn rows_as_strings(rows: &[Vec<u8>]) -> Vec<String> {
    rows.iter().map(|r| String::from_utf8(r.clone()).unwrap()).collect()
}

#[test]
fn parse_u64_reads_decimal() {
    assert_eq!(parse_u64(b"42".as_slice()), Some(42));
    assert_eq!(parse_u64(b"0".as_slice()), Some(0));
    assert_eq!(parse_u64(b"007".as_slice()), Some(7));
    assert_eq!(parse_u64(b"18446744073709551615".as_slice()), Some(u64::MAX));
}

#[test]
fn parse_u64_rejects_bad_input() {
    assert_eq!(parse_u64(b"".as_slice()), None);
    assert_eq!(parse_u64(b"12a".as_slice()), None);
    assert_eq!(parse_u64(b"-3".as_slice()), None);
    assert_eq!(parse_u64(b"18446744073709551616".as_slice()), None);
}

#[test]
fn format_u64_writes_decimal() {
    assert_eq!(format_u64(0), b"0".to_vec());
    assert_eq!(format_u64(7), b"7".to_vec());
    assert_eq!(format_u64(1234), b"1234".to_vec());
    assert_eq!(format_u64(u64::MAX), b"18446744073709551615".to_vec());
}

#[test]
fn decode_path_reads_ids() {
    let ids = decode_path(&b(">12<34>5")).unwrap();
    assert_eq!(ids, vec![12, 34, 5]);
}

#[test]
fn decode_path_drops_empty_tokens() {
    let ids = decode_path(&b("><>7>>8")).unwrap();
    assert_eq!(ids, vec![7, 8]);
    let ids = decode_path(&b("")).unwrap();
    assert_eq!(ids, Vec::<usize>::new());
}

#[test]
fn decode_path_rejects_bad_tokens() {
    assert_eq!(decode_path(&b(">x")), Err(GafError::InvalidNumber));
    assert_eq!(decode_path(&b(">0")), Err(GafError::InvalidNumber));
}

#[test]
fn decode_rejoin_redecode_is_identity() {
    let ids = decode_path(&b(">12<34>5")).unwrap();
    let mut rejoined: Vec<u8> = Vec::new();
    for id in &ids {
        rejoined.push(b'<');
        rejoined.extend_from_slice(format_u64(*id as u64).as_slice());
    }
    assert_eq!(rejoined, b("<12<34<5"));
    assert_eq!(decode_path(&rejoined).unwrap(), ids);
}

#[test]
fn trim_name_takes_first_word() {
    assert_eq!(trim_name(&b("ab cd")).unwrap(), b("ab"));
    assert_eq!(trim_name(&b("  x")).unwrap(), b("x"));
    assert_eq!(trim_name(&b("solo")).unwrap(), b("solo"));
    assert_eq!(trim_name(&b("   ")), Err(GafError::EmptyName));
}

#[test]
fn parse_record_reads_fields() {
    let rec = parse_record(&b("read1\t20\t0\t20\t+\t>1>2\textra"), false).unwrap();
    assert_eq!(rec.name, b("read1"));
    assert_eq!(rec.query_length, 20);
    assert_eq!(rec.path, b(">1>2"));
}

#[test]
fn parse_record_trims_name_on_request() {
    let rec = parse_record(&b("read1 suffix\t20\t*\t*\t*\t>1"), true).unwrap();
    assert_eq!(rec.name, b("read1"));
    let err = parse_record(&b(" \t20\t*\t*\t*\t>1"), true);
    assert!(matches!(err, Err(GafError::EmptyName)));
}

#[test]
fn parse_record_rejects_malformed_lines() {
    assert!(matches!(parse_record(&b("read1\t20\t*"), false), Err(GafError::MissingField)));
    assert!(matches!(
        parse_record(&b("read1\tabc\t*\t*\t*\t>1"), false),
        Err(GafError::InvalidNumber)
    ));
}

#[test]
fn graph_index_records_lengths() {
    let gfa = lines(&["S\t1\tACGT", "L\t1\t+\t2\t+\t0M", "S\t2\tACGTACG"]);
    let g = GfaGraph::from_gfa(&gfa).unwrap();
    assert!(g.loaded());
    assert_eq!(g.get_max_id(), 2);
    assert_eq!(g.get_node_length(1), 4);
    assert_eq!(g.get_node_length(2), 7);
}

#[test]
fn graph_index_last_declaration_wins() {
    let gfa = lines(&["S\t1\tACGT", "S\t1\tAC"]);
    let g = GfaGraph::from_gfa(&gfa).unwrap();
    assert_eq!(g.get_max_id(), 1);
    assert_eq!(g.get_node_length(1), 2);
}

#[test]
fn graph_index_empty_means_unloaded() {
    let g = GfaGraph::new();
    assert!(!g.loaded());
    assert_eq!(g.get_max_id(), 0);
    let g2 = GfaGraph::from_gfa(&lines(&["H\tVN:Z:1.0"])).unwrap();
    assert!(!g2.loaded());
}

#[test]
fn graph_index_rejects_bad_segment_lines() {
    assert!(matches!(
        GfaGraph::from_gfa(&lines(&["S\t1"])),
        Err(GafError::MissingField)
    ));
    assert!(matches!(
        GfaGraph::from_gfa(&lines(&["S\tzero\tACGT"])),
        Err(GafError::InvalidNumber)
    ));
}

#[test]
fn gaf_max_id_scans_all_paths() {
    let gaf = lines(&["a\t5\t*\t*\t*\t>1>9", "b\t6\t*\t*\t*\t<3"]);
    assert_eq!(gaf_max_id(&gaf).unwrap(), 9);
}

#[test]
fn nth_longest_picks_closed_lower_bound() {
    let gaf = lines(&[
        "a\t10\t*\t*\t*\t>1",
        "b\t30\t*\t*\t*\t>1",
        "c\t20\t*\t*\t*\t>1",
        "d\t30\t*\t*\t*\t>1",
    ]);
    assert_eq!(gaf_nth_longest_read(&gaf, 2, 0, u64::MAX).unwrap(), 30);
    assert_eq!(gaf_nth_longest_read(&gaf, 3, 0, u64::MAX).unwrap(), 20);
    // more asked for than there are reads: the smallest qualifying length
    assert_eq!(gaf_nth_longest_read(&gaf, 10, 0, u64::MAX).unwrap(), 10);
    // bounds applied before the cutoff
    assert_eq!(gaf_nth_longest_read(&gaf, 1, 0, 25).unwrap(), 20);
}

#[test]
fn nth_longest_needs_a_qualifying_read() {
    let gaf = lines(&["a\t10\t*\t*\t*\t>1"]);
    assert_eq!(
        gaf_nth_longest_read(&gaf, 1, 100, 10),
        Err(GafError::NoQualifyingReads)
    );
}

#[test]
fn weighted_matrix_row_sums_node_lengths() {
    let gfa = lines(&["S\t1\tACGT", "S\t2\tACGTACG"]);
    let gaf = lines(&["read1\t20\t*\t*\t*\t>1>2"]);
    let mut c = cfg();
    c.binary_out = false;
    let rows = do_matrix(&gaf, Some(&gfa), &c, 0).unwrap();
    let rows = rows_as_strings(&rows);
    assert_eq!(rows[0], "aln.name\tquery.length\tnode.count\tnode.1\tnode.2");
    assert_eq!(rows[1], "read1\t20\t11\t4\t7");
}

#[test]
fn binary_matrix_row_marks_presence() {
    let gfa = lines(&["S\t1\tACGT", "S\t2\tACGTACG"]);
    let gaf = lines(&["read1\t20\t*\t*\t*\t>1>2"]);
    let rows = do_matrix(&gaf, Some(&gfa), &cfg(), 0).unwrap();
    let rows = rows_as_strings(&rows);
    assert_eq!(rows[1], "read1\t20\t2\t1\t1");
}

#[test]
fn repeated_visits_saturate_at_presence() {
    let gaf = lines(&["r\t10\t*\t*\t*\t>3<3"]);
    let rows = do_matrix(&gaf, None, &cfg(), 0).unwrap();
    let rows = rows_as_strings(&rows);
    assert_eq!(rows[0], "aln.name\tquery.length\tnode.count\tnode.1\tnode.2\tnode.3");
    assert_eq!(rows[1], "r\t10\t1\t0\t0\t1");
}

#[test]
fn vectorize_emits_one_row_per_traversal() {
    let gaf = lines(&["r1\t50\t*\t*\t*\t>1>2"]);
    let mut c = cfg();
    c.vectorize = true;
    let rows = do_matrix(&gaf, None, &c, 0).unwrap();
    let rows = rows_as_strings(&rows);
    assert_eq!(rows.len(), 3);
    assert_eq!(rows[0], "aln.name\tquery.length\tnode.id\trank");
    assert_eq!(rows[1], "r1\t50\t1\t1");
    assert_eq!(rows[2], "r1\t50\t2\t2");
}

#[test]
fn vectorize_row_count_matches_nonempty_tokens() {
    let out = vectorize_rows(None, &b("r"), 9, &b("><>7>>8")).unwrap();
    assert_eq!(out.len(), 2);
    let empty = vectorize_rows(None, &b("r"), 9, &b("")).unwrap();
    assert_eq!(empty.len(), 0);
}

#[test]
fn matrix_count_column_equals_sum_of_value_columns() {
    let gfa = lines(&["S\t1\tAC", "S\t2\tACGTA", "S\t3\tACG"]);
    let g = GfaGraph::from_gfa(&gfa).unwrap();
    let row = matrix_row(None, &b("r"), 12, &b(">1>3"), &g, false, 3).unwrap();
    let text = String::from_utf8(row).unwrap();
    let cells: Vec<&str> = text.split('\t').collect();
    assert_eq!(cells.len(), 6);
    let count: u64 = cells[2].parse().unwrap();
    let sum: u64 = cells[3..].iter().map(|c| c.parse::<u64>().unwrap()).sum();
    assert_eq!(count, sum);
    assert_eq!(count, 5);
}

#[test]
fn length_filter_bounds_are_closed() {
    let gaf = lines(&[
        "a\t5\t*\t*\t*\t>1",
        "b\t10\t*\t*\t*\t>1",
        "c\t20\t*\t*\t*\t>1",
        "d\t25\t*\t*\t*\t>1",
    ]);
    let mut c = cfg();
    c.min_length = 10;
    c.max_length = 20;
    let rows = do_matrix(&gaf, None, &c, 0).unwrap();
    let rows = rows_as_strings(&rows);
    assert_eq!(rows.len(), 3);
    assert!(rows[1].starts_with("b\t10"));
    assert!(rows[2].starts_with("c\t20"));
}

#[test]
fn keep_n_longest_keeps_threshold_ties() {
    let gaf = lines(&[
        "a\t10\t*\t*\t*\t>1",
        "b\t30\t*\t*\t*\t>1",
        "c\t20\t*\t*\t*\t>1",
        "d\t30\t*\t*\t*\t>1",
    ]);
    let mut c = cfg();
    c.keep_n_longest = 1;
    let rows = do_matrix(&gaf, None, &c, 0).unwrap();
    let rows = rows_as_strings(&rows);
    // both reads of length 30 tie at the threshold and are retained
    assert_eq!(rows.len(), 3);
    assert!(rows[1].starts_with("b\t30"));
    assert!(rows[2].starts_with("d\t30"));
}

#[test]
fn sampling_rate_one_keeps_every_filtered_record() {
    let gaf = lines(&["a\t5\t*\t*\t*\t>1", "b\t10\t*\t*\t*\t>1"]);
    let mut c = cfg();
    c.min_length = 6;
    c.sampling = Sampling::KeepAll;
    let rows = do_matrix(&gaf, None, &c, 0).unwrap();
    assert_eq!(rows_as_strings(&rows).len(), 2);
    assert!(rows_as_strings(&rows)[1].starts_with("b\t10"));
}

#[test]
fn sampling_rate_zero_drops_every_record() {
    let gaf = lines(&["a\t5\t*\t*\t*\t>1", "b\t10\t*\t*\t*\t>1"]);
    let mut c = cfg();
    c.sampling = Sampling::Rate(0);
    let rows = do_matrix(&gaf, None, &c, 0).unwrap();
    assert_eq!(rows.len(), 1);
}

#[test]
fn group_label_prefixes_every_row() {
    let gaf = lines(&["r1\t50\t*\t*\t*\t>1"]);
    let mut c = cfg();
    c.vectorize = true;
    c.group_name = Some(b("G1"));
    let rows = do_matrix(&gaf, None, &c, 0).unwrap();
    let rows = rows_as_strings(&rows);
    assert_eq!(rows[0], "group.name\taln.name\tquery.length\tnode.id\trank");
    assert_eq!(rows[1], "G1\tr1\t50\t1\t1");
}

#[test]
fn headers_match_their_columns() {
    let v = vectorize_header(None);
    assert_eq!(v, b("aln.name\tquery.length\tnode.id\trank"));
    let m = matrix_header(Some(&b("G")), 2);
    assert_eq!(m, b("group.name\taln.name\tquery.length\tnode.count\tnode.1\tnode.2"));
    let m0 = matrix_header(None, 0);
    assert_eq!(m0, b("aln.name\tquery.length\tnode.count"));
}

#[test]
fn run_rejects_node_beyond_matrix() {
    let gfa = lines(&["S\t1\tACGT"]);
    let gaf = lines(&["r\t10\t*\t*\t*\t>2"]);
    assert_eq!(do_matrix(&gaf, Some(&gfa), &cfg(), 0), Err(GafError::NodeOutOfRange));
}

#[test]
fn run_rejects_malformed_records() {
    let gaf = lines(&["r\t10\t*"]);
    assert_eq!(do_matrix(&gaf, None, &cfg(), 0), Err(GafError::MissingField));
    let gaf2 = lines(&["r\tten\t*\t*\t*\t>1"]);
    assert_eq!(do_matrix(&gaf2, None, &cfg(), 0), Err(GafError::InvalidNumber));
}

#[test]
fn unfiltered_bad_path_still_fails_the_id_prepass() {
    // matrix mode without a graph scans every path, filtered or not
    let gaf = lines(&["r\t10\t*\t*\t*\t>x"]);
    let mut c = cfg();
    c.min_length = 100;
    assert_eq!(do_matrix(&gaf, None, &c, 0), Err(GafError::InvalidNumber));
}
