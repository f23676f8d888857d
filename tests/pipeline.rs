use bedanno::contig::OutputRecord;
use bedanno::interval::Interval;
use bedanno::sync::{Action, AnnoError, Input, QueryRecord, Synchronizer, TargetLine};

fn to_str(lines: &[&str]) -> Vec<String> {
    lines
        .iter()
        .map(|x| x.split_whitespace().collect::<Vec<&str>>().join("\t"))
        .collect()
}

fn query_records(lines: &[String]) -> Vec<QueryRecord> {
    lines
        .iter()
        .enumerate()
        .map(|(i, l)| {
            let f: Vec<&str> = l.split('\t').collect();
            QueryRecord {
                line: i,
                contig: f[0].to_string(),
                interval: Interval { start: f[1].parse().unwrap(), end: f[2].parse().unwrap() },
            }
        })
        .collect()
}

fn row(r: &OutputRecord) -> String {
    format!("{}\t{}\t{}\t{}", r.contig, r.start, r.end, r.name)
}

fn run_lines(queries: &[String], targets: &[String]) -> Result<Vec<String>, AnnoError> {
    let mut qs = query_records(queries).into_iter();
    let mut ts = targets
        .iter()
        .enumerate()
        .map(|(i, t)| TargetLine { line: i, text: t.clone() });
    let mut sync = Synchronizer::new();
    let mut out = Vec::new();
    let mut input = Input::Resume;
    loop {
        match sync.step(input)? {
            Action::ReadQuery => input = Input::Query(qs.next()),
            Action::ReadTarget => input = Input::Target(ts.next()),
            Action::Emit(rows) => {
                out.extend(rows.iter().map(row));
                input = Input::Resume;
            }
            Action::Finished => break,
        }
    }
    Ok(out)
}

fn catalogue() -> Vec<String> {
    to_str(&[
        "chr1  havana gene 1    5    . + . gene_name=SKIP1;",
        "chr1  havana gene 21   60   . + . gene_name=LOW1;",
        "chr1  havana CDS  31   40   . + . gene_name=KEEP1;",
        "chr1  havana CDS  91   170  . + . gene_name=KEEP2;",
        "chr1  havana gene 201  300  . + . gene_name=SKIP2;",
        "chr1  havana gene 601  700  . + . gene_name=LOW4;level=2;",
        "chr1  havana gene 551  650  . + . gene_name=KEEP4;level=1;",
        "chr1  havana gene 801  900  . + . gene_name=SKIP5;",
        "chr2  havana gene 1    500  . + . gene_name=KEEPchr2;",
        "chr10 havana gene 1    500  . + . gene_name=LOWchr10;transcript_support_level=2;",
        "chr10 havana gene 1    500  . + . gene_name=KEEPchr10;transcript_support_level=1;",
        "chrX  havana gene 1    500  . + . gene_name=KEEPchrX;",
    ])
}

#[test]
fn test1() {
    let queries = to_str(&[
        "chr1  10  50",
        "chr1  100 150",
        "chr1  400 500",
        "chr1  600 700",
        "chr10 10  50",
        "chr10 55  60",
        "chr2  5   55",
        "chrX  100 200",
        "chrM  0   200",
    ]);
    let expected = to_str(&[
        "chr1  10  50  KEEP1",
        "chr1  100 150 KEEP2",
        "chr1  400 500 .",
        "chr1  600 700 KEEP4",
        "chr10 10  50  KEEPchr10",
        "chr10 55  60  KEEPchr10",
        "chr2  5   55  KEEPchr2",
        "chrX  100 200 KEEPchrX",
        "chrM  0   200 .",
    ]);
    let output = run_lines(&queries, &catalogue()).expect("Cannot annotate BED file");
    assert_eq!(expected, output);
}

#[test]
fn test2() {
    let queries = to_str(&["chr1	11144641	11144761", "chr1	11144947	11145067"]);
    let targets = vec![
        "chr1\tHAVANA\texon\t11144667\t11144886\t.\t+\t.\tgene_id \"ENSG00000225602.5\"; transcript_id \"ENST00000445982.5\"; gene_type \"lncRNA\"; gene_name \"MTOR-AS1\"; transcript_type \"lncRNA\"; transcript_name \"MTOR-AS1-202\"; exon_number 2; exon_id \"ENSE00001736483.1\"; level 2; transcript_support_level \"5\"; hgnc_id \"HGNC:40242\"; tag \"dotter_confirmed\"; tag \"basic\"; tag \"Ensembl_canonical\"; havana_gene \"OTTHUMG00000002003.1\"; havana_transcript \"OTTHUMT00000005565.1\";".to_string(),
    ];
    let expected = to_str(&[
        "chr1	11144641	11144761	MTOR-AS1",
        "chr1	11144947	11145067	.",
    ]);
    let output = run_lines(&queries, &targets).expect("Cannot annotate BED file");
    assert_eq!(expected, output);
}

#[test]
fn one_row_per_query_in_order() {
    let queries = to_str(&["chr1 1 2", "chr1 3 4", "chr1 5 9", "chr1 10 12"]);
    let output = run_lines(&queries, &catalogue()).unwrap();
    assert_eq!(output.len(), 4);
    let coords: Vec<String> = output
        .iter()
        .map(|l| l.split('\t').take(3).collect::<Vec<&str>>().join("\t"))
        .collect();
    assert_eq!(coords, queries);
}

#[test]
fn same_input_same_output() {
    let queries = to_str(&["chr1 10 50", "chr1 600 700", "chr10 10 50", "chr2 5 55"]);
    let a = run_lines(&queries, &catalogue()).unwrap();
    let b = run_lines(&queries, &catalogue()).unwrap();
    assert_eq!(a, b);
}

#[test]
fn cds_beats_gene() {
    let queries = to_str(&["chr1 10 20"]);
    let targets = to_str(&[
        "chr1 src gene 1 100 . + . gene_name=B;tag=MANE_Select;level=1;transcript_support_level=1;",
        "chr1 src CDS 5 30 . + . gene_name=A;",
    ]);
    assert_eq!(run_lines(&queries, &targets).unwrap(), to_str(&["chr1 10 20 A"]));
}

#[test]
fn lower_level_wins() {
    let queries = to_str(&["chr1 600 700"]);
    let targets = to_str(&[
        "chr1 src gene 551 650 . + . gene_name=ONE;level=1;",
        "chr1 src gene 601 700 . + . gene_name=TWO;level=2;",
    ]);
    assert_eq!(run_lines(&queries, &targets).unwrap(), to_str(&["chr1 600 700 ONE"]));
}

#[test]
fn no_overlap_gives_placeholder() {
    let queries = to_str(&["chr1 400 500"]);
    let targets = to_str(&[
        "chr1 src gene 1 5 . + . gene_name=X;",
        "chr1 src gene 601 700 . + . gene_name=Y;",
    ]);
    assert_eq!(run_lines(&queries, &targets).unwrap(), to_str(&["chr1 400 500 ."]));
}

#[test]
fn targets_read_ahead_are_buffered() {
    let queries = to_str(&["chr1 10 20", "chr2 10 20"]);
    let targets = to_str(&[
        "chr2 src gene 1 100 . + . gene_name=TWO;",
        "chr1 src gene 1 100 . + . gene_name=ONE;",
    ]);
    assert_eq!(
        run_lines(&queries, &targets).unwrap(),
        to_str(&["chr1 10 20 ONE", "chr2 10 20 TWO"])
    );
}

#[test]
fn repeated_contig_is_out_of_order() {
    let queries = to_str(&["chr1 1 2", "chr2 1 2", "chr1 3 4"]);
    match run_lines(&queries, &catalogue()) {
        Err(AnnoError::OutOfOrderContig(c, line)) => {
            assert_eq!(c, "chr1");
            assert_eq!(line, 2);
        }
        other => panic!("expected an out-of-order error, got {:?}", other.map(|v| v.len())),
    }
}

#[test]
fn empty_query_stream_is_no_output() {
    assert_eq!(run_lines(&[], &catalogue()).unwrap(), Vec::<String>::new());
}

#[test]
fn duplicate_queries_merge() {
    let queries = to_str(&["chr1 10 50", "chr1 10 50"]);
    assert_eq!(run_lines(&queries, &catalogue()).unwrap(), to_str(&["chr1 10 50 KEEP1"]));
}

#[test]
fn missing_gene_name_gives_placeholder() {
    let queries = to_str(&["chr1 10 20"]);
    let targets = to_str(&["chr1 src gene 1 100 . + . gene_id=G1;"]);
    assert_eq!(run_lines(&queries, &targets).unwrap(), to_str(&["chr1 10 20 ."]));
}

#[test]
fn header_lines_are_skipped() {
    let queries = to_str(&["chr1 10 20"]);
    let mut targets = vec!["#!genome-build GRCh38".to_string()];
    targets.extend(to_str(&["chr1 src gene 1 100 . + . gene_name=G;"]));
    assert_eq!(run_lines(&queries, &targets).unwrap(), to_str(&["chr1 10 20 G"]));
}

#[test]
fn bad_target_line_is_parse_error() {
    let queries = to_str(&["chr1 10 20"]);
    let targets = to_str(&["chr1 src gene 0 100 . + . gene_name=G;"]);
    assert!(matches!(run_lines(&queries, &targets), Err(AnnoError::Parse(0))));
    let short = to_str(&["chr1 src gene 1 100"]);
    assert!(matches!(run_lines(&queries, &short), Err(AnnoError::Parse(0))));
}

#[test]
fn reversed_query_is_parse_error() {
    let queries = to_str(&["chr1 30 20"]);
    assert!(matches!(run_lines(&queries, &catalogue()), Err(AnnoError::Parse(0))));
}

#[test]
fn malformed_attribute_is_error() {
    let queries = to_str(&["chr1 10 20"]);
    let targets = vec!["chr1\tsrc\tgene\t1\t100\t.\t+\t.\tgene_name=G;broken;".to_string()];
    match run_lines(&queries, &targets) {
        Err(AnnoError::MalformedAttribute(line, frag)) => {
            assert_eq!(line, 0);
            assert_eq!(frag, "broken");
        }
        other => panic!("expected a malformed attribute, got {:?}", other.map(|v| v.len())),
    }
}

#[test]
fn unsorted_targets_are_sorted_first() {
    let queries = to_str(&["chr1 10 20", "chr1 300 310", "chr1 600 610"]);
    let targets = to_str(&[
        "chr1 src gene 591 700 . + . gene_name=C;",
        "chr1 src gene 291 400 . + . gene_name=B;",
        "chr1 src gene 1 100 . + . gene_name=A;",
    ]);
    assert_eq!(
        run_lines(&queries, &targets).unwrap(),
        to_str(&["chr1 10 20 A", "chr1 300 310 B", "chr1 600 610 C"])
    );
}
