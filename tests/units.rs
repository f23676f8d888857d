use bedanno::attributes::Attributes;
use bedanno::interval::Interval;
use bedanno::contig::{add_query_interval, new_query_list};
use bedanno::rank::{best_candidate, rank_key, resolve_all_overlaps};
use bedanno::record::{Annotation, GffLine};
use bedanno::sweep::find_overlaps;
use bedanno::text::{parse_u64, split_on};

fn chars(s: &str) -> Vec<char> {
    s.chars().collect()
}

fn iv(start: u64, end: u64) -> Interval {
    Interval::new(start, end)
}

fn annotation(line: &str) -> Annotation {
    let g = GffLine::from_line(line).expect("line");
    Annotation::from_gff_line(&g).ok().expect("attributes")
}

#[test]
fn overlap_is_asymmetric() {
    assert!(iv(10, 20).overlapping(&iv(20, 30)));
    assert!(!iv(20, 30).overlapping(&iv(10, 20)));
    assert!(iv(15, 18).overlapping(&iv(10, 20)));
    assert!(!iv(400, 500).overlapping(&iv(0, 5)));
}

#[test]
fn split_keeps_empty_fields() {
    let parts: Vec<String> = split_on(&chars("a;;b;"), ';')
        .iter()
        .map(|p| p.iter().collect())
        .collect();
    assert_eq!(parts, vec!["a", "", "b", ""]);
}

#[test]
fn parse_numbers() {
    assert_eq!(parse_u64(&chars("0")), Some(0));
    assert_eq!(parse_u64(&chars("11144667")), Some(11144667));
    assert_eq!(parse_u64(&chars("18446744073709551615")), Some(u64::MAX));
    assert_eq!(parse_u64(&chars("18446744073709551616")), None);
    assert_eq!(parse_u64(&chars("")), None);
    assert_eq!(parse_u64(&chars("12a")), None);
    assert_eq!(parse_u64(&chars("+5")), Some(5));
    assert_eq!(parse_u64(&chars("+")), None);
    assert_eq!(parse_u64(&chars("++5")), None);
    assert_eq!(parse_u64(&chars("-5")), None);
}

#[test]
fn gff_line_fields() {
    let g = GffLine::from_line("chr7\thavana\texon\t101\t200\t.\t+\t.\tgene_name=ABC;").unwrap();
    assert_eq!(g.contig, "chr7");
    assert_eq!(g.feature_type, "exon");
    assert_eq!(g.interval, iv(100, 200));
    assert_eq!(g.annotation, "gene_name=ABC;");
    assert!(GffLine::from_line("chr7\thavana\texon\t101\tx\t.\t+\t.\tg=1;").is_none());
    assert!(GffLine::from_line("chr7\thavana\texon\t300\t200\t.\t+\t.\tg=1;").is_none());
}

#[test]
fn attributes_both_dialects() {
    let a = Attributes::parse(&chars("gene_id \"G1\"; level 2; tag=basic; tag \"MANE_Select\";")).ok().unwrap();
    let get = |k: &str| a.get(&k.to_string()).cloned();
    assert_eq!(get("gene_id"), Some("G1".to_string()));
    assert_eq!(get("level"), Some("2".to_string()));
    assert_eq!(get("tag"), Some("MANE_Select".to_string()));
    assert_eq!(get("absent"), None);
    let e = Attributes::parse(&chars("a=1; novalue ;")).err().unwrap();
    let e: String = e.iter().collect();
    assert_eq!(e, " novalue ");
    let e = Attributes::parse(&chars("a=1; ;")).err().unwrap();
    let e: String = e.iter().collect();
    assert_eq!(e, " ");
    let v = Attributes::parse(&chars("k=a b;")).ok().unwrap();
    assert_eq!(v.get(&"k".to_string()).cloned(), Some("a b".to_string()));
}

#[test]
fn annotation_fields() {
    let a = annotation("chr1\ts\tgene\t1\t10\t.\t+\t.\tgene_name \"N\"; tag \"MANE_Select\"; transcript_support_level \"NA\"; level 3; transcript_type \"protein_coding\";");
    assert_eq!(a.gene_name, Some("N".to_string()));
    assert!(a.mane);
    assert_eq!(a.tsl, Some("NA".to_string()));
    assert_eq!(a.level, 3);
    assert_eq!(a.transcript_type, Some("protein_coding".to_string()));
    let b = annotation("chr1\ts\tgene\t1\t10\t.\t+\t.\tlevel 300;");
    assert_eq!(b.level, 255);
    let c = annotation("chr1\ts\tgene\t+1\t10\t.\t+\t.\tlevel +1;");
    assert_eq!(c.level, 1);
    assert_eq!(c.interval, iv(0, 10));
    assert!(!b.mane);
    assert_eq!(b.gene_name, None);
}

#[test]
fn rank_key_fields() {
    let a = annotation("chr1\ts\tstart_codon\t21\t60\t.\t+\t.\tlevel 1; transcript_support_level \"3\"; transcript_type \"protein_coding\"; tag \"MANE_Select\";");
    let k = rank_key(&iv(10, 50), &a);
    assert_eq!((k.feature, k.mane, k.tsl, k.level, k.coding), (2, 0, 2, 1, 0));
    assert_eq!(k.extent, 30);
    let b = annotation("chr1\ts\tregion\t1\t60\t.\t+\t.\tx=1;");
    let k = rank_key(&iv(10, 50), &b);
    assert_eq!((k.feature, k.mane, k.tsl, k.level, k.coding), (255, 255, 255, 255, 255));
    assert_eq!(k.extent, 50);
}

#[test]
fn best_candidate_is_first_lowest() {
    let t = vec![
        annotation("chr1\ts\tgene\t1\t100\t.\t+\t.\tgene_name=A;"),
        annotation("chr1\ts\texon\t1\t100\t.\t+\t.\tgene_name=B;"),
        annotation("chr1\ts\texon\t1\t100\t.\t+\t.\tgene_name=C;"),
    ];
    assert_eq!(best_candidate(&iv(10, 20), &t, &vec![0, 1, 2]), Some(1));
    assert_eq!(best_candidate(&iv(10, 20), &t, &vec![2, 1]), Some(0));
    assert_eq!(best_candidate(&iv(10, 20), &t, &vec![]), None);
    let r = resolve_all_overlaps(&vec![iv(10, 20), iv(30, 40)], &t, &vec![vec![0, 2], vec![]]);
    assert_eq!(r, vec![Some(2), None]);
}

#[test]
fn sweep_reports_overlaps() {
    let queries = vec![iv(10, 50), iv(100, 150), iv(400, 500), iv(600, 700)];
    let targets = vec![iv(0, 5), iv(20, 60), iv(30, 40), iv(90, 170), iv(200, 300), iv(550, 650), iv(600, 700), iv(800, 900)];
    let r = find_overlaps(&queries, &targets);
    assert_eq!(r, vec![vec![1, 2], vec![3], vec![], vec![5, 6]]);
}

#[test]
fn sweep_carries_window_one_query() {
    // Only the targets newly collected for a query are carried to the next.
    let queries = vec![iv(10, 20), iv(30, 40), iv(50, 60)];
    let targets = vec![iv(0, 100), iv(15, 35)];
    let r = find_overlaps(&queries, &targets);
    assert_eq!(r, vec![vec![0, 1], vec![0, 1], vec![]]);
}

#[test]
fn sweep_with_no_targets() {
    let r = find_overlaps(&vec![iv(1, 2)], &vec![]);
    assert_eq!(r, vec![Vec::<usize>::new()]);
}

#[test]
fn query_list_merges_and_sorts() {
    let mut l = new_query_list();
    add_query_interval(&mut l, iv(30, 40));
    add_query_interval(&mut l, iv(10, 20));
    add_query_interval(&mut l, iv(30, 40));
    let keys: Vec<(u64, u64)> = l.keys().cloned().collect();
    assert_eq!(keys, vec![(10, 20), (30, 40)]);
}

#[test]
fn cds_chosen_in_either_order() {
    let t = vec![
        annotation("chr1\ts\tgene\t1\t100\t.\t+\t.\tgene_name=G;level=1;tag=MANE_Select;"),
        annotation("chr1\ts\tCDS\t50\t60\t.\t+\t.\tgene_name=C;"),
    ];
    let q = vec![iv(40, 55)];
    assert_eq!(resolve_all_overlaps(&q, &t, &vec![vec![0, 1]]), vec![Some(1)]);
    assert_eq!(resolve_all_overlaps(&q, &t, &vec![vec![1, 0]]), vec![Some(1)]);
}
