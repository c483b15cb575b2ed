use pairedscan::{
    check_pairing, join_groups, classify, emit, has_suffix, infer_prefixes, is_hidden, pair_files,
    parse_filelist, ArgParser, Mate, PairError,
};

fn config(interleave: bool) -> ArgParser {
    ArgParser {
        name: String::from("."),
        recursive: false,
        gzipped: false,
        interleave,
        prefix_1: None,
        prefix_2: None,
        prefix_paired: None,
        absolute: false,
    }
}

fn strings(items: &[&str]) -> Vec<String> {
    items.iter().map(|s| s.to_string()).collect()
}

#[test]
fn grouped_output_lists_first_mates_then_second_mates() {
    let files = strings(&["a_R1.fq", "a_R2.fq", "b_R1.fq", "b_R2.fq"]);
    let out = parse_filelist(&files, &config(false)).unwrap();
    assert_eq!(out, strings(&["a_R1.fq", "b_R1.fq", "a_R2.fq", "b_R2.fq"]));
}

#[test]
fn interleaved_output_alternates_mates() {
    let files = strings(&["a_R1.fq", "a_R2.fq", "b_R1.fq", "b_R2.fq"]);
    let out = parse_filelist(&files, &config(true)).unwrap();
    assert_eq!(out, strings(&["a_R1.fq", "a_R2.fq", "b_R1.fq", "b_R2.fq"]));
}

#[test]
fn differing_identities_are_reported_per_side() {
    let files = strings(&["a_R1.fq", "b_R2.fq"]);
    match parse_filelist(&files, &config(false)) {
        Err(PairError::IdentityMismatch { missing_in_second, missing_in_first }) => {
            assert_eq!(missing_in_second, strings(&["a_.fq"]));
            assert_eq!(missing_in_first, strings(&["b_.fq"]));
        },
        other => panic!("unexpected result: {:?}", other),
    }
}

#[test]
fn shared_token_puts_a_file_in_both_groups() {
    let mut c = config(true);
    c.prefix_paired = Some(String::from("X"));
    let files = strings(&["sample_X.fq"]);
    let out = parse_filelist(&files, &c).unwrap();
    assert_eq!(out, strings(&["sample_X.fq", "sample_X.fq"]));
}

#[test]
fn first_prefix_alone_is_a_configuration_error() {
    let mut c = config(false);
    c.prefix_1 = Some(String::from("_1"));
    assert!(matches!(infer_prefixes(&c), Err(PairError::PartialPrefixes)));
    let files = strings(&["a_1.fq"]);
    assert!(matches!(parse_filelist(&files, &c), Err(PairError::PartialPrefixes)));
}

#[test]
fn second_prefix_alone_is_a_configuration_error() {
    let mut c = config(false);
    c.prefix_2 = Some(String::from("_2"));
    assert!(matches!(infer_prefixes(&c), Err(PairError::PartialPrefixes)));
}

#[test]
fn shared_with_individual_prefix_is_a_conflict() {
    let mut c = config(false);
    c.prefix_paired = Some(String::from("X"));
    c.prefix_2 = Some(String::from("_2"));
    assert!(matches!(infer_prefixes(&c), Err(PairError::ConflictingPrefixes)));
}

#[test]
fn default_patterns_are_r1_and_r2() {
    let (p, q) = infer_prefixes(&config(false)).unwrap();
    assert_eq!(p.source(), "(.*?)R1(.*)");
    assert_eq!(q.source(), "(.*?)R2(.*)");
}

#[test]
fn individual_prefixes_build_lazy_patterns() {
    let mut c = config(false);
    c.prefix_1 = Some(String::from("_1"));
    c.prefix_2 = Some(String::from("_2"));
    let (p, q) = infer_prefixes(&c).unwrap();
    assert_eq!(p.source(), "(.*?)_1(.*)");
    assert_eq!(q.source(), "(.*?)_2(.*)");
    let files = strings(&["s_1.fq", "s_2.fq"]);
    assert_eq!(parse_filelist(&files, &c).unwrap(), strings(&["s_1.fq", "s_2.fq"]));
}

#[test]
fn shared_prefix_gives_the_same_pattern_twice() {
    let mut c = config(false);
    c.prefix_paired = Some(String::from("_R"));
    let (p, q) = infer_prefixes(&c).unwrap();
    assert_eq!(p.source(), "(.*?)_R(.*)");
    assert_eq!(q.source(), p.source());
}

#[test]
fn invalid_prefix_is_a_configuration_error() {
    let mut c = config(false);
    c.prefix_1 = Some(String::from("(["));
    c.prefix_2 = Some(String::from("_2"));
    match infer_prefixes(&c) {
        Err(PairError::InvalidPattern { pattern }) => assert_eq!(pattern, "(.*?)([(.*)"),
        _ => panic!("expected an invalid pattern"),
    }
}

#[test]
fn file_matching_neither_pattern_is_named() {
    let files = strings(&["a_R1.fq", "dir/notes.fq"]);
    match parse_filelist(&files, &config(false)) {
        Err(PairError::Unmatched { file_name, first, second }) => {
            assert_eq!(file_name, "notes.fq");
            assert_eq!(first, "(.*?)R1(.*)");
            assert_eq!(second, "(.*?)R2(.*)");
        },
        other => panic!("unexpected result: {:?}", other),
    }
}

#[test]
fn path_without_file_name_is_an_error() {
    let files = strings(&["a_R1.fq", "/"]);
    match parse_filelist(&files, &config(false)) {
        Err(PairError::NoFileName { path }) => assert_eq!(path, "/"),
        other => panic!("unexpected result: {:?}", other),
    }
}

#[test]
fn surplus_of_first_mates_is_a_count_mismatch() {
    let files = strings(&["a_R1.fq", "b_R1.fq", "a_R2.fq"]);
    match parse_filelist(&files, &config(false)) {
        Err(PairError::CountMismatch { surplus, .. }) => assert_eq!(surplus, Mate::First),
        other => panic!("unexpected result: {:?}", other),
    }
}

#[test]
fn surplus_of_second_mates_is_a_count_mismatch() {
    let files = strings(&["a_R1.fq", "a_R2.fq", "b_R2.fq"]);
    match parse_filelist(&files, &config(false)) {
        Err(PairError::CountMismatch { first, second, surplus }) => {
            assert_eq!(surplus, Mate::Second);
            assert_eq!(first, "(.*?)R1(.*)");
            assert_eq!(second, "(.*?)R2(.*)");
        },
        other => panic!("unexpected result: {:?}", other),
    }
}

#[test]
fn matching_uses_the_file_name_and_emits_full_paths() {
    let files = strings(&["R1dir/x_R2.fq", "R1dir/x_R1.fq"]);
    let out = parse_filelist(&files, &config(false)).unwrap();
    assert_eq!(out, strings(&["R1dir/x_R1.fq", "R1dir/x_R2.fq"]));
}

#[test]
fn empty_candidate_list_pairs_to_nothing() {
    let files: Vec<String> = Vec::new();
    assert_eq!(parse_filelist(&files, &config(true)).unwrap(), Vec::<String>::new());
}

#[test]
fn disjoint_tokens_partition_the_candidates() {
    let paths = strings(&["a_R1.fq", "a_R2.fq", "b_R1.fq", "b_R2.fq", "c_R2.fq"]);
    let in1 = vec![true, false, true, false, false];
    let in2 = vec![false, true, false, true, true];
    let (g1, g2) = classify(&paths, &in1, &in2).unwrap();
    assert_eq!(g1.len() + g2.len(), paths.len());
    assert!(g1.iter().all(|f| !g2.contains(f)));
    assert_eq!(g1, strings(&["a_R1.fq", "b_R1.fq"]));
    assert_eq!(g2, strings(&["a_R2.fq", "b_R2.fq", "c_R2.fq"]));
}

#[test]
fn classify_reports_first_unmatched_index() {
    let paths = strings(&["a", "b", "c"]);
    assert_eq!(classify(&paths, &vec![true, false, false], &vec![true, false, true]), Err(1));
}

#[test]
fn classify_keeps_dual_matches_in_both_groups() {
    let paths = strings(&["x", "y"]);
    let (g1, g2) = classify(&paths, &vec![true, true], &vec![true, false]).unwrap();
    assert_eq!(g1, strings(&["x", "y"]));
    assert_eq!(g2, strings(&["x"]));
}

#[test]
fn rerunning_on_own_output_gives_same_output() {
    for interleave in [false, true] {
        let c = config(interleave);
        let files = strings(&["a_R1.fq", "a_R2.fq", "b_R1.fq", "b_R2.fq"]);
        let out = parse_filelist(&files, &c).unwrap();
        let again = parse_filelist(&out, &c).unwrap();
        assert_eq!(again, out);
    }
}

#[test]
fn validation_ignores_identity_order() {
    let p = String::from("p1");
    let q = String::from("p2");
    let ids1 = strings(&["a", "b", "c"]);
    let ids2 = strings(&["c", "a", "b"]);
    assert!(check_pairing(&p, &q, &ids1, &ids2).is_ok());
    let ids3 = strings(&["c", "a", "d"]);
    match check_pairing(&p, &q, &ids1, &ids3) {
        Err(PairError::IdentityMismatch { missing_in_second, missing_in_first }) => {
            assert_eq!(missing_in_second, strings(&["b"]));
            assert_eq!(missing_in_first, strings(&["d"]));
        },
        other => panic!("unexpected result: {:?}", other),
    }
}

#[test]
fn validation_collapses_duplicate_identities() {
    let p = String::from("p1");
    let q = String::from("p2");
    let ids1 = strings(&["a", "a", "b"]);
    let ids2 = strings(&["a", "b", "b"]);
    assert!(check_pairing(&p, &q, &ids1, &ids2).is_ok());
    let ids4 = strings(&["x", "x", "a"]);
    match check_pairing(&p, &q, &ids4, &ids1) {
        Err(PairError::IdentityMismatch { missing_in_second, missing_in_first }) => {
            assert_eq!(missing_in_second, strings(&["x"]));
            assert_eq!(missing_in_first, strings(&["b"]));
        },
        other => panic!("unexpected result: {:?}", other),
    }
}

#[test]
fn validation_checks_counts_first() {
    let p = String::from("p1");
    let q = String::from("p2");
    match check_pairing(&p, &q, &strings(&["a"]), &strings(&["a", "a"])) {
        Err(PairError::CountMismatch { surplus, .. }) => assert_eq!(surplus, Mate::Second),
        other => panic!("unexpected result: {:?}", other),
    }
}

#[test]
fn emit_groups_or_interleaves() {
    let g1 = strings(&["a1", "b1"]);
    let g2 = strings(&["a2", "b2"]);
    assert_eq!(emit(&g1, &g2, false), strings(&["a1", "b1", "a2", "b2"]));
    assert_eq!(emit(&g1, &g2, true), strings(&["a1", "a2", "b1", "b2"]));
}

#[test]
fn pair_files_with_inferred_patterns() {
    let mut c = config(true);
    c.prefix_1 = Some(String::from("_1"));
    c.prefix_2 = Some(String::from("_2"));
    let (p, q) = infer_prefixes(&c).unwrap();
    let files = strings(&["d/x_1.fq", "d/x_2.fq", "d/y_1.fq", "d/y_2.fq"]);
    let out = pair_files(&files, &p, &q, true).unwrap();
    assert_eq!(out, strings(&["d/x_1.fq", "d/x_2.fq", "d/y_1.fq", "d/y_2.fq"]));
}

#[test]
fn suffix_check_looks_at_the_file_name() {
    let suffixes = [".fq", ".fastq"];
    assert!(has_suffix("dir/a_R1.fq", &suffixes));
    assert!(has_suffix("a_R1.fastq", &suffixes));
    assert!(!has_suffix("a_R1.fq.gz", &suffixes));
    assert!(has_suffix("a_R1.fq.gz", &[".fq.gz", ".fastq.gz"]));
    assert!(!has_suffix("/", &suffixes));
    assert!(!has_suffix("a.fq", &[]));
}

#[test]
fn hidden_names_start_with_a_dot() {
    assert!(is_hidden(".hidden_R1.fq"));
    assert!(!is_hidden("visible_R1.fq"));
    assert!(!is_hidden(""));
}

#[test]
fn custom_tokens_keep_the_text_after_the_token() {
    let mut c = config(false);
    c.prefix_1 = Some(String::from("_P1"));
    c.prefix_2 = Some(String::from("_P2"));
    let files = strings(&["s_P1_L001.fq", "s_P2_L002.fq"]);
    match parse_filelist(&files, &c) {
        Err(PairError::IdentityMismatch { missing_in_second, missing_in_first }) => {
            assert_eq!(missing_in_second, strings(&["s_L001.fq"]));
            assert_eq!(missing_in_first, strings(&["s_L002.fq"]));
        },
        other => panic!("unexpected result: {:?}", other),
    }
}

#[test]
fn shared_token_identity_drops_only_the_token() {
    let mut c = config(false);
    c.prefix_paired = Some(String::from("X"));
    let (p, q) = infer_prefixes(&c).unwrap();
    let files = strings(&["sample_X.fq"]);
    assert_eq!(pair_files(&files, &p, &q, false).unwrap(), strings(&["sample_X.fq", "sample_X.fq"]));
    let mut d = config(false);
    d.prefix_1 = Some(String::from("X"));
    d.prefix_2 = Some(String::from("Y"));
    match parse_filelist(&strings(&["sample_X.fq", "sample_Y.fa"]), &d) {
        Err(PairError::IdentityMismatch { missing_in_second, missing_in_first }) => {
            assert_eq!(missing_in_second, strings(&["sample_.fq"]));
            assert_eq!(missing_in_first, strings(&["sample_.fa"]));
        },
        other => panic!("unexpected result: {:?}", other),
    }
}

#[test]
fn join_groups_treats_missing_groups_as_empty() {
    let a = Some(String::from("sample_"));
    let b = Some(String::from(".fq"));
    assert_eq!(join_groups(&a, &b), "sample_.fq");
    assert_eq!(join_groups(&None, &b), ".fq");
    assert_eq!(join_groups(&a, &None), "sample_");
    assert_eq!(join_groups(&None, &None), "");
}
