use cigar_parser::cigar::Cigar;
use cigar_parser::cigar::CigarError;
use cigar_parser::cigar::CigarOperation;
use cigar_parser::cigar::Strand;

#[test]
fn test_from() {
    let cig = Cigar::from_str("35M110N45M3I45M10N").unwrap();
    assert_eq!(
        cig,
        Cigar::new(vec![
            CigarOperation::Match(35),
            CigarOperation::Nskipped(110),
            CigarOperation::Match(45),
            CigarOperation::Insertion(3),
            CigarOperation::Match(45),
            CigarOperation::Nskipped(10),
        ])
    );
}

#[test]
#[should_panic]
fn test_from_panic() {
    let _cig = Cigar::from("35M110N45M3I45M10N50K");
}

#[test]
fn test_from_str() {
    let cig = Cigar::from_str("35M110N45M3I45M10N");
    assert_eq!(
        cig.unwrap(),
        Cigar::new(vec![
            CigarOperation::Match(35),
            CigarOperation::Nskipped(110),
            CigarOperation::Match(45),
            CigarOperation::Insertion(3),
            CigarOperation::Match(45),
            CigarOperation::Nskipped(10),
        ])
    );
}

#[test]
fn test_pos() {
    let cig = Cigar::from("35M110N45M3I45M10N");
    let results = cig.get_skipped_pos_on_ref(500);
    assert_eq!(results, Some(vec![535, 645, 735, 745]))
}

#[test]
fn test_pos_none() {
    let cig = Cigar::from("35M45M3I45M");
    let results = cig.get_skipped_pos_on_ref(500);
    assert_eq!(results, None)
}

#[test]
fn test_pos_2() {
    let cig = Cigar::from("2S80M53373N169M");
    let _results = cig.get_skipped_pos_on_ref(16946);
}

#[test]
fn test_match_1() {
    let cig = Cigar::from("2S80M53373N169M");
    let results = cig.does_it_match_an_intervall(500, 550, 560);
    assert_eq!(results, true)
}

#[test]
fn test_match_outofbound() {
    let cig = Cigar::from("2S80M53373N169M");
    let results = cig.does_it_match_an_intervall(500, 550, 585);
    assert_eq!(results, false)
}

#[test]
fn test_match_s_eq_e() {
    let cig = Cigar::from("2S80M53373N169M");
    let results = cig.does_it_match_an_intervall(500, 550, 550);
    assert_eq!(results, true)
}

#[test]
fn soft() {
    let cig = Cigar::from("100M45S");
    let results = cig.soft_clipped_end(&Strand::Plus, 10);
    assert_eq!(results, true)
}

#[test]
fn test_match_justinbound() {
    let cig = Cigar::from("2S80M53373N169M45S");
    let results = cig.does_it_match_an_intervall(500, 575, 579);
    assert_eq!(results, true)
}

#[test]
#[allow(non_snake_case)]
fn softR() {
    let cig = Cigar::from("2S80M53373N169M45S");
    let results = cig.soft_clipped_end(&Strand::Minus, 10);
    assert_eq!(results, false);
    let results = cig.soft_clipped_end(&Strand::Plus, 10);
    assert_eq!(results, true);
}

#[test]
fn map_region() {
    let cig = Cigar::from("11M214030N240M");
    let res = cig.get_reference_cover(20672897);
    println!("{:?}", res);
}

#[test]
fn round_trip_canonical_text() {
    for s in [
        "35M110N45M",
        "35M110N45M3I45M10N",
        "2S80M53373N169M45S",
        "0M",
        "100M",
        "10S70M20S",
        "1M2I3D4N5S6H7P",
        "",
    ] {
        let cig = Cigar::from_str(s).unwrap();
        assert_eq!(cig.to_text(), s);
    }
}

#[test]
fn leading_zeros_accepted_arithmetically() {
    let cig = Cigar::from_str("007M").unwrap();
    assert_eq!(cig, Cigar::new(vec![CigarOperation::Match(7)]));
    assert_eq!(cig.to_text(), "7M");
}

#[test]
fn grammar_rejects_extended_codes() {
    let res = Cigar::from_str("35M10X5M");
    assert!(res.is_err());
    match res {
        Err(e) => assert_eq!(e, CigarError::ParseCigarError),
        Ok(_) => panic!("X must be rejected"),
    }
    assert!(Cigar::from_str("35M10=5M").is_err());
}

#[test]
fn wildcard_parses_to_empty() {
    let cig = Cigar::from_str("*").unwrap();
    assert_eq!(cig, Cigar::new(vec![]));
    assert_eq!(cig.to_text(), "");
    assert_eq!(cig.has_skipped(), false);
    assert_eq!(cig.get_junction_position(100), None);
    // anything after the wildcard is never inspected
    let tail = Cigar::from_str("35M*??junk").unwrap();
    assert_eq!(tail, Cigar::new(vec![]));
}

#[test]
fn empty_string_parses_to_empty() {
    let cig = Cigar::from_str("").unwrap();
    assert_eq!(cig, Cigar::new(vec![]));
    assert_eq!(cig.get_end_of_aln(42), 42);
    assert_eq!(cig.get_read_length_from_cigar(), 0);
}

#[test]
fn oversized_length_is_rejected() {
    // one digit more than i64 can hold
    let res = Cigar::from_str("92233720368547758070M");
    assert!(res.is_err());
    // the largest length that fits still parses
    let ok = Cigar::from_str("9223372036854775807M").unwrap();
    assert_eq!(ok, Cigar::new(vec![CigarOperation::Match(i64::MAX)]));
}

#[test]
fn junction_positions_scenario_single_skip() {
    let cig = Cigar::from_str("35M110N45M").unwrap();
    assert_eq!(cig.get_junction_position(100), Some(vec![135, 245]));
    assert_eq!(cig.get_skipped_pos_on_ref(100), Some(vec![135, 245]));
}

#[test]
fn junction_positions_scenario_double_skip() {
    let cig = Cigar::from_str("35M110N45M3I45M10N").unwrap();
    assert_eq!(cig.get_junction_position(500), Some(vec![535, 645, 735, 745]));
}

#[test]
fn interval_fit_scenario() {
    let cig = Cigar::from_str("100M").unwrap();
    assert_eq!(cig.does_it_match_an_intervall(500, 520, 580), true);
    assert_eq!(cig.does_it_match_an_intervall(500, 520, 620), false);
}

#[test]
fn alignment_end_and_cover_scenario() {
    let cig = Cigar::from_str("50M100N75M").unwrap();
    assert_eq!(cig.get_end_of_aln(1000), 1225);
    assert_eq!(cig.get_reference_cover(1000), vec![1000, 1050, 1150, 1225]);
}

#[test]
fn soft_clip_length_scenario() {
    let cig = Cigar::from_str("10S70M20S").unwrap();
    assert_eq!(cig.get_soft_clipped_n(&Strand::Plus), Some(20));
    assert_eq!(cig.get_soft_clipped_n(&Strand::Minus), Some(10));
    assert_eq!(cig.get_soft_clipped_n(&Strand::NA), None);
}

#[test]
fn significant_soft_clip_scenario() {
    let cig = Cigar::from_str("5S70M25S").unwrap();
    assert_eq!(cig.soft_clipped_end(&Strand::Plus, 10), true);
    assert_eq!(cig.soft_clipped_end(&Strand::Minus, 10), false);
    assert_eq!(cig.soft_clipped_end(&Strand::NA, 10), false);
    // a clip of exactly the threshold is not significant
    assert_eq!(cig.soft_clipped_end(&Strand::Minus, 5), false);
    assert_eq!(cig.soft_clipped_end(&Strand::Minus, 4), true);
}

#[test]
fn soft_clip_queries_on_empty_cigar() {
    let cig = Cigar::from_str("*").unwrap();
    assert_eq!(cig.get_soft_clipped_n(&Strand::Minus), None);
    assert_eq!(cig.get_soft_clipped_n(&Strand::Plus), None);
    assert_eq!(cig.soft_clipped_end(&Strand::Minus, 0), false);
    assert_eq!(cig.soft_clipped_end(&Strand::Plus, 0), false);
}

#[test]
fn read_length_sums_query_consumers() {
    let cig = Cigar::from_str("10S70M20S").unwrap();
    assert_eq!(cig.get_read_length_from_cigar(), 100);
    let cig = Cigar::from_str("35M110N45M3I45M10N").unwrap();
    assert_eq!(cig.get_read_length_from_cigar(), 128);
}

#[test]
fn operation_consumption_table() {
    assert_eq!(CigarOperation::Match(5).consume_ref(), true);
    assert_eq!(CigarOperation::Match(5).consume_que(), true);
    assert_eq!(CigarOperation::Nskipped(5).consume_ref(), true);
    assert_eq!(CigarOperation::Nskipped(5).consume_que(), false);
    assert_eq!(CigarOperation::Deletion(5).consume_ref(), true);
    assert_eq!(CigarOperation::Deletion(5).consume_que(), false);
    assert_eq!(CigarOperation::Insertion(5).consume_ref(), false);
    assert_eq!(CigarOperation::Insertion(5).consume_que(), true);
    assert_eq!(CigarOperation::Soft(5).consume_ref(), false);
    assert_eq!(CigarOperation::Soft(5).consume_que(), true);
    assert_eq!(CigarOperation::Hard(5).consume_ref(), false);
    assert_eq!(CigarOperation::Hard(5).consume_que(), false);
    assert_eq!(CigarOperation::Padded(5).consume_ref(), false);
    assert_eq!(CigarOperation::Padded(5).consume_que(), false);
    assert_eq!(CigarOperation::Unaligned.consume_ref(), false);
    assert_eq!(CigarOperation::Unaligned.consume_que(), false);
}

#[test]
fn queries_are_repeatable() {
    let cig = Cigar::from_str("2S80M53373N169M45S").unwrap();
    assert_eq!(cig.get_junction_position(500), cig.get_junction_position(500));
    assert_eq!(cig.get_end_of_aln(500), cig.get_end_of_aln(500));
    assert_eq!(cig.get_reference_cover(500), cig.get_reference_cover(500));
    assert_eq!(
        cig.does_it_match_an_intervall(500, 550, 560),
        cig.does_it_match_an_intervall(500, 550, 560)
    );
    assert_eq!(
        cig.get_read_length_from_cigar(),
        cig.get_read_length_from_cigar()
    );
    assert_eq!(cig.has_skipped(), cig.has_skipped());
    assert_eq!(cig.to_text(), cig.to_text());
}

#[test]
fn junctions_none_iff_no_skip() {
    for s in ["35M110N45M", "35M45M3I45M", "100M", "", "10S70M20S", "1N"] {
        let cig = Cigar::from_str(s).unwrap();
        assert_eq!(cig.get_junction_position(0).is_none(), !cig.has_skipped());
    }
}

#[test]
fn alignment_end_is_monotonic() {
    for (s, start) in [("35M110N45M", 100), ("10S20S", 7), ("", 0), ("3I", 9)] {
        let cig = Cigar::from_str(s).unwrap();
        assert!(cig.get_end_of_aln(start) >= start);
    }
    // equality exactly when nothing consumes the reference
    assert_eq!(Cigar::from_str("10S3I5H").unwrap().get_end_of_aln(11), 11);
    assert!(Cigar::from_str("1M").unwrap().get_end_of_aln(11) > 11);
}

#[test]
fn containment_agrees_with_cover() {
    let cig = Cigar::from_str("2S80M53373N169M").unwrap();
    let cover = cig.get_reference_cover(500);
    for (st, en) in [(550i64, 560i64), (550, 585), (500, 580), (499, 580), (53953, 54122)] {
        let fits = cig.does_it_match_an_intervall(500, st, en);
        let mut in_some_pair = false;
        let mut k = 0;
        while 2 * k + 1 < cover.len() {
            if cover[2 * k] <= st && en <= cover[2 * k + 1] {
                in_some_pair = true;
            }
            k += 1;
        }
        assert_eq!(fits, in_some_pair);
    }
}

#[test]
fn checked_end_reports_overflow() {
    let cig = Cigar::from_str("50M100N75M").unwrap();
    assert_eq!(cig.checked_end_of_aln(1000), Some(1225));
    assert_eq!(cig.checked_end_of_aln(i64::MAX - 100), None);
    let huge = Cigar::new(vec![CigarOperation::Match(i64::MAX)]);
    assert_eq!(huge.checked_end_of_aln(1), None);
    assert_eq!(huge.checked_end_of_aln(0), Some(i64::MAX));
}
