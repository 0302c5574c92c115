use eve_core::signatures::parse_signatures;

#[test]
fn parses_probe_scanner_rows() {
    let text = "ABC-123\tCosmic Signature\tWormhole\tUnstable Wormhole\t100.0%\t1.5 AU\n\
                DEF-456\tCosmic Signature\tRelic Site\tRuined Sansha\t42.0%\t3.1 AU\n\
                GHI-789\tCosmic Signature\t\t\t12.0%\t-";
    let sigs = parse_signatures(text);
    assert_eq!(sigs.len(), 3);
    assert_eq!(sigs[0].sig_id, "ABC-123");
    assert_eq!(sigs[0].category, "Wormhole");
    assert_eq!(sigs[1].category, "Relic");
    assert_eq!(sigs[2].category, "");
}

#[test]
fn ignores_non_signature_lines() {
    assert!(parse_signatures("just some text\nno tabs here").is_empty());
}

#[test]
fn dedups_and_fills_in() {
    let text = "ABC-123\tCosmic Signature\t\t\t10%\t5 AU\n\
                ABC-123\tCosmic Signature\tData Site\tSerpentis Hub\t100%\t0";
    let sigs = parse_signatures(text);
    assert_eq!(sigs.len(), 1);
    assert_eq!(sigs[0].category, "Data");
    assert_eq!(sigs[0].name, "Serpentis Hub");
}

#[test]
fn category_buckets_and_fallback() {
    let text = "AAA-111\tx\tGas Site\n\
                BBB-222\tx\tCombat Site\n\
                CCC-333\tx\tOre Site\n\
                DDD-444\tx\t  Anomaly  \n\
                eee-555\tx\tWORMHOLE";
    let sigs = parse_signatures(text);
    let cats: Vec<&str> = sigs.iter().map(|s| s.category.as_str()).collect();
    assert_eq!(cats, vec!["Gas", "Combat", "Ore", "Anomaly", "Wormhole"]);
    assert_eq!(sigs[4].name, "");
}

#[test]
fn id_match_ignores_case_and_keeps_resolved_fields() {
    let text = "ABC-123\tCosmic Signature\tRelic Site\tForgotten Perimeter\n\
                abc-123\tCosmic Signature\tData Site\tOther";
    let sigs = parse_signatures(text);
    assert_eq!(sigs.len(), 1);
    assert_eq!(sigs[0].sig_id, "ABC-123");
    assert_eq!(sigs[0].category, "Relic");
    assert_eq!(sigs[0].name, "Forgotten Perimeter");
}

#[test]
fn short_or_undashed_ids_are_skipped() {
    // "A-12" is four bytes; "ABCDEF" has no dash; "Ä-12" is five bytes in UTF-8.
    let sigs = parse_signatures("A-12\tx\nABCDEF\tx\n\u{c4}-12\tx\tData");
    assert_eq!(sigs.len(), 1);
    assert_eq!(sigs[0].sig_id, "\u{c4}-12");
    assert_eq!(sigs[0].category, "Data");
}
