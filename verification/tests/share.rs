use eve_core::share::{check_kind, encode_payload, payload_of, ShareError, SharedArtifact, SHARE_PREFIX};

#[test]
fn code_round_trips_and_tolerates_whitespace() {
    let payload = br#"{"kind":"fit","name":"Shield Rifter","body":"[Rifter]\n"}"#;
    let code = encode_payload(payload);
    assert!(code.starts_with(SHARE_PREFIX));
    assert_eq!(payload_of(&code).unwrap(), payload.to_vec());
    let pasted = format!("  {code}\n");
    assert_eq!(payload_of(&pasted).unwrap(), payload.to_vec());
}

#[test]
fn encoding_is_base64url_without_padding() {
    assert_eq!(encode_payload(b""), "EVECMDR1:");
    assert_eq!(encode_payload(b"f"), "EVECMDR1:Zg");
    assert_eq!(encode_payload(b"fo"), "EVECMDR1:Zm8");
    assert_eq!(encode_payload(b"foo"), "EVECMDR1:Zm9v");
    assert_eq!(encode_payload(&[0xfb, 0xff]), "EVECMDR1:-_8");
}

#[test]
fn rejects_foreign_or_corrupt_codes() {
    assert_eq!(payload_of("just some text"), Err(ShareError::NotShareCode));
    assert_eq!(payload_of("EVECMDR1:!!!notbase64!!!"), Err(ShareError::BadEncoding));
    assert_eq!(payload_of("EVECMDR1:Zg=="), Err(ShareError::BadEncoding));
    assert_eq!(payload_of("EVECMDR1:Zh"), Err(ShareError::BadEncoding));
    assert_eq!(payload_of("evecmdr1:Zg"), Err(ShareError::NotShareCode));
}

#[test]
fn only_fits_and_plans_are_accepted() {
    let a = |kind: &str| SharedArtifact { kind: kind.into(), name: "x".into(), body: "y".into() };
    assert_eq!(check_kind(&a("fit")), Ok(()));
    assert_eq!(check_kind(&a("plan")), Ok(()));
    assert_eq!(check_kind(&a("virus")), Err(ShareError::UnknownKind("virus".into())));
}
