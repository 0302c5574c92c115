use eve_core::logs::chatlog::{parse_chat_line, summarize_local};
use eve_core::logs::{decode_log_bytes, split_timestamp};
use eve_core::logs::gamelog::{is_hard_tackle, is_hard_tackle_lowered};

const LOG: &str = "\
[ 2024.01.15 12:00:00 ] EVE System > Channel changed to Local : Jita
[ 2024.01.15 12:35:10 ] Bob Pilot > anyone selling tritanium?
[ 2024.01.15 12:35:20 ] Alice Hunter > o7
[ 2024.01.15 12:36:00 ] Bob Pilot > still here";

#[test]
fn decodes_utf16le_with_bom() {
    let mut bytes = vec![0xFF, 0xFE];
    for u in "Hi[]".encode_utf16() {
        bytes.extend_from_slice(&u.to_le_bytes());
    }
    assert_eq!(decode_log_bytes(&bytes), "Hi[]");
}

#[test]
fn decodes_utf8() {
    assert_eq!(decode_log_bytes(b"plain ascii"), "plain ascii");
}

#[test]
fn decodes_utf8_bom_and_bare_utf16() {
    assert_eq!(decode_log_bytes(&[0xEF, 0xBB, 0xBF, b'o', b'k']), "ok");
    // Many zero bytes and no mark: read as UTF-16LE; an odd trailing byte is dropped.
    assert_eq!(decode_log_bytes(&[b'A', 0, b'B', 0, b'C']), "AB");
    assert_eq!(decode_log_bytes(&[]), "");
    // Invalid UTF-8 is replaced, not rejected.
    assert_eq!(decode_log_bytes(&[b'a', 0xFF, b'b']), "a\u{FFFD}b");
}

#[test]
fn parses_sender_and_message() {
    let c = parse_chat_line("[ 2024.01.15 12:35:10 ] Bob Pilot > hello there").unwrap();
    assert_eq!(c.sender, "Bob Pilot");
    assert_eq!(c.message, "hello there");
    assert_eq!(c.at, 1_705_322_110);
}

#[test]
fn chat_lines_need_timestamp_and_sender() {
    assert!(parse_chat_line("Bob Pilot > no timestamp").is_none());
    assert!(parse_chat_line("[ 2024.13.45 12:35:10 ] Bob > bad date").is_none());
    assert!(parse_chat_line("[ 2024.01.15 12:35:10 ]  > no sender").is_none());
    assert!(parse_chat_line("[ 2024.01.15 12:35:10 ] no arrow").is_none());
}

#[test]
fn summary_extracts_system_and_recent_speakers() {
    let intel = summarize_local(LOG);
    assert_eq!(intel.system.as_deref(), Some("Jita"));
    assert_eq!(intel.speakers, vec!["Bob Pilot", "Alice Hunter"]);
}

#[test]
fn excludes_eve_system_from_speakers() {
    let intel = summarize_local(LOG);
    assert!(!intel.speakers.iter().any(|s| s == "EVE System"));
}

#[test]
fn summary_counts_only_chat_lines_and_keeps_last_system() {
    let text = format!("{LOG}\nnot a chat line\n[ 2024.01.15 12:40:00 ] EVE System > Channel changed to Local : Perimeter\n[ 2024.01.15 12:41:00 ] EVE System > Channel changed to Local :   ");
    let intel = summarize_local(&text);
    assert_eq!(intel.line_count, 6);
    assert_eq!(intel.system.as_deref(), Some("Perimeter"));
}

#[test]
fn hard_tackle_is_scramble_or_disruption() {
    assert!(is_hard_tackle("Warp scramble"));
    assert!(is_hard_tackle("WARP DISRUPTION"));
    assert!(!is_hard_tackle("Stasis Webification"));
    assert!(is_hard_tackle_lowered("warp scramble"));
    assert!(!is_hard_tackle_lowered("Warp Scramble"));
}

#[test]
fn splits_timestamp() {
    let line: Vec<char> = "[ 2024.01.15 12:34:57 ] (combat) hi".chars().collect();
    let (_, k) = split_timestamp(&line, 0, line.len()).unwrap();
    let rest: String = line[k..].iter().collect();
    assert_eq!(rest, "(combat) hi");
    let none: Vec<char> = "no timestamp".chars().collect();
    assert!(split_timestamp(&none, 0, none.len()).is_none());
}

fn utf16_bytes(units: &[u16]) -> Vec<u8> {
    let mut b = vec![0xFF, 0xFE];
    for u in units {
        b.extend_from_slice(&u.to_le_bytes());
    }
    b
}

#[test]
fn utf16_pairs_surrogates_and_replaces_lone_ones() {
    // 'A', U+1F600 as a pair, a lone trailing surrogate, a lone leading
    // surrogate before 'B', and a leading surrogate at the very end.
    let b = utf16_bytes(&[0x41, 0xD83D, 0xDE00, 0xDC00, 0xD800, 0x42, 0xDBFF]);
    assert_eq!(decode_log_bytes(&b), "A\u{1F600}\u{FFFD}\u{FFFD}B\u{FFFD}");
    let units = [0x41u16, 0xD83D, 0xDE00, 0xDC00, 0xD800, 0x42, 0xDBFF];
    assert_eq!(decode_log_bytes(&b), String::from_utf16_lossy(&units));
}

#[test]
fn utf16_keeps_bmp_characters_above_the_surrogates() {
    let b = utf16_bytes(&[0xE000, 0xFFFF, 0x00E9]);
    assert_eq!(decode_log_bytes(&b), "\u{E000}\u{FFFF}\u{e9}");
}
