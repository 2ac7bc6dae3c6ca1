use nexmud::protocol::{refuse_negotiations, TelnetProtocolStateMachine};
use std::io::Write;

fn fresh() -> TelnetProtocolStateMachine {
    TelnetProtocolStateMachine::new()
}

#[test]
fn refusal_answers_do_and_will() {
    let (clean, replies) = refuse_negotiations(&[255, 253, 1, b'h', b'i', 255, 251, 3]);
    assert_eq!(clean, b"hi".to_vec());
    assert_eq!(replies, vec![255, 252, 1, 255, 254, 3]);
}

#[test]
fn refusal_skips_other_commands_and_keeps_a_trailing_iac() {
    let (clean, replies) = refuse_negotiations(&[255, 250, 24, b'a', 255]);
    assert_eq!(clean, vec![b'a', 255]);
    assert!(replies.is_empty());
}

#[test]
fn new_state_has_negotiated_nothing() {
    let st = fresh();
    assert!(!st.is_mccp_active && !st.has_sent_mccp && !st.has_sent_gmcp);
}

#[test]
fn mccp_is_accepted_once() {
    let mut st = fresh();
    let mut out = Vec::new();
    let (text, module, json) = st.parse_incoming_stream(&[255, 251, 86, b'o', b'k'], &mut out);
    assert_eq!(text, "ok");
    assert_eq!(module, "");
    assert_eq!(json, "");
    assert_eq!(out, vec![255, 253, 86]);
    assert!(st.is_mccp_active && st.has_sent_mccp);
    let mut again = Vec::new();
    let _ = st.parse_incoming_stream(&[255, 251, 86], &mut again);
    assert!(again.is_empty());
}

#[test]
fn gmcp_offers_are_accepted_once_and_others_refused() {
    let mut st = fresh();
    let mut out = Vec::new();
    let _ = st.parse_incoming_stream(&[255, 253, 201, 255, 251, 201, 255, 253, 24, 255, 251, 1], &mut out);
    assert_eq!(out, vec![255, 251, 201, 255, 252, 24, 255, 254, 1]);
    assert!(st.has_sent_gmcp);
    assert!(!st.has_sent_mccp);
}

#[test]
fn gmcp_message_is_extracted_and_not_shown() {
    let mut st = fresh();
    let mut raw = vec![255, 250, 201];
    raw.extend_from_slice(b"Char.Vitals { \"hp\": 500 }");
    raw.extend_from_slice(&[255, 240]);
    raw.extend_from_slice(b"HP ok");
    let mut out = Vec::new();
    let (text, module, json) = st.parse_incoming_stream(&raw, &mut out);
    assert_eq!(text, "HP ok");
    assert_eq!(module, "Char.Vitals");
    assert_eq!(json, "{ \"hp\": 500 }");
    assert!(out.is_empty());
}

#[test]
fn the_last_gmcp_message_wins_and_one_without_space_is_ignored() {
    let mut st = fresh();
    let mut raw = vec![255, 250, 201];
    raw.extend_from_slice(b"A.B 1");
    raw.extend_from_slice(&[255, 240, 255, 250, 201]);
    raw.extend_from_slice(b"C.D  2 ");
    raw.extend_from_slice(&[255, 240, 255, 250, 201]);
    raw.extend_from_slice(b"nospace");
    raw.extend_from_slice(&[255, 240]);
    let mut out = Vec::new();
    let (text, module, json) = st.parse_incoming_stream(&raw, &mut out);
    assert_eq!(text, "");
    assert_eq!(module, "C.D");
    assert_eq!(json, "2");
}

#[test]
fn other_subnegotiations_are_skipped() {
    let mut st = fresh();
    let mut out = Vec::new();
    let (text, module, _) = st.parse_incoming_stream(&[255, 250, 24, 1, 2, 255, 240, b'x'], &mut out);
    assert_eq!(text, "x");
    assert_eq!(module, "");
}

#[test]
fn control_bytes_and_stray_iac_are_dropped() {
    let mut st = fresh();
    let mut out = Vec::new();
    let (text, _, _) = st.parse_incoming_stream(&[b'a', 1, 2, 3, b'b', 255], &mut out);
    assert_eq!(text, "ab");
}

#[test]
fn gbk_text_is_decoded() {
    let mut st = fresh();
    let mut out = Vec::new();
    let (text, _, _) = st.parse_incoming_stream(&[0xC4, 0xE3, 0xBA, 0xC3], &mut out);
    assert_eq!(text, "你好");
}

#[test]
fn plain_text_passes_unchanged() {
    let mut st = fresh();
    let mut out = Vec::new();
    let (text, _, _) = st.parse_incoming_stream(b"look\r\nThe hall.", &mut out);
    assert_eq!(text, "look\r\nThe hall.");
    assert!(out.is_empty());
    assert!(!st.is_mccp_active && !st.has_sent_mccp && !st.has_sent_gmcp);
}

#[test]
fn mxp_links_are_rewritten() {
    let mut st = fresh();
    let mut out = Vec::new();
    let (text, _, _) = st.parse_incoming_stream(b"<send href=\"x\">go</send>", &mut out);
    assert_eq!(text, "\x1b[1;36m[MXP超链接:  href=\"x ]\x1b[0mgo");
}

#[test]
fn text_without_send_keeps_its_markup() {
    let mut st = fresh();
    let mut out = Vec::new();
    let (text, _, _) = st.parse_incoming_stream(b"a\">b</send>", &mut out);
    assert_eq!(text, "a\">b</send>");
}

#[test]
fn mccp_inactive_passes_bytes() {
    let mut st = fresh();
    assert_eq!(st.handle_mccp_decompression(&[1, 2, 3]), vec![1, 2, 3]);
}

#[test]
fn mccp_active_inflates() {
    let mut st = fresh();
    st.is_mccp_active = true;
    let mut enc = flate2::write::ZlibEncoder::new(Vec::new(), flate2::Compression::default());
    enc.write_all(b"hello world").unwrap();
    let packed = enc.finish().unwrap();
    assert_eq!(st.handle_mccp_decompression(&packed), b"hello world".to_vec());
}

#[test]
fn mccp_active_keeps_bytes_that_do_not_inflate() {
    let mut st = fresh();
    st.is_mccp_active = true;
    assert_eq!(st.handle_mccp_decompression(b"not zlib"), b"not zlib".to_vec());
}

fn zlib(data: &[u8]) -> Vec<u8> {
    let mut enc = flate2::write::ZlibEncoder::new(Vec::new(), flate2::Compression::default());
    enc.write_all(data).unwrap();
    enc.finish().unwrap()
}

#[test]
fn mccp_stream_runs_across_chunks() {
    let text: Vec<u8> = (0..4000u32).map(|i| b"The orc hits you. "[(i % 18) as usize]).collect();
    let packed = zlib(&text);
    let mut st = fresh();
    st.is_mccp_active = true;
    let mut out = Vec::new();
    for chunk in packed.chunks(7) {
        out.extend(st.handle_mccp_decompression(chunk));
    }
    assert_eq!(out, text);
}

#[test]
fn mccp_broken_stream_passes_later_chunks_unchanged() {
    let mut st = fresh();
    st.is_mccp_active = true;
    assert_eq!(st.handle_mccp_decompression(b"not zlib"), b"not zlib".to_vec());
    let packed = zlib(b"hello");
    assert_eq!(st.handle_mccp_decompression(&packed), packed);
}

#[test]
fn two_byte_commands_keep_the_next_data_byte() {
    let mut st = fresh();
    let mut out = Vec::new();
    let (text, module, json) = st.parse_incoming_stream(&[255, 249, b'a', b'b', b'c'], &mut out);
    assert_eq!(text, "abc");
    assert_eq!(module, "");
    assert_eq!(json, "");
    assert!(out.is_empty());
    let (clean, replies) = refuse_negotiations(&[255, 241, b'x', 255, 253, 5, b'y']);
    assert_eq!(clean, b"xy".to_vec());
    assert_eq!(replies, vec![255, 252, 5]);
}

#[test]
fn unterminated_subnegotiation_ends_the_scan() {
    let mut st = fresh();
    let mut out = Vec::new();
    let (text, module, _) = st.parse_incoming_stream(&[b'h', b'i', 255, 251, 201, 255, 250, 201, b'A', b' ', b'1'], &mut out);
    assert_eq!(text, "hi");
    assert_eq!(module, "");
    assert_eq!(out, vec![255, 253, 201]);
}

#[test]
fn replies_are_appended_after_the_old_buffer() {
    let mut st = fresh();
    let mut out = vec![1, 2];
    let _ = st.parse_incoming_stream(&[255, 251, 86, 255, 253, 31], &mut out);
    assert_eq!(out, vec![1, 2, 255, 253, 86, 255, 252, 31]);
    assert_eq!(st.is_mccp_active, st.has_sent_mccp);
}

#[test]
fn bytes_that_are_no_zlib_stream_come_back_unchanged() {
    let mut st = fresh();
    st.is_mccp_active = true;
    st.has_sent_mccp = true;
    assert_eq!(st.handle_mccp_decompression(&[1, 2, 3]), vec![1, 2, 3]);
    assert!(st.is_mccp_active && st.has_sent_mccp && !st.has_sent_gmcp);
}
