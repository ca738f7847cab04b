use sip_gateway::config::{AppConfig, NetAddr};
use sip_gateway::message::SipMessage;
use sip_gateway::processor::{
    extract_branch_from_via, extract_header_value, extract_transaction_key, fix_transport_typo,
    rewrite_inbound_request, rewrite_outbound_response,
};
use sip_gateway::strutil::u16_to_string;
use sip_gateway::transaction::TransactionInfo;

#[test]
fn parse_fails_only_on_empty_input() {
    assert!(SipMessage::parse("").is_none());
    assert!(SipMessage::parse("INVITE sip:x SIP/2.0").is_some());
    assert!(SipMessage::parse("\r\n").is_some());
}

#[test]
fn parse_splits_sections() {
    let msg = SipMessage::parse(
        "INVITE sip:bob@gw SIP/2.0\r\n\
         Via: SIP/2.0/UDP h1;branch=a\r\n\
         Via: SIP/2.0/UDP h2;branch=b\r\n\
         Call-ID: xyz\r\n\
         \r\n\
         v=0\r\n\
         o=alice",
    )
    .expect("parseable");
    assert_eq!(msg.start_line, "INVITE sip:bob@gw SIP/2.0");
    assert_eq!(msg.via_headers.len(), 2);
    assert_eq!(msg.via_headers[0], "Via: SIP/2.0/UDP h1;branch=a");
    assert_eq!(msg.via_headers[1], "Via: SIP/2.0/UDP h2;branch=b");
    assert_eq!(msg.header("Call-ID").expect("present"), "xyz");
    assert_eq!(msg.body, "v=0\r\no=alice");
}

#[test]
fn parse_accepts_bare_line_feeds() {
    let msg = SipMessage::parse("INVITE sip:x SIP/2.0\nCall-ID: lf\n\nbody").expect("parseable");
    assert_eq!(msg.start_line, "INVITE sip:x SIP/2.0");
    assert_eq!(msg.header("Call-ID").expect("present"), "lf");
    assert_eq!(msg.body, "body");
}

#[test]
fn body_line_breaks_are_normalized_to_crlf() {
    let msg = SipMessage::parse("OPTIONS sip:x SIP/2.0\r\n\r\nline1\nline2\r\nline3")
        .expect("parseable");
    assert_eq!(msg.body, "line1\r\nline2\r\nline3");
}

#[test]
fn compact_forms_are_canonicalized() {
    let msg = SipMessage::parse(
        "INVITE sip:x SIP/2.0\r\nv: SIP/2.0/UDP h;branch=z\r\ni: short42\r\nm: <sip:a@b>\r\nl: 0\r\n\r\n",
    )
    .expect("parseable");
    assert_eq!(msg.via_headers.len(), 1);
    assert_eq!(msg.header("Call-ID").expect("present"), "short42");
    assert_eq!(msg.header("Contact").expect("present"), "<sip:a@b>");
    assert_eq!(msg.header("Content-Length").expect("present"), "0");
}

#[test]
fn header_lookup_ignores_ascii_case_and_takes_last() {
    let msg = SipMessage::parse(
        "INVITE sip:x SIP/2.0\r\nCALL-id: one\r\nCall-ID: two\r\n\r\n",
    )
    .expect("parseable");
    assert_eq!(msg.header("call-id").expect("present"), "two");
    assert!(msg.header("Missing").is_none());
}

#[test]
fn extract_header_value_scans_raw_text() {
    let packet = "INVITE sip:x SIP/2.0\r\n  Call-ID:  spaced \r\nCSeq: 3 BYE\r\n\r\n";
    assert_eq!(extract_header_value(packet, "Call-ID").expect("present"), "spaced");
    assert_eq!(extract_header_value(packet, "cseq").expect("present"), "3 BYE");
    assert!(extract_header_value(packet, "Via").is_none());
}

#[test]
fn extract_transaction_key_needs_two_cseq_tokens() {
    let good = "X\r\nCall-ID: id1\r\nCSeq: 10 INVITE\r\n\r\n";
    let key = extract_transaction_key(good).expect("well-formed key");
    assert_eq!(key.0, "id1");
    assert_eq!(key.1, "INVITE");
    assert!(extract_transaction_key("X\r\nCall-ID: id1\r\nCSeq: 10\r\n\r\n").is_none());
    assert!(extract_transaction_key("X\r\nCall-ID: id1\r\nCSeq: 10 BYE now\r\n\r\n").is_none());
    assert!(extract_transaction_key("X\r\nCSeq: 10 BYE\r\n\r\n").is_none());
}

#[test]
fn extract_branch_takes_first_equals_segment() {
    assert_eq!(
        extract_branch_from_via("Via: SIP/2.0/UDP h;branch=z9hG4bK77;rport").expect("present"),
        "z9hG4bK77"
    );
    assert_eq!(
        extract_branch_from_via("Via: x; branch=a=b;y").expect("present"),
        "a"
    );
    assert!(extract_branch_from_via("Via: SIP/2.0/UDP h;rport").is_none());
}

#[test]
fn typo_repair_rewrites_every_occurrence() {
    assert_eq!(
        fix_transport_typo("<sip:p;trasport=udp>;trasport=tcp"),
        "<sip:p;transport=udp>;transport=tcp"
    );
    assert_eq!(fix_transport_typo("transport=udp"), "transport=udp");
    assert_eq!(fix_transport_typo(""), "");
}

#[test]
fn port_formatting_is_decimal() {
    assert_eq!(u16_to_string(0), "0");
    assert_eq!(u16_to_string(7), "7");
    assert_eq!(u16_to_string(5060), "5060");
    assert_eq!(u16_to_string(65535), "65535");
}

#[test]
fn inbound_rewrite_collapses_via_chain() {
    let config = AppConfig {
        public_ip: "198.51.100.5".to_string(),
        public_port: 5060,
        target_addr: NetAddr { ip: "10.0.0.9".to_string(), port: 5060 },
        service_version: "1.0.0".to_string(),
    };
    let remote = NetAddr { ip: "203.0.113.10".to_string(), port: 5061 };
    let msg = SipMessage::parse(
        "INVITE sip:bob@gw SIP/2.0\r\n\
         Via: SIP/2.0/UDP h1;branch=z9hG4bK5\r\n\
         Via: SIP/2.0/UDP h2;branch=other\r\n\
         Call-ID: in1\r\n\
         \r\n",
    )
    .expect("parseable");
    let out = rewrite_inbound_request(&msg, &remote, &config);
    assert_eq!(out.matches("Via:").count(), 1);
    assert!(out.contains(
        "Via: SIP/2.0/UDP 198.51.100.5:5060;branch=z9hG4bK5;rport;received=203.0.113.10"
    ));
    assert!(out.contains("Call-ID: in1"));
    assert!(out.starts_with("INVITE sip:bob@gw SIP/2.0\r\n"));
}

#[test]
fn outbound_rewrite_returns_unparseable_packet_unchanged() {
    let config = AppConfig {
        public_ip: "198.51.100.5".to_string(),
        public_port: 5060,
        target_addr: NetAddr { ip: "10.0.0.9".to_string(), port: 5060 },
        service_version: "1.0.0".to_string(),
    };
    let tx = TransactionInfo {
        original_client_addr: NetAddr { ip: "203.0.113.10".to_string(), port: 5061 },
        original_via_headers: vec!["Via: SIP/2.0/UDP h;branch=b".to_string()],
        original_contact_header: String::new(),
        record_route_header: None,
        created_at: 0,
    };
    assert_eq!(rewrite_outbound_response("", &tx, &config), "");
}

#[test]
fn outbound_rewrite_preserves_contact_user_part() {
    let config = AppConfig {
        public_ip: "198.51.100.5".to_string(),
        public_port: 5060,
        target_addr: NetAddr { ip: "10.0.0.9".to_string(), port: 5060 },
        service_version: "1.0.0".to_string(),
    };
    let tx = TransactionInfo {
        original_client_addr: NetAddr { ip: "203.0.113.10".to_string(), port: 5061 },
        original_via_headers: vec!["Via: SIP/2.0/UDP h;branch=b".to_string()],
        original_contact_header: String::new(),
        record_route_header: None,
        created_at: 0,
    };
    let response = "SIP/2.0 200 OK\r\n\
                    Via: SIP/2.0/UDP 10.0.0.9:5060;branch=int\r\n\
                    Contact: <sip:alice@10.0.0.9:5060>\r\n\
                    Call-ID: c\r\n\
                    \r\n";
    let out = rewrite_outbound_response(response, &tx, &config);
    assert!(out.contains("Contact: <sip:alice@198.51.100.5:5060>"));
    assert!(!out.contains("alice@10.0.0.9"));
}

#[test]
fn outbound_rewrite_contact_without_user_falls_back() {
    let config = AppConfig {
        public_ip: "198.51.100.5".to_string(),
        public_port: 5060,
        target_addr: NetAddr { ip: "10.0.0.9".to_string(), port: 5060 },
        service_version: "1.0.0".to_string(),
    };
    let tx = TransactionInfo {
        original_client_addr: NetAddr { ip: "203.0.113.10".to_string(), port: 5061 },
        original_via_headers: vec!["Via: SIP/2.0/UDP h;branch=b".to_string()],
        original_contact_header: String::new(),
        record_route_header: None,
        created_at: 0,
    };
    let response = "SIP/2.0 200 OK\r\n\
                    Via: SIP/2.0/UDP 10.0.0.9:5060;branch=int\r\n\
                    Contact: <sip:10.0.0.9:5060>\r\n\
                    Call-ID: c\r\n\
                    \r\n";
    let out = rewrite_outbound_response(response, &tx, &config);
    assert!(out.contains("Contact: <sip:gateway@198.51.100.5:5060>"));
}

#[test]
fn outbound_rewrite_sets_server_and_keeps_body() {
    let config = AppConfig {
        public_ip: "198.51.100.5".to_string(),
        public_port: 5060,
        target_addr: NetAddr { ip: "10.0.0.9".to_string(), port: 5060 },
        service_version: "2.3".to_string(),
    };
    let tx = TransactionInfo {
        original_client_addr: NetAddr { ip: "203.0.113.10".to_string(), port: 5061 },
        original_via_headers: vec![
            "Via: SIP/2.0/UDP h1;branch=b1".to_string(),
            "Via: SIP/2.0/UDP h2;branch=b2".to_string(),
        ],
        original_contact_header: String::new(),
        record_route_header: None,
        created_at: 0,
    };
    let response = "SIP/2.0 180 Ringing\r\n\
                    Via: SIP/2.0/UDP 10.0.0.9:5060;branch=int\r\n\
                    Call-ID: c\r\n\
                    \r\n\
                    sdp-here";
    let out = rewrite_outbound_response(response, &tx, &config);
    assert!(out.starts_with("SIP/2.0 180 Ringing\r\n"));
    assert!(out.contains("Via: SIP/2.0/UDP h1;branch=b1\r\nVia: SIP/2.0/UDP h2;branch=b2\r\n"));
    assert!(!out.contains("branch=int"));
    assert!(out.contains("Server: SIP Gateway v2.3"));
    assert!(out.contains("sdp-here"));
}
