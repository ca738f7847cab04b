use sip_gateway::config::{AppConfig, NetAddr};
use sip_gateway::handler::handle_packet;
use sip_gateway::transaction::{TransactionInfo, TransactionTable};

fn test_config() -> AppConfig {
    AppConfig {
        public_ip: "198.51.100.5".to_string(),
        public_port: 5060,
        target_addr: NetAddr { ip: "10.0.0.9".to_string(), port: 5060 },
        service_version: "1.0.0".to_string(),
    }
}

fn external_peer() -> NetAddr {
    NetAddr { ip: "203.0.113.10".to_string(), port: 5061 }
}

fn internal_service() -> NetAddr {
    NetAddr { ip: "10.0.0.9".to_string(), port: 5060 }
}

fn invite_packet() -> String {
    "INVITE sip:bob@gw SIP/2.0\r\n\
     Via: SIP/2.0/UDP 203.0.113.10:5061;branch=z9hG4bK001\r\n\
     Call-ID: abc123\r\n\
     CSeq: 1 INVITE\r\n\
     Contact: <sip:alice@203.0.113.10:5061>\r\n\
     Content-Length: 0\r\n\
     \r\n"
        .to_string()
}

#[test]
fn end_to_end_inbound_invite() {
    let config = test_config();
    let mut table = TransactionTable::new();
    let action = handle_packet(&invite_packet(), &external_peer(), &mut table, &config, 100)
        .expect("the INVITE must be forwarded");
    assert_eq!(action.dest.ip, "10.0.0.9");
    assert_eq!(action.dest.port, 5060);
    assert!(action.payload.contains(
        "Via: SIP/2.0/UDP 198.51.100.5:5060;branch=z9hG4bK001;rport;received=203.0.113.10"
    ));
    assert_eq!(action.payload.matches("Via:").count(), 1);
    assert!(action.payload.contains("Call-ID: abc123"));
    assert!(action.payload.contains("CSeq: 1 INVITE"));
    assert!(table.contains_key("abc123", "INVITE"));
}

#[test]
fn duplicate_invite_is_dropped() {
    let config = test_config();
    let mut table = TransactionTable::new();
    let first = handle_packet(&invite_packet(), &external_peer(), &mut table, &config, 100);
    assert!(first.is_some());
    let second = handle_packet(&invite_packet(), &external_peer(), &mut table, &config, 101);
    assert!(second.is_none());
    assert_eq!(table.len(), 1);
}

#[test]
fn via_chain_restored_on_response() {
    let config = test_config();
    let mut table = TransactionTable::new();
    let via1 = "Via: SIP/2.0/UDP 203.0.113.10:5061;branch=z9hG4bK001";
    let via2 = "Via: SIP/2.0/UDP 192.0.2.7:5060;branch=z9hG4bK002";
    let via3 = "v: SIP/2.0/UDP 192.0.2.8:5060;branch=z9hG4bK003";
    let invite = format!(
        "INVITE sip:bob@gw SIP/2.0\r\n{}\r\n{}\r\n{}\r\nCall-ID: c77\r\nCSeq: 1 INVITE\r\nContact: <sip:a@203.0.113.10>\r\n\r\n",
        via1, via2, via3
    );
    handle_packet(&invite, &external_peer(), &mut table, &config, 10)
        .expect("the INVITE must be forwarded");
    let response = "SIP/2.0 200 OK\r\n\
                    Via: SIP/2.0/UDP 10.0.0.9:5060;branch=internal\r\n\
                    Call-ID: c77\r\n\
                    CSeq: 1 INVITE\r\n\
                    Contact: <sip:svc@10.0.0.9:5060>\r\n\
                    \r\n";
    let action = handle_packet(response, &internal_service(), &mut table, &config, 11)
        .expect("the response must be forwarded");
    assert_eq!(action.dest.ip, "203.0.113.10");
    assert_eq!(action.dest.port, 5061);
    let p1 = action.payload.find(via1).expect("first Via restored");
    let p2 = action.payload.find(via2).expect("second Via restored");
    let p3 = action.payload.find(via3).expect("third Via restored");
    assert!(p1 < p2 && p2 < p3);
    assert!(!action.payload.contains("branch=internal"));
    assert!(action.payload.contains("Server: SIP Gateway v1.0.0"));
    assert!(action.payload.contains("Contact: <sip:svc@198.51.100.5:5060>"));
    assert!(!action.payload.contains("10.0.0.9:5060>"));
}

#[test]
fn unknown_response_is_dropped() {
    let config = test_config();
    let mut table = TransactionTable::new();
    let response = "SIP/2.0 200 OK\r\nCall-ID: nobody\r\nCSeq: 9 INVITE\r\n\r\n";
    let action = handle_packet(response, &internal_service(), &mut table, &config, 5);
    assert!(action.is_none());
    assert_eq!(table.len(), 0);
}

#[test]
fn keyless_response_is_dropped() {
    let config = test_config();
    let mut table = TransactionTable::new();
    let action = handle_packet("SIP/2.0 200 OK\r\n\r\n", &internal_service(), &mut table, &config, 5);
    assert!(action.is_none());
}

#[test]
fn unparseable_packet_is_dropped() {
    let config = test_config();
    let mut table = TransactionTable::new();
    let action = handle_packet("", &external_peer(), &mut table, &config, 5);
    assert!(action.is_none());
    assert_eq!(table.len(), 0);
}

#[test]
fn outbound_bye_teardown() {
    let config = test_config();
    let mut table = TransactionTable::new();
    handle_packet(&invite_packet(), &external_peer(), &mut table, &config, 100)
        .expect("the INVITE must be forwarded");
    let bye = "BYE sip:alice@203.0.113.10:5061 SIP/2.0\r\n\
               Via: SIP/2.0/UDP 10.0.0.9:5060;branch=internal1\r\n\
               Call-ID: abc123\r\n\
               CSeq: 2 BYE\r\n\
               \r\n";
    let action = handle_packet(bye, &internal_service(), &mut table, &config, 150)
        .expect("the BYE must be forwarded");
    assert_eq!(action.dest.ip, "203.0.113.10");
    assert_eq!(action.dest.port, 5061);
    assert!(action.payload.contains("Content-Length: 0"));
    assert!(action.payload.contains("Max-Forwards: 70"));
    assert!(action.payload.contains("branch=z9hG4bK."));
    assert!(!action.payload.contains("branch=internal1"));
    assert!(!action.payload.contains("Contact:"));
    assert!(table.contains_key("abc123", "INVITE"));

    let ok = "SIP/2.0 200 OK\r\n\
              Via: SIP/2.0/UDP 198.51.100.5:5060;branch=z9hG4bKxyz\r\n\
              Call-ID: abc123\r\n\
              CSeq: 2 BYE\r\n\
              \r\n";
    handle_packet(ok, &external_peer(), &mut table, &config, 151);
    assert!(!table.contains_key("abc123", "BYE"));
    assert!(!table.contains_key("abc123", "INVITE"));
    assert_eq!(table.len(), 0);
}

#[test]
fn outbound_branch_token_shape() {
    let config = test_config();
    let mut table = TransactionTable::new();
    handle_packet(&invite_packet(), &external_peer(), &mut table, &config, 100)
        .expect("the INVITE must be forwarded");
    let bye = "BYE sip:alice@203.0.113.10:5061 SIP/2.0\r\n\
               Via: SIP/2.0/UDP 10.0.0.9:5060;branch=int9\r\n\
               Call-ID: abc123\r\n\
               CSeq: 2 BYE\r\n\
               \r\n";
    let action = handle_packet(bye, &internal_service(), &mut table, &config, 101)
        .expect("the BYE must be forwarded");
    let marker = "branch=z9hG4bK.";
    let at = action.payload.find(marker).expect("fresh branch present") + marker.len();
    let token: String = action.payload[at..].chars().take_while(|c| c.is_ascii_alphanumeric()).collect();
    assert_eq!(token.len(), 16);
}

#[test]
fn outbound_request_unknown_dialog_dropped() {
    let config = test_config();
    let mut table = TransactionTable::new();
    let bye = "BYE sip:alice@host SIP/2.0\r\nCall-ID: ghost\r\nCSeq: 2 BYE\r\n\r\n";
    let action = handle_packet(bye, &internal_service(), &mut table, &config, 5);
    assert!(action.is_none());
}

#[test]
fn record_route_typo_repaired_into_route() {
    let config = test_config();
    let mut table = TransactionTable::new();
    let invite = "INVITE sip:bob@gw SIP/2.0\r\n\
                  Via: SIP/2.0/UDP 203.0.113.10:5061;branch=z9hG4bK9\r\n\
                  Call-ID: rr1\r\n\
                  CSeq: 1 INVITE\r\n\
                  Contact: <sip:alice@203.0.113.10:5061>\r\n\
                  Record-Route: <sip:proxy.example.com;trasport=udp>\r\n\
                  \r\n";
    handle_packet(invite, &external_peer(), &mut table, &config, 7)
        .expect("the INVITE must be forwarded");
    let bye = "BYE sip:alice@203.0.113.10:5061 SIP/2.0\r\n\
               Via: SIP/2.0/UDP 10.0.0.9:5060;branch=int2\r\n\
               Call-ID: rr1\r\n\
               CSeq: 2 BYE\r\n\
               \r\n";
    let action = handle_packet(bye, &internal_service(), &mut table, &config, 8)
        .expect("the BYE must be forwarded");
    assert!(action.payload.contains("Route: <sip:proxy.example.com;transport=udp>"));
    assert!(!action.payload.contains("trasport="));
}

#[test]
fn transaction_expiration_window() {
    let mut table = TransactionTable::new();
    let info = TransactionInfo {
        original_client_addr: NetAddr { ip: "203.0.113.10".to_string(), port: 5061 },
        original_via_headers: vec!["Via: SIP/2.0/UDP 203.0.113.10:5061;branch=b".to_string()],
        original_contact_header: "<sip:a@203.0.113.10>".to_string(),
        record_route_header: None,
        created_at: 1000,
    };
    assert!(table.insert_if_absent("c9", "INVITE", info));
    table.cleanup_old_transactions(1000 + 119);
    assert!(table.contains_key("c9", "INVITE"));
    table.cleanup_old_transactions(1000 + 121);
    assert!(!table.contains_key("c9", "INVITE"));
}

#[test]
fn invite_without_contact_is_forwarded_but_not_registered() {
    let config = test_config();
    let mut table = TransactionTable::new();
    let invite = "INVITE sip:bob@gw SIP/2.0\r\n\
                  Via: SIP/2.0/UDP 203.0.113.10:5061;branch=z9hG4bK3\r\n\
                  Call-ID: nc1\r\n\
                  CSeq: 1 INVITE\r\n\
                  \r\n";
    let action = handle_packet(invite, &external_peer(), &mut table, &config, 3);
    assert!(action.is_some());
    assert!(!table.contains_key("nc1", "INVITE"));
    assert_eq!(table.len(), 0);
}

#[test]
fn non_invite_inbound_request_is_forwarded_without_registration() {
    let config = test_config();
    let mut table = TransactionTable::new();
    let options = "OPTIONS sip:gw SIP/2.0\r\n\
                   Via: SIP/2.0/UDP 203.0.113.10:5061;branch=z9hG4bK4\r\n\
                   Call-ID: op1\r\n\
                   CSeq: 1 OPTIONS\r\n\
                   Contact: <sip:alice@203.0.113.10>\r\n\
                   \r\n";
    let action = handle_packet(options, &external_peer(), &mut table, &config, 3)
        .expect("non-INVITE requests are forwarded too");
    assert_eq!(action.dest.ip, "10.0.0.9");
    assert_eq!(table.len(), 0);
}

#[test]
fn sweep_removes_exactly_at_max_age() {
    let mut table = TransactionTable::new();
    let info = TransactionInfo {
        original_client_addr: NetAddr { ip: "203.0.113.10".to_string(), port: 5061 },
        original_via_headers: Vec::new(),
        original_contact_header: String::new(),
        record_route_header: None,
        created_at: 500,
    };
    assert!(table.insert_if_absent("edge", "INVITE", info));
    table.cleanup_old_transactions(500 + 120);
    assert!(!table.contains_key("edge", "INVITE"));
}

#[test]
fn insert_if_absent_reports_duplicates() {
    let mut table = TransactionTable::new();
    let make = || TransactionInfo {
        original_client_addr: NetAddr { ip: "203.0.113.10".to_string(), port: 5061 },
        original_via_headers: Vec::new(),
        original_contact_header: String::new(),
        record_route_header: None,
        created_at: 0,
    };
    assert!(table.insert_if_absent("k", "INVITE", make()));
    assert!(!table.insert_if_absent("k", "INVITE", make()));
    assert_eq!(table.len(), 1);
    let got = table.get("k", "INVITE").expect("stored entry is readable");
    assert_eq!(got.original_client_addr.ip, "203.0.113.10");
    table.remove("k", "INVITE");
    assert!(table.get("k", "INVITE").is_none());
    assert_eq!(table.len(), 0);
}
