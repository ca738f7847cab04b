//! The per-packet dispatcher: classifies one UDP datagram (request or
//! response; external or internal origin), drives the transaction table and
//! the rewrite engine, and says what to send where. All socket work stays
//! with the caller: each handler returns the forward to perform, or nothing
//! when the packet is dropped.
//!
//! A packet is internal-origin exactly when its source address equals the
//! configured internal signaling service address. A response is recognized
//! by its start line beginning with the protocol token `SIP/2.0`. Transaction
//! entries are torn down on a final (non-1xx) response whose CSeq method is
//! BYE or CANCEL; everything else is left to the idle-expiration sweep.

use vstd::prelude::*;

use crate::config::{AddrModel, AppConfig, ConfigModel, NetAddr};
use crate::message::{first_line, lookup_header, next_line, parse_spec, MessageModel, SipMessage};
use crate::message_builder::{
    build_spec, is_branch_token, lemma_branch_token_exists, OutboundRequestBuilder,
};
use crate::processor::{
    extract_transaction_key, fix_transport_typo, fix_typo_spec, rewrite_inbound_request,
    rewrite_inbound_spec, rewrite_outbound_response, rewrite_outbound_spec, transaction_key_spec,
};
use crate::strutil::{prefix_of, starts_with_str, str_eq, split_ws_exec, ws_tokens};
use crate::transaction::{InfoModel, KeyModel, TransactionInfo, TransactionTable};

verus! {

/// The mathematical model of one forward: payload and destination.
pub struct SendModel {
    pub payload: Seq<char>,
    pub dest: AddrModel,
}

/// One forward to perform: the rewritten packet and where to send it.
pub struct SendAction {
    pub payload: String,
    pub dest: NetAddr,
}

impl View for SendAction {
    type V = SendModel;

    open spec fn view(&self) -> SendModel {
        SendModel { payload: self.payload@, dest: self.dest@ }
    }
}

/// Whether an optional action is modeled by an optional send.
pub open spec fn action_matches(r: Option<SendAction>, m: Option<SendModel>) -> bool {
    match r {
        Option::Some(a) => m == Option::Some(a@),
        Option::None => m is None,
    }
}

/// The method named by a request line: its first whitespace token.
pub open spec fn method_of(start: Seq<char>) -> Seq<char> {
    let toks = ws_tokens(start);
    if toks.len() > 0 {
        toks[0]
    } else {
        Seq::empty()
    }
}

/// Whether a status line reports a final response: its second whitespace
/// token (the status code) does not begin with `1`.
pub open spec fn final_status(start: Seq<char>) -> bool {
    let toks = ws_tokens(start);
    toks.len() >= 2 && toks[1].len() > 0 && toks[1][0] != '1'
}

/// The first whitespace token of `s`, or empty.
fn first_token(s: &str) -> (r: String)
    ensures
        r@ == method_of(s@),
{
    let toks = split_ws_exec(s);
    if toks.len() > 0 {
        let t = toks[0].clone();
        proof {
            assert(toks.deep_view()[0] == t@);
        }
        t
    } else {
        String::new()
    }
}

/// Whether a status line reports a final (non-1xx) response.
fn final_status_exec(s: &str) -> (r: bool)
    ensures
        r == final_status(s@),
{
    let toks = split_ws_exec(s);
    if toks.len() < 2 {
        return false;
    }
    let code = &toks[1];
    proof {
        assert(toks.deep_view()[1] == code@);
    }
    let cn = code.as_str().unicode_len();
    if cn == 0 {
        return false;
    }
    code.as_str().get_char(0) != '1'
}

/// One inbound request handled: a duplicate INVITE of a known dialog is
/// dropped; otherwise the request is rewritten for the internal service, and
/// a first INVITE that carries `Contact`, `Call-ID` and `CSeq` registers its
/// dialog, with the typo-repaired `Record-Route` when one came.
pub open spec fn inbound_step(
    m: MessageModel,
    remote: AddrModel,
    t: Map<KeyModel, InfoModel>,
    cfg: ConfigModel,
    now: u64,
) -> (Map<KeyModel, InfoModel>, Option<SendModel>) {
    let is_invite = method_of(m.start_line) == ("INVITE")@;
    let dup = is_invite && match lookup_header(m.headers, ("Call-ID")@) {
        Option::Some(cid) => t.contains_key((cid, ("INVITE")@)),
        Option::None => false,
    };
    if dup {
        (t, Option::None)
    } else {
        let send = SendModel { payload: rewrite_inbound_spec(m, remote.ip, cfg), dest: cfg.target };
        if is_invite {
            match lookup_header(m.headers, ("Contact")@) {
                Option::Some(contact) => match lookup_header(m.headers, ("Call-ID")@) {
                    Option::Some(cid) => match lookup_header(m.headers, ("CSeq")@) {
                        Option::Some(_cseq) => {
                            let info = InfoModel {
                                original_client_addr: remote,
                                original_via_headers: m.via_headers,
                                original_contact_header: contact,
                                record_route_header: match lookup_header(
                                    m.headers,
                                    ("Record-Route")@,
                                ) {
                                    Option::Some(rr) => Option::Some(fix_typo_spec(rr)),
                                    Option::None => Option::None,
                                },
                                created_at: now,
                            };
                            (t.insert((cid, ("INVITE")@), info), Option::Some(send))
                        },
                        Option::None => (t, Option::Some(send)),
                    },
                    Option::None => (t, Option::Some(send)),
                },
                Option::None => (t, Option::Some(send)),
            }
        } else {
            (t, Option::Some(send))
        }
    }
}

/// One internal-origin request handled: looked up by `(Call-ID, "INVITE")`
/// for BYE and CANCEL (the dialog's anchor), else by its own method; dropped
/// when the key is missing or the dialog is unknown; otherwise rebuilt with
/// the fresh `branch` and addressed to the original external client.
pub open spec fn outbound_step(
    packet: Seq<char>,
    t: Map<KeyModel, InfoModel>,
    cfg: ConfigModel,
    branch: Seq<char>,
) -> Option<SendModel> {
    match transaction_key_spec(packet) {
        Option::None => Option::None,
        Option::Some((call_id, cseq_method)) => {
            let key: KeyModel = if cseq_method == ("BYE")@ || cseq_method == ("CANCEL")@ {
                (call_id, ("INVITE")@)
            } else {
                (call_id, cseq_method)
            };
            if t.contains_key(key) {
                match parse_spec(packet) {
                    Option::None => Option::None,
                    Option::Some(m) => Option::Some(
                        SendModel {
                            payload: build_spec(m, t[key], cfg, branch),
                            dest: t[key].original_client_addr,
                        },
                    ),
                }
            } else {
                Option::None
            }
        },
    }
}

/// One response handled: looked up by `(Call-ID, CSeq method)`; dropped when
/// the key is missing or the transaction is unknown; otherwise rewritten and
/// addressed to the original external client. A final (non-1xx) response to
/// BYE or CANCEL tears the dialog down: both the response's own key and the
/// INVITE anchor leave the table.
pub open spec fn response_step(
    packet: Seq<char>,
    t: Map<KeyModel, InfoModel>,
    cfg: ConfigModel,
) -> (Map<KeyModel, InfoModel>, Option<SendModel>) {
    match transaction_key_spec(packet) {
        Option::None => (t, Option::None),
        Option::Some((call_id, cseq_method)) => {
            let key: KeyModel = (call_id, cseq_method);
            let send = if t.contains_key(key) {
                Option::Some(
                    SendModel {
                        payload: rewrite_outbound_spec(packet, t[key], cfg),
                        dest: t[key].original_client_addr,
                    },
                )
            } else {
                Option::None
            };
            let teardown = (cseq_method == ("BYE")@ || cseq_method == ("CANCEL")@)
                && final_status(first_line(packet));
            let t1 = if teardown {
                t.remove((call_id, ("INVITE")@)).remove(key)
            } else {
                t
            };
            (t1, send)
        },
    }
}

/// One request handled, by origin: internal origin (source equals the
/// configured target address) goes out; any other origin comes in.
pub open spec fn request_step(
    packet: Seq<char>,
    m: MessageModel,
    remote: AddrModel,
    t: Map<KeyModel, InfoModel>,
    cfg: ConfigModel,
    now: u64,
    branch: Seq<char>,
) -> (Map<KeyModel, InfoModel>, Option<SendModel>) {
    if remote == cfg.target {
        (t, outbound_step(packet, t, cfg, branch))
    } else {
        inbound_step(m, remote, t, cfg, now)
    }
}

/// One datagram handled: unparseable packets are dropped; a start line
/// beginning with `SIP/2.0` takes the response path; anything else is a
/// request.
pub open spec fn packet_step(
    packet: Seq<char>,
    remote: AddrModel,
    t: Map<KeyModel, InfoModel>,
    cfg: ConfigModel,
    now: u64,
    branch: Seq<char>,
) -> (Map<KeyModel, InfoModel>, Option<SendModel>) {
    match parse_spec(packet) {
        Option::None => (t, Option::None),
        Option::Some(m) => {
            if prefix_of(("SIP/2.0")@, m.start_line) {
                response_step(packet, t, cfg)
            } else {
                request_step(packet, m, remote, t, cfg, now, branch)
            }
        },
    }
}

/// Handles a request from the external leg. Returns the forward to the
/// internal service, or nothing for a duplicate INVITE.
pub fn handle_inbound_request(
    msg: &SipMessage,
    remote: &NetAddr,
    table: &mut TransactionTable,
    config: &AppConfig,
    now: u64,
) -> (r: Option<SendAction>)
    requires
        old(table).wf(),
    ensures
        final(table).wf(),
        ({
            let step = inbound_step(msg@, remote@, old(table)@, config@, now);
            final(table)@ == step.0 && action_matches(r, step.1)
        }),
{
    let method = first_token(msg.start_line.as_str());
    let is_invite = str_eq(method.as_str(), "INVITE");
    if is_invite {
        if let Some(call_id) = msg.header("Call-ID") {
            if table.contains_key(call_id.as_str(), "INVITE") {
                return None;
            }
        }
    }
    let payload = rewrite_inbound_request(msg, remote, config);
    if is_invite {
        let contact_opt = match msg.header("Contact") {
            Some(c) => Some(c.clone()),
            None => None,
        };
        let cid_opt = match msg.header("Call-ID") {
            Some(c) => Some(c.clone()),
            None => None,
        };
        let cseq_present = match msg.header("CSeq") {
            Some(_) => true,
            None => false,
        };
        if let (Some(contact), Some(cid)) = (contact_opt, cid_opt) {
            if cseq_present {
                let rr = match msg.header("Record-Route") {
                    Some(v) => Some(fix_transport_typo(v.as_str())),
                    None => None,
                };
                let vias = msg.via_headers.clone();
                proof {
                    assert(vias.deep_view() =~= msg.via_headers.deep_view());
                }
                let info = TransactionInfo {
                    original_client_addr: remote.duplicate(),
                    original_via_headers: vias,
                    original_contact_header: contact,
                    record_route_header: rr,
                    created_at: now,
                };
                let _inserted = table.insert_if_absent(cid.as_str(), "INVITE", info);
            }
        }
    }
    Some(SendAction { payload, dest: config.target_addr.duplicate() })
}

/// Handles a request from the internal leg. Returns the forward to the
/// original external client, or nothing when the dialog is unknown.
pub fn handle_outbound_request(
    packet_str: &str,
    table: &mut TransactionTable,
    config: &AppConfig,
) -> (r: Option<SendAction>)
    requires
        old(table).wf(),
    ensures
        final(table).wf(),
        final(table)@ == old(table)@,
        match r {
            Option::Some(a) => exists|b: Seq<char>|
                is_branch_token(b) && #[trigger] outbound_step(
                    packet_str@,
                    old(table)@,
                    config@,
                    b,
                ) == Option::Some(a@),
            Option::None => forall|b: Seq<char>|
                (#[trigger] outbound_step(packet_str@, old(table)@, config@, b)) is None,
        },
{
    let key = match extract_transaction_key(packet_str) {
        Some(k) => k,
        None => {
            return None;
        },
    };
    let (call_id, cseq_method) = key;
    let is_teardown = str_eq(cseq_method.as_str(), "BYE") || str_eq(
        cseq_method.as_str(),
        "CANCEL",
    );
    let tx_opt = if is_teardown {
        table.get(call_id.as_str(), "INVITE")
    } else {
        table.get(call_id.as_str(), cseq_method.as_str())
    };
    let tx = match tx_opt {
        Some(tx) => tx,
        None => {
            return None;
        },
    };
    let builder = match OutboundRequestBuilder::new(packet_str, &tx, config) {
        Some(b) => b,
        None => {
            return None;
        },
    };
    let ghost bm = builder.msg@;
    let payload = builder.build();
    let dest = tx.original_client_addr.duplicate();
    let r = Some(SendAction { payload, dest });
    proof {
        let ghost key_model: KeyModel = if cseq_method@ == ("BYE")@ || cseq_method@ == (
        "CANCEL")@ {
            (call_id@, ("INVITE")@)
        } else {
            (call_id@, cseq_method@)
        };
        assert(old(table)@.contains_key(key_model) && tx@ == old(table)@[key_model]);
        assert(exists|b: Seq<char>|
            is_branch_token(b) && payload@ == build_spec(bm, tx@, config@, b));
        let b = choose|b: Seq<char>|
            is_branch_token(b) && payload@ == build_spec(bm, tx@, config@, b);
        assert(outbound_step(packet_str@, old(table)@, config@, b) == Option::Some(
            SendModel { payload: payload@, dest: tx@.original_client_addr },
        ));
    }
    r
}

/// Handles a response from either leg. Returns the forward to the original
/// external client, or nothing when the transaction is unknown; applies the
/// teardown rule.
pub fn handle_response(
    packet_str: &str,
    table: &mut TransactionTable,
    config: &AppConfig,
) -> (r: Option<SendAction>)
    requires
        old(table).wf(),
    ensures
        final(table).wf(),
        ({
            let step = response_step(packet_str@, old(table)@, config@);
            final(table)@ == step.0 && action_matches(r, step.1)
        }),
{
    let key = match extract_transaction_key(packet_str) {
        Some(k) => k,
        None => {
            return None;
        },
    };
    let (call_id, cseq_method) = key;
    let result = match table.get(call_id.as_str(), cseq_method.as_str()) {
        Some(tx) => {
            let payload = rewrite_outbound_response(packet_str, &tx, config);
            let dest = tx.original_client_addr.duplicate();
            Some(SendAction { payload, dest })
        },
        None => None,
    };
    let is_teardown_method = str_eq(cseq_method.as_str(), "BYE") || str_eq(
        cseq_method.as_str(),
        "CANCEL",
    );
    if is_teardown_method {
        proof {
            assert(packet_str@.subrange(0, packet_str@.len() as int) =~= packet_str@);
        }
        let (status_line, _rest) = next_line(packet_str, 0);
        if final_status_exec(status_line.as_str()) {
            table.remove(call_id.as_str(), "INVITE");
            table.remove(call_id.as_str(), cseq_method.as_str());
        }
    }
    result
}

/// Handles a request from either leg, by origin.
pub fn handle_request(
    packet_str: &str,
    msg: &SipMessage,
    remote: &NetAddr,
    table: &mut TransactionTable,
    config: &AppConfig,
    now: u64,
) -> (r: Option<SendAction>)
    requires
        old(table).wf(),
    ensures
        final(table).wf(),
        exists|b: Seq<char>|
            #[trigger] is_branch_token(b) && ({
                let step = request_step(packet_str@, msg@, remote@, old(table)@, config@, now, b);
                final(table)@ == step.0 && action_matches(r, step.1)
            }),
{
    let is_internal = remote.addr_eq(&config.target_addr);
    if is_internal {
        let r = handle_outbound_request(packet_str, table, config);
        proof {
            match r {
                Option::Some(_) => {},
                Option::None => {
                    lemma_branch_token_exists();
                    let b0 = choose|b: Seq<char>| is_branch_token(b);
                    assert(outbound_step(packet_str@, old(table)@, config@, b0) is None);
                },
            }
        }
        r
    } else {
        let r = handle_inbound_request(msg, remote, table, config, now);
        proof {
            lemma_branch_token_exists();
            let b0 = choose|b: Seq<char>| is_branch_token(b);
            assert(is_branch_token(b0));
        }
        r
    }
}

/// Handles one datagram: parse, classify, drive the table and the rewrite
/// engine, and say what to send where. An unparseable packet is dropped and
/// the table is untouched.
pub fn handle_packet(
    packet_str: &str,
    remote: &NetAddr,
    table: &mut TransactionTable,
    config: &AppConfig,
    now: u64,
) -> (r: Option<SendAction>)
    requires
        old(table).wf(),
    ensures
        final(table).wf(),
        exists|b: Seq<char>|
            #[trigger] is_branch_token(b) && ({
                let step = packet_step(packet_str@, remote@, old(table)@, config@, now, b);
                final(table)@ == step.0 && action_matches(r, step.1)
            }),
{
    let msg = match SipMessage::parse(packet_str) {
        Some(m) => m,
        None => {
            proof {
                lemma_branch_token_exists();
                let b0 = choose|b: Seq<char>| is_branch_token(b);
                assert(is_branch_token(b0));
            }
            return None;
        },
    };
    if starts_with_str(msg.start_line.as_str(), "SIP/2.0") {
        let r = handle_response(packet_str, table, config);
        proof {
            lemma_branch_token_exists();
            let b0 = choose|b: Seq<char>| is_branch_token(b);
            assert(is_branch_token(b0));
        }
        r
    } else {
        handle_request(packet_str, &msg, remote, table, config, now)
    }
}

} // verus!
