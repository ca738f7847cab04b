//! The header rewrite engine and its helpers: raw-packet header extraction,
//! `branch` recovery from a `Via` line, the transport-parameter typo repair,
//! and the two pure rewrite directions — inbound requests (external peer to
//! internal service) and outbound responses (internal service to external
//! peer).

use vstd::prelude::*;

use crate::config::{AppConfig, ConfigModel, NetAddr};
use crate::message::{
    concat_crlf, first_line, lookup_header, next_line, parse_spec, render_lines, render_message,
    rest_lines, upsert_header, MessageModel, SipMessage,
};
use crate::strutil::{
    dec_rep, find_char, find_char_at, find_str, find_str_at, lower, lower_eq_char, lower_char,
    prefix_of, split_char, split_char_exec, split_ws_exec, starts_with_at, starts_with_str,
    trim_seq, trim_str, ws_tokens, u16_to_string,
};
use crate::transaction::{InfoModel, TransactionInfo};

verus! {

/// Whether a raw line carries the header `name`: the trimmed line, compared
/// without regard to ASCII case, starts with `name` followed by a colon.
pub open spec fn hv_match(line: Seq<char>, name: Seq<char>) -> bool {
    prefix_of(lower(name) + seq![':'], lower(trim_seq(line)))
}

/// The value of a raw header line: everything after the first colon,
/// trimmed.
pub open spec fn hv_value(line: Seq<char>) -> Seq<char> {
    match find_char(line, ':', 0) {
        Option::None => Seq::empty(),
        Option::Some(ci) => trim_seq(line.skip(ci + 1)),
    }
}

/// The value of the first line of `packet` that carries the header `name`.
pub open spec fn extract_header_value_spec(packet: Seq<char>, name: Seq<char>) -> Option<Seq<char>>
    decreases packet.len(),
{
    if packet.len() == 0 {
        Option::None
    } else if hv_match(first_line(packet), name) {
        Option::Some(hv_value(first_line(packet)))
    } else {
        extract_header_value_spec(rest_lines(packet), name)
    }
}

/// The transaction key of a raw packet: its Call-ID, paired with the method
/// named in its CSeq header. Nothing when either header is missing or the
/// CSeq value is not exactly a sequence number and a method.
pub open spec fn transaction_key_spec(packet: Seq<char>) -> Option<(Seq<char>, Seq<char>)> {
    match extract_header_value_spec(packet, ("Call-ID")@) {
        Option::None => Option::None,
        Option::Some(call_id) => match extract_header_value_spec(packet, ("CSeq")@) {
            Option::None => Option::None,
            Option::Some(cseq) => {
                let parts = ws_tokens(cseq);
                if parts.len() == 2 {
                    Option::Some((call_id, parts[1]))
                } else {
                    Option::None
                }
            },
        },
    }
}

/// Whether a `;`-separated part of a `Via` line is its branch parameter.
pub open spec fn branch_part_match(p: Seq<char>) -> bool {
    prefix_of(("branch=")@, trim_seq(p))
}

/// The first `;`-separated part that is a branch parameter.
pub open spec fn find_branch_part(parts: Seq<Seq<char>>) -> Option<Seq<char>>
    decreases parts.len(),
{
    if parts.len() == 0 {
        Option::None
    } else if branch_part_match(parts[0]) {
        Option::Some(parts[0])
    } else {
        find_branch_part(parts.drop_first())
    }
}

/// The text between the first and second `=` of a branch parameter.
pub open spec fn branch_value(p: Seq<char>) -> Option<Seq<char>> {
    let parts = split_char(p, '=');
    if parts.len() >= 2 {
        Option::Some(parts[1])
    } else {
        Option::None
    }
}

/// The branch token of a `Via` line, if it carries one.
pub open spec fn extract_branch_spec(via: Seq<char>) -> Option<Seq<char>> {
    match find_branch_part(split_char(via, ';')) {
        Option::None => Option::None,
        Option::Some(p) => branch_value(p),
    }
}

/// `s` with every occurrence of the known peer typo `trasport=` repaired to
/// `transport=`.
pub open spec fn fix_typo_spec(s: Seq<char>) -> Seq<char>
    decreases s.len(),
{
    let pat = ("trasport=")@;
    if pat.len() > 0 && prefix_of(pat, s) {
        ("transport=")@ + fix_typo_spec(s.skip(pat.len() as int))
    } else if s.len() == 0 {
        Seq::empty()
    } else {
        seq![s[0]] + fix_typo_spec(s.drop_first())
    }
}

/// The single `Via` line synthesized onto inbound requests: the gateway's
/// public address, the topmost original branch, and the `rport` and
/// `received` NAT-traversal parameters.
pub open spec fn inbound_via_line(cfg: ConfigModel, branch: Seq<char>, remote_ip: Seq<char>)
    -> Seq<char> {
    ("Via: SIP/2.0/UDP ")@ + cfg.public_ip + (":")@ + dec_rep(cfg.public_port as int) + (
    ";branch=")@ + branch + (";rport;received=")@ + remote_ip
}

/// The branch token of the topmost `Via` of a message, or empty when there
/// is none.
pub open spec fn top_branch(m: MessageModel) -> Seq<char> {
    let first_via = if m.via_headers.len() > 0 {
        m.via_headers[0]
    } else {
        Seq::<char>::empty()
    };
    match extract_branch_spec(first_via) {
        Option::None => Seq::empty(),
        Option::Some(b) => b,
    }
}

/// An inbound request rewritten for the internal leg: the whole original
/// `Via` chain is replaced by one synthesized `Via`; every other header and
/// the body pass through unmodified.
pub open spec fn rewrite_inbound_spec(m: MessageModel, remote_ip: Seq<char>, cfg: ConfigModel)
    -> Seq<char> {
    concat_crlf(
        render_lines(
            m.start_line,
            seq![inbound_via_line(cfg, top_branch(m), remote_ip)],
            m.headers,
            Option::Some(m.body),
        ),
    )
}

/// The `Server` / `User-Agent` identification value.
pub open spec fn server_value(cfg: ConfigModel) -> Seq<char> {
    ("SIP Gateway v")@ + cfg.service_version
}

/// The user part of a SIP URI inside a `Contact` value: the text between
/// the first `sip:` and the first `@` after it. When the value carries no
/// such shape, the neutral user `gateway` stands in.
pub open spec fn contact_user(v: Seq<char>) -> Seq<char> {
    match find_str(v, ("sip:")@, 0) {
        Option::None => ("gateway")@,
        Option::Some(i) => match find_char(v, '@', i + ("sip:")@.len() as int) {
            Option::None => ("gateway")@,
            Option::Some(b) => v.subrange(i + ("sip:")@.len() as int, b),
        },
    }
}

/// The gateway's own `Contact` value for a given user part, pointing future
/// in-dialog requests back through the gateway.
pub open spec fn gateway_contact(cfg: ConfigModel, user: Seq<char>) -> Seq<char> {
    ("<sip:")@ + user + ("@")@ + cfg.public_ip + (":")@ + dec_rep(cfg.public_port as int) + (
    ">")@
}

/// An outbound response rewritten for the external leg: the internal
/// service's `Via` chain is replaced by the original externally-received
/// chain; `Contact`, when present, is rewritten to the gateway's public
/// address, preserving the URI's user part; a `Server` header is set. An
/// unparseable packet is passed through unchanged.
pub open spec fn rewrite_outbound_spec(packet: Seq<char>, tx: InfoModel, cfg: ConfigModel)
    -> Seq<char> {
    match parse_spec(packet) {
        Option::None => packet,
        Option::Some(m) => {
            let hs0 = match lookup_header(m.headers, ("Contact")@) {
                Option::Some(cv) => upsert_header(
                    m.headers,
                    ("Contact")@,
                    gateway_contact(cfg, contact_user(cv)),
                ),
                Option::None => m.headers,
            };
            let hs = upsert_header(hs0, ("Server")@, server_value(cfg));
            concat_crlf(
                render_lines(m.start_line, tx.original_via_headers, hs, Option::Some(m.body)),
            )
        },
    }
}

/// Whether a raw line carries the header `name`.
fn hv_match_exec(line: &str, name: &str) -> (r: bool)
    ensures
        r == hv_match(line@, name@),
{
    let t = trim_str(line);
    let tn = t.unicode_len();
    let nn = name.unicode_len();
    let ghost pat = lower(name@) + seq![':'];
    let ghost tgt = lower(t@);
    proof {
        assert(pat.len() == nn + 1);
        assert(tgt.len() == tn);
    }
    if tn <= nn {
        proof {
            assert(!prefix_of(pat, tgt));
        }
        return false;
    }
    let mut j: usize = 0;
    while j < nn
        invariant
            j <= nn,
            nn == name@.len(),
            tn == t@.len(),
            tn > nn,
            t@ == trim_seq(line@),
            pat == lower(name@) + seq![':'],
            tgt == lower(t@),
            forall|k: int| 0 <= k < j ==> pat[k] == tgt[k],
        decreases nn - j,
    {
        let same = lower_eq_char(t.get_char(j), name.get_char(j));
        proof {
            assert(pat[j as int] == lower_char(name@[j as int]));
            assert(tgt[j as int] == lower_char(t@[j as int]));
        }
        if !same {
            proof {
                assert(pat[j as int] != tgt[j as int]);
                assert(!prefix_of(pat, tgt));
            }
            return false;
        }
        j = j + 1;
    }
    let r = lower_eq_char(t.get_char(nn), ':');
    proof {
        assert(lower_char(':') == ':');
        assert(pat[nn as int] == ':');
        assert(tgt[nn as int] == lower_char(t@[nn as int]));
        if r {
            assert(prefix_of(pat, tgt));
        } else {
            assert(pat[nn as int] != tgt[nn as int]);
            assert(!prefix_of(pat, tgt));
        }
    }
    r
}

/// The value part of a raw header line.
fn hv_value_exec(line: &str) -> (r: String)
    ensures
        r@ == hv_value(line@),
{
    let n = line.unicode_len();
    match find_char_at(line, 0, ':') {
        None => String::new(),
        Some(ci) => {
            let part = line.substring_char(ci + 1, n);
            proof {
                assert(part@ =~= line@.skip(ci as int + 1));
            }
            trim_str(part).to_owned()
        },
    }
}

/// The value of the first line of `packet` that carries the header
/// `header_name`, compared without regard to ASCII case.
pub fn extract_header_value(packet: &str, header_name: &str) -> (r: Option<String>)
    ensures
        match r {
            Option::Some(v) => extract_header_value_spec(packet@, header_name@) == Option::Some(
                v@,
            ),
            Option::None => extract_header_value_spec(packet@, header_name@) is None,
        },
{
    let n = packet.unicode_len();
    let mut pos: usize = 0;
    proof {
        assert(packet@.subrange(0, n as int) =~= packet@);
    }
    while pos < n
        invariant
            pos <= n,
            n == packet@.len(),
            extract_header_value_spec(packet@, header_name@) == extract_header_value_spec(
                packet@.subrange(pos as int, n as int),
                header_name@,
            ),
        decreases n - pos,
    {
        let ghost suf = packet@.subrange(pos as int, n as int);
        let (line, new_pos) = next_line(packet, pos);
        if hv_match_exec(line.as_str(), header_name) {
            let v = hv_value_exec(line.as_str());
            proof {
                assert(extract_header_value_spec(suf, header_name@) == Option::Some(
                    hv_value(first_line(suf)),
                ));
            }
            return Some(v);
        }
        proof {
            assert(extract_header_value_spec(suf, header_name@) == extract_header_value_spec(
                rest_lines(suf),
                header_name@,
            ));
        }
        pos = new_pos;
    }
    proof {
        assert(packet@.subrange(pos as int, n as int).len() == 0);
    }
    None
}

/// The `(Call-ID, CSeq method)` pair that keys a packet's transaction.
pub fn extract_transaction_key(packet: &str) -> (r: Option<(String, String)>)
    ensures
        match r {
            Option::Some(k) => transaction_key_spec(packet@) == Option::Some((k.0@, k.1@)),
            Option::None => transaction_key_spec(packet@) is None,
        },
{
    let call_id = match extract_header_value(packet, "Call-ID") {
        Some(c) => c,
        None => {
            return None;
        },
    };
    let cseq = match extract_header_value(packet, "CSeq") {
        Some(c) => c,
        None => {
            return None;
        },
    };
    let parts = split_ws_exec(cseq.as_str());
    if parts.len() == 2 {
        let method = parts[1].clone();
        proof {
            assert(parts.deep_view()[1] == method@);
        }
        Some((call_id, method))
    } else {
        None
    }
}

/// The branch token of a `Via` line: the text between the first and second
/// `=` of its first `;`-separated `branch=` parameter.
pub fn extract_branch_from_via(via_header: &str) -> (r: Option<String>)
    ensures
        match r {
            Option::Some(b) => extract_branch_spec(via_header@) == Option::Some(b@),
            Option::None => extract_branch_spec(via_header@) is None,
        },
{
    let parts = split_char_exec(via_header, ';');
    proof {
        assert(parts.deep_view().skip(0) =~= parts.deep_view());
    }
    let mut i: usize = 0;
    while i < parts.len()
        invariant
            i <= parts@.len(),
            parts.deep_view() == split_char(via_header@, ';'),
            find_branch_part(split_char(via_header@, ';')) == find_branch_part(
                parts.deep_view().skip(i as int),
            ),
        decreases parts@.len() - i,
    {
        let t = trim_str(parts[i].as_str());
        proof {
            assert(parts.deep_view().skip(i as int)[0] == parts.deep_view()[i as int]);
        }
        if starts_with_str(t, "branch=") {
            proof {
                assert(branch_part_match(parts.deep_view()[i as int]));
                assert(find_branch_part(parts.deep_view().skip(i as int)) == Option::Some(
                    parts.deep_view()[i as int],
                ));
            }
            let sub_parts = split_char_exec(parts[i].as_str(), '=');
            if sub_parts.len() >= 2 {
                let val = sub_parts[1].clone();
                proof {
                    assert(sub_parts.deep_view()[1] == val@);
                }
                return Some(val);
            } else {
                return None;
            }
        }
        proof {
            assert(!branch_part_match(parts.deep_view()[i as int]));
            assert(parts.deep_view().skip(i as int).drop_first() =~= parts.deep_view().skip(
                i as int + 1,
            ));
        }
        i = i + 1;
    }
    proof {
        assert(parts.deep_view().skip(parts@.len() as int) =~= Seq::<Seq<char>>::empty());
    }
    None
}

/// `s` with every `trasport=` occurrence repaired to `transport=`: a narrow
/// compatibility patch for a known peer typo that would otherwise draw
/// `475 Bad URI` rejections downstream.
pub fn fix_transport_typo(s: &str) -> (r: String)
    ensures
        r@ == fix_typo_spec(s@),
{
    let n = s.unicode_len();
    let mut out = String::new();
    let mut i: usize = 0;
    proof {
        assert(s@.subrange(0, n as int) =~= s@);
        assert(out@ + fix_typo_spec(s@) =~= fix_typo_spec(s@));
    }
    while i < n
        invariant
            i <= n,
            n == s@.len(),
            out@ + fix_typo_spec(s@.subrange(i as int, n as int)) == fix_typo_spec(s@),
        decreases n - i,
    {
        let ghost suf = s@.subrange(i as int, n as int);
        let ghost before = out@;
        proof {
            reveal_strlit("trasport=");
            reveal_strlit("transport=");
            assert(("trasport=")@.len() == 9);
        }
        if starts_with_at(s, i, "trasport=") {
            out.append("transport=");
            proof {
                assert(prefix_of(("trasport=")@, suf));
                assert(fix_typo_spec(suf) == ("transport=")@ + fix_typo_spec(suf.skip(9)));
                assert(suf.skip(9) =~= s@.subrange(i as int + 9, n as int));
                assert(out@ + fix_typo_spec(s@.subrange(i as int + 9, n as int)) =~= before
                    + fix_typo_spec(suf));
            }
            i = i + 9;
        } else {
            let ch = s.substring_char(i, i + 1);
            out.append(ch);
            proof {
                assert(ch@ =~= seq![s@[i as int]]);
                assert(suf[0] == s@[i as int]);
                assert(!prefix_of(("trasport=")@, suf));
                assert(fix_typo_spec(suf) == seq![suf[0]] + fix_typo_spec(suf.drop_first()));
                assert(suf.drop_first() =~= s@.subrange(i as int + 1, n as int));
                assert(out@ + fix_typo_spec(s@.subrange(i as int + 1, n as int)) =~= before
                    + fix_typo_spec(suf));
            }
            i = i + 1;
        }
    }
    proof {
        assert(fix_typo_spec(s@.subrange(n as int, n as int)) =~= Seq::<char>::empty());
        assert(out@ =~= out@ + fix_typo_spec(s@.subrange(n as int, n as int)));
    }
    out
}

/// The synthesized inbound `Via` line.
fn build_inbound_via(config: &AppConfig, branch: &str, remote_ip: &str) -> (r: String)
    ensures
        r@ == inbound_via_line(config@, branch@, remote_ip@),
{
    let mut v = String::new();
    v.append("Via: SIP/2.0/UDP ");
    v.append(config.public_ip.as_str());
    v.append(":");
    let port = u16_to_string(config.public_port);
    v.append(port.as_str());
    v.append(";branch=");
    v.append(branch);
    v.append(";rport;received=");
    v.append(remote_ip);
    proof {
        assert(v@ =~= inbound_via_line(config@, branch@, remote_ip@));
    }
    v
}

/// The `Server` / `User-Agent` identification value.
pub(crate) fn build_server_value(config: &AppConfig) -> (r: String)
    ensures
        r@ == server_value(config@),
{
    let mut v = String::new();
    v.append("SIP Gateway v");
    v.append(config.service_version.as_str());
    proof {
        assert(v@ =~= server_value(config@));
    }
    v
}

/// The user part of a `Contact` value, or `gateway` when none can be read.
fn contact_user_exec(v: &str) -> (r: String)
    ensures
        r@ == contact_user(v@),
{
    proof {
        reveal_strlit("sip:");
        assert(("sip:")@.len() == 4);
    }
    let n = v.unicode_len();
    match find_str_at(v, 0, "sip:") {
        None => "gateway".to_owned(),
        Some(i) => {
            proof {
                assert(i + 4 <= n);
            }
            let a = i + 4;
            match find_char_at(v, a, '@') {
                None => "gateway".to_owned(),
                Some(b) => {
                    let part = v.substring_char(a, b);
                    proof {
                        assert(part@ =~= v@.subrange(a as int, b as int));
                    }
                    part.to_owned()
                },
            }
        },
    }
}

/// The gateway's own `Contact` value for a given user part.
fn build_gateway_contact(config: &AppConfig, user: &str) -> (r: String)
    ensures
        r@ == gateway_contact(config@, user@),
{
    let mut v = String::new();
    v.append("<sip:");
    v.append(user);
    v.append("@");
    v.append(config.public_ip.as_str());
    v.append(":");
    let port = u16_to_string(config.public_port);
    v.append(port.as_str());
    v.append(">");
    proof {
        assert(v@ =~= gateway_contact(config@, user@));
    }
    v
}

/// Rewrites a request from the external leg for the internal service: the
/// original `Via` chain is collapsed to one synthesized `Via` carrying the
/// gateway's public address, the topmost original branch, and the `rport`
/// and `received` parameters; all other headers and the body pass through.
pub fn rewrite_inbound_request(msg: &SipMessage, remote: &NetAddr, config: &AppConfig) -> (r:
    String)
    ensures
        r@ == rewrite_inbound_spec(msg@, remote@.ip, config@),
{
    let first_via: &str = if msg.via_headers.len() > 0 {
        msg.via_headers[0].as_str()
    } else {
        ""
    };
    proof {
        if msg.via_headers@.len() == 0 {
            reveal_strlit("");
            assert(("")@ =~= Seq::<char>::empty());
        } else {
            assert(msg.via_headers.deep_view()[0] == msg.via_headers@[0]@);
        }
    }
    let branch = match extract_branch_from_via(first_via) {
        Some(b) => b,
        None => String::new(),
    };
    proof {
        assert(branch@ == top_branch(msg@));
    }
    let via = build_inbound_via(config, branch.as_str(), remote.ip.as_str());
    let mut vias: Vec<String> = Vec::new();
    vias.push(via);
    proof {
        assert(vias.deep_view() =~= seq![
            inbound_via_line(config@, top_branch(msg@), remote@.ip),
        ]);
    }
    render_message(msg.start_line.as_str(), &vias, &msg.headers, Some(msg.body.as_str()))
}

/// Rewrites a response from the internal leg for the original external
/// client: restores the captured `Via` chain, points `Contact` (when
/// present) at the gateway while keeping the URI's user part, and sets the
/// `Server` header. An unparseable packet is returned unchanged.
pub fn rewrite_outbound_response(
    packet_str: &str,
    tx_info: &TransactionInfo,
    config: &AppConfig,
) -> (r: String)
    ensures
        r@ == rewrite_outbound_spec(packet_str@, tx_info@, config@),
{
    let mut msg = match SipMessage::parse(packet_str) {
        Some(m) => m,
        None => {
            return packet_str.to_owned();
        },
    };
    let user_opt = match msg.header("Contact") {
        Some(cv) => Some(contact_user_exec(cv.as_str())),
        None => None,
    };
    if let Some(user) = user_opt {
        let contact = build_gateway_contact(config, user.as_str());
        msg.set_header("Contact", contact);
    }
    let server = build_server_value(config);
    msg.set_header("Server", server);
    render_message(
        msg.start_line.as_str(),
        &tx_info.original_via_headers,
        &msg.headers,
        Some(msg.body.as_str()),
    )
}

} // verus!
