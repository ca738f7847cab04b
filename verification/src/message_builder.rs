//! The outbound in-dialog request builder: rewrites a request emitted by the
//! internal service (a relayed `BYE` or `CANCEL`) for the external peer. The
//! captured `Record-Route` is echoed back as a `Route` header, a fresh `Via`
//! with a random branch token and the gateway's public address replaces the
//! internal one, `Contact` is stripped, `Max-Forwards` and `Content-Length`
//! are normalized, and the Request-URI is deliberately left as the internal
//! service wrote it. The rendering carries no body.

use vstd::prelude::*;

use rand::Rng;

use crate::config::{AppConfig, ConfigModel};
use crate::message::{
    concat_crlf, drop_header, parse_spec, render_lines, render_message, upsert_header,
    MessageModel, SipMessage,
};
use crate::processor::{build_server_value, server_value};
use crate::strutil::{dec_rep, u16_to_string};
use crate::transaction::{InfoModel, TransactionInfo};

verus! {

/// Whether `c` is an ASCII letter or digit.
pub open spec fn is_alnum(c: char) -> bool {
    ('a' <= c && c <= 'z') || ('A' <= c && c <= 'Z') || ('0' <= c && c <= '9')
}

/// Whether `b` has the shape of a freshly drawn branch token: sixteen ASCII
/// alphanumerics.
pub open spec fn is_branch_token(b: Seq<char>) -> bool {
    b.len() == 16 && forall|i: int| 0 <= i < b.len() ==> is_alnum(b[i])
}

/// There is a value with the branch-token shape.
pub proof fn lemma_branch_token_exists()
    ensures
        exists|b: Seq<char>| is_branch_token(b),
{
    let b0 = Seq::<char>::new(16, |i: int| 'a');
    assert(is_branch_token(b0));
}

/// Relies on rand's `Alphanumeric` distribution: every sampled byte is an
/// ASCII letter or digit (a-z, A-Z, 0-9); sixteen are drawn from the thread
/// RNG. Nothing is assumed about which ones.
#[verifier::external_body]
fn random_branch() -> (r: String)
    ensures
        is_branch_token(r@),
{
    rand::thread_rng()
        .sample_iter(&rand::distributions::Alphanumeric)
        .take(16)
        .map(char::from)
        .collect()
}

/// The `Via` line synthesized onto outbound in-dialog requests.
pub open spec fn outbound_via_line(cfg: ConfigModel, branch: Seq<char>) -> Seq<char> {
    ("Via: SIP/2.0/UDP ")@ + cfg.public_ip + (":")@ + dec_rep(cfg.public_port as int) + (
    ";branch=z9hG4bK.")@ + branch
}

/// The rewritten outbound in-dialog request: `Route` echoed from the
/// captured `Record-Route`, one fresh `Via`, no `Contact`, normalized
/// `Max-Forwards`, `User-Agent` and `Content-Length`, and no body.
pub open spec fn build_spec(
    m: MessageModel,
    tx: InfoModel,
    cfg: ConfigModel,
    branch: Seq<char>,
) -> Seq<char> {
    let hs0 = match tx.record_route_header {
        Option::Some(rr) => upsert_header(m.headers, ("Route")@, rr),
        Option::None => m.headers,
    };
    let hs1 = drop_header(hs0, ("Contact")@);
    let hs2 = upsert_header(hs1, ("Max-Forwards")@, ("70")@);
    let hs3 = upsert_header(hs2, ("User-Agent")@, server_value(cfg));
    let hs4 = upsert_header(hs3, ("Content-Length")@, ("0")@);
    concat_crlf(
        render_lines(m.start_line, seq![outbound_via_line(cfg, branch)], hs4, Option::None),
    )
}

/// The synthesized outbound `Via` line.
fn build_outbound_via(config: &AppConfig, branch: &str) -> (r: String)
    ensures
        r@ == outbound_via_line(config@, branch@),
{
    let mut v = String::new();
    v.append("Via: SIP/2.0/UDP ");
    v.append(config.public_ip.as_str());
    v.append(":");
    let port = u16_to_string(config.public_port);
    v.append(port.as_str());
    v.append(";branch=z9hG4bK.");
    v.append(branch);
    proof {
        assert(v@ =~= outbound_via_line(config@, branch@));
    }
    v
}

/// Rewrites one internal-origin request against the addressing context of
/// its dialog's original INVITE.
pub struct OutboundRequestBuilder<'a> {
    pub msg: SipMessage,
    pub tx_info: &'a TransactionInfo,
    pub config: &'a AppConfig,
}

impl<'a> OutboundRequestBuilder<'a> {
    /// Parses the raw request; nothing when it has no first line.
    pub fn new(
        packet_str: &str,
        tx_info: &'a TransactionInfo,
        config: &'a AppConfig,
    ) -> (r: Option<OutboundRequestBuilder<'a>>)
        ensures
            match r {
                Option::Some(b) => parse_spec(packet_str@) == Option::Some(b.msg@) && b.tx_info
                    == tx_info && b.config == config,
                Option::None => parse_spec(packet_str@) is None,
            },
    {
        match SipMessage::parse(packet_str) {
            Some(msg) => Some(OutboundRequestBuilder { msg, tx_info, config }),
            None => None,
        }
    }

    /// Replaces the message's `Via` chain with one fresh gateway `Via`
    /// carrying `branch`; the internal service's own `Via` is never
    /// forwarded.
    fn rewrite_via(&mut self, branch: &str)
        ensures
            final(self).msg@.via_headers == seq![outbound_via_line(old(self).config@, branch@)],
            final(self).msg@.start_line == old(self).msg@.start_line,
            final(self).msg@.headers == old(self).msg@.headers,
            final(self).msg@.body == old(self).msg@.body,
            final(self).tx_info == old(self).tx_info,
            final(self).config == old(self).config,
    {
        let via = build_outbound_via(self.config, branch);
        let mut vias: Vec<String> = Vec::new();
        vias.push(via);
        proof {
            assert(vias.deep_view() =~= seq![outbound_via_line(self.config@, branch@)]);
        }
        self.msg.via_headers = vias;
    }

    /// Rebuilds the request for the external peer, drawing a fresh random
    /// branch token.
    pub fn build(self) -> (r: String)
        ensures
            exists|branch: Seq<char>|
                is_branch_token(branch) && r@ == build_spec(
                    self.msg@,
                    self.tx_info@,
                    self.config@,
                    branch,
                ),
    {
        let ghost m0 = self.msg@;
        let mut this = self;
        if let Some(rr) = &this.tx_info.record_route_header {
            let v = rr.clone();
            this.msg.set_header("Route", v);
        }
        let branch = random_branch();
        this.rewrite_via(branch.as_str());
        this.msg.remove_header("Contact");
        this.msg.set_header("Max-Forwards", "70".to_owned());
        let ua = build_server_value(this.config);
        this.msg.set_header("User-Agent", ua);
        this.msg.set_header("Content-Length", "0".to_owned());
        let r = render_message(this.msg.start_line.as_str(), &this.msg.via_headers, &this.msg.headers, None);
        proof {
            assert(is_branch_token(branch@));
            assert(r@ == build_spec(m0, self.tx_info@, self.config@, branch@));
        }
        r
    }
}

} // verus!
