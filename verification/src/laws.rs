//! Laws of the gateway, proved against the dispatcher's step functions and
//! the table model: at-most-once call setup, idle expiration, the drop of
//! unknown-dialog responses, and the transport-parameter repair.

use vstd::prelude::*;

use crate::config::{AddrModel, ConfigModel};
use crate::handler::{inbound_step, method_of, response_step};
use crate::message::{
    canon_name, concat_crlf, crlf, empty_acc, first_line, header_line, header_lines, is_via_name,
    lookup_header, parse_lines, parse_spec, parse_step, render_lines, rest_lines, MessageModel,
    ParseAcc,
};
use crate::message::{drop_header, upsert_header};
use crate::processor::{
    branch_value, extract_branch_spec, find_branch_part, fix_typo_spec, gateway_contact,
    inbound_via_line, rewrite_inbound_spec, rewrite_outbound_spec, server_value, top_branch,
};
use crate::strutil::{
    dec_rep, find_char, is_ws, lemma_dec_rep_digits, lemma_find_char_first, lemma_find_char_props,
    lemma_line_clean_concat, lemma_split_char_step, lemma_split_char_whole,
    lemma_trim_end_keeps_head, lemma_trim_idem, lemma_trim_sub, line_clean, lower, prefix_of,
    split_char, trim_seq,
};
use crate::transaction::{
    drop_expired, entries_map, expired, keys_unique, lemma_drop_expired, InfoModel, KeyModel,
};

verus! {

/// Whether `l` re-parses as one `Via` line: free of line feeds, nonempty,
/// and named `Via` (or `v`) before its first colon.
pub open spec fn via_line_ok(l: Seq<char>) -> bool {
    line_clean(l) && l.len() > 0 && match find_char(l, ':', 0) {
        Option::Some(ci) => is_via_name(trim_seq(l.take(ci))),
        Option::None => false,
    }
}

/// Whether a header entry re-parses as a header line and not as a `Via`
/// line or a blank separator.
pub open spec fn header_entry_ok(e: (Seq<char>, Seq<char>)) -> bool {
    line_clean(e.0) && line_clean(e.1) && (forall|j: int| 0 <= j < e.0.len() ==> e.0[j] != ':')
        && !is_via_name(trim_seq(e.0))
}

/// What one rendered header entry parses back to.
pub open spec fn parsed_header_entry(e: (Seq<char>, Seq<char>)) -> (Seq<char>, Seq<char>) {
    (canon_name(trim_seq(e.0)), trim_seq(seq![' '] + e.1))
}

pub proof fn lemma_concat_crlf_append(a: Seq<Seq<char>>, b: Seq<Seq<char>>)
    ensures
        concat_crlf(a + b) == concat_crlf(a) + concat_crlf(b),
    decreases a.len(),
{
    if a.len() == 0 {
        assert(a + b =~= b);
        assert(concat_crlf(a) + concat_crlf(b) =~= concat_crlf(b));
    } else {
        lemma_concat_crlf_append(a.drop_first(), b);
        assert((a + b).len() > 0);
        assert((a + b)[0] == a[0]);
        assert((a + b).drop_first() =~= a.drop_first() + b);
        assert(concat_crlf(a + b) == (a + b)[0] + crlf() + concat_crlf((a + b).drop_first()));
        assert(concat_crlf(a) == a[0] + crlf() + concat_crlf(a.drop_first()));
        assert(concat_crlf(a + b) =~= concat_crlf(a) + concat_crlf(b));
    }
}

/// A clean line followed by CRLF and anything re-parses as that line.
pub proof fn lemma_first_line_concat(l: Seq<char>, rest: Seq<char>)
    requires
        line_clean(l),
    ensures
        first_line(l + crlf() + rest) == l,
        rest_lines(l + crlf() + rest) == rest,
{
    let s = l + crlf() + rest;
    let k = l.len() as int + 1;
    assert(s.len() == l.len() + 2 + rest.len());
    assert(s[k] == '\n');
    assert(s[k - 1] == '\r');
    assert(forall|j: int| 0 <= j < l.len() ==> s[j] == l[j]);
    assert forall|j: int| 0 <= j < k implies s[j] != '\n' by {
        if j < l.len() {
            assert(s[j] == l[j]);
        } else {
            assert(s[j] == '\r');
        }
    }
    lemma_find_char_first(s, '\n', 0, k);
    let raw = s.take(k);
    assert(raw.len() == k);
    assert(raw.last() == s[k - 1]);
    assert(raw.drop_last() =~= l);
    assert(s.skip(k + 1) =~= rest);
}

/// One classification step peeled off the front of a rendered tail.
pub proof fn lemma_parse_lines_cons(l: Seq<char>, rest: Seq<char>, acc: ParseAcc)
    requires
        line_clean(l),
    ensures
        parse_lines(l + crlf() + rest, acc) == parse_lines(rest, parse_step(acc, l)),
{
    lemma_first_line_concat(l, rest);
    assert((l + crlf() + rest).len() > 0);
}

/// Rendered `Via` lines all land in the `Via` chain, in order.
pub proof fn lemma_via_phase(vias: Seq<Seq<char>>, rest: Seq<char>, acc: ParseAcc)
    requires
        acc.in_body == false,
        forall|i: int| 0 <= i < vias.len() ==> via_line_ok(#[trigger] vias[i]),
    ensures
        parse_lines(concat_crlf(vias) + rest, acc) == parse_lines(
            rest,
            ParseAcc {
                in_body: false,
                headers: acc.headers,
                via_headers: acc.via_headers + vias,
                body_lines: acc.body_lines,
            },
        ),
    decreases vias.len(),
{
    if vias.len() == 0 {
        assert(concat_crlf(vias) + rest =~= rest);
        assert(ParseAcc {
            in_body: false,
            headers: acc.headers,
            via_headers: acc.via_headers + vias,
            body_lines: acc.body_lines,
        } =~= acc);
    } else {
        let l = vias[0];
        let tail = vias.drop_first();
        assert(via_line_ok(l));
        assert(concat_crlf(vias) == l + crlf() + concat_crlf(tail));
        assert(concat_crlf(vias) + rest =~= l + crlf() + (concat_crlf(tail) + rest));
        lemma_parse_lines_cons(l, concat_crlf(tail) + rest, acc);
        let acc1 = parse_step(acc, l);
        assert(acc1 == ParseAcc {
            in_body: false,
            headers: acc.headers,
            via_headers: acc.via_headers.push(l),
            body_lines: acc.body_lines,
        });
        assert forall|i: int| 0 <= i < tail.len() implies via_line_ok(#[trigger] tail[i]) by {
            assert(tail[i] == vias[i + 1]);
        }
        lemma_via_phase(tail, rest, acc1);
        assert(acc1.via_headers + tail =~= acc.via_headers + vias);
        assert(ParseAcc {
            in_body: false,
            headers: acc1.headers,
            via_headers: acc1.via_headers + tail,
            body_lines: acc1.body_lines,
        } =~= ParseAcc {
            in_body: false,
            headers: acc.headers,
            via_headers: acc.via_headers + vias,
            body_lines: acc.body_lines,
        });
    }
}

/// Rendered header entries all land back in the header list; the `Via`
/// chain and the phase flag are untouched.
pub proof fn lemma_header_phase(hs: Seq<(Seq<char>, Seq<char>)>, rest: Seq<char>, acc: ParseAcc)
    requires
        acc.in_body == false,
        forall|i: int| 0 <= i < hs.len() ==> header_entry_ok(#[trigger] hs[i]),
    ensures
        parse_lines(concat_crlf(header_lines(hs)) + rest, acc) == parse_lines(
            rest,
            ParseAcc {
                in_body: false,
                headers: acc.headers + hs.map_values(
                    |e: (Seq<char>, Seq<char>)| parsed_header_entry(e),
                ),
                via_headers: acc.via_headers,
                body_lines: acc.body_lines,
            },
        ),
    decreases hs.len(),
{
    let mapped = hs.map_values(|e: (Seq<char>, Seq<char>)| parsed_header_entry(e));
    if hs.len() == 0 {
        assert(header_lines(hs).len() == 0);
        assert(concat_crlf(header_lines(hs)) + rest =~= rest);
        assert(ParseAcc {
            in_body: false,
            headers: acc.headers + mapped,
            via_headers: acc.via_headers,
            body_lines: acc.body_lines,
        } =~= acc);
    } else {
        reveal_strlit(": ");
        assert((": ")@.len() == 2 && (": ")@[0] == ':' && (": ")@[1] == ' ');
        let e = hs[0];
        assert(header_entry_ok(e));
        let tail = hs.drop_first();
        let hl = header_line(e.0, e.1);
        assert(header_lines(hs)[0] == hl);
        assert(header_lines(hs).drop_first() =~= header_lines(tail));
        assert(header_lines(hs).len() > 0);
        assert(concat_crlf(header_lines(hs)) == hl + crlf() + concat_crlf(header_lines(tail)));
        let ci = e.0.len() as int;
        assert(hl.len() == e.0.len() + 2 + e.1.len());
        assert(hl[ci] == ':');
        assert(hl[ci + 1] == ' ');
        assert forall|j: int| 0 <= j < ci implies hl[j] != ':' by {
            assert(hl[j] == e.0[j]);
        }
        assert(line_clean(hl)) by {
            assert forall|j: int| 0 <= j < hl.len() implies hl[j] != '\n' by {
                if j < ci {
                    assert(hl[j] == e.0[j]);
                } else if j < ci + 2 {
                } else {
                    assert(hl[j] == e.1[j - ci - 2]);
                }
            }
        }
        assert(concat_crlf(header_lines(hs)) + rest =~= hl + crlf() + (concat_crlf(
            header_lines(tail),
        ) + rest));
        lemma_parse_lines_cons(hl, concat_crlf(header_lines(tail)) + rest, acc);
        lemma_find_char_first(hl, ':', 0, ci);
        assert(hl.take(ci) =~= e.0);
        assert(hl.skip(ci + 1) =~= seq![' '] + e.1);
        let acc1 = parse_step(acc, hl);
        assert(acc1 == ParseAcc {
            in_body: false,
            headers: acc.headers.push(parsed_header_entry(e)),
            via_headers: acc.via_headers,
            body_lines: acc.body_lines,
        });
        assert forall|i: int| 0 <= i < tail.len() implies header_entry_ok(#[trigger] tail[i]) by {
            assert(tail[i] == hs[i + 1]);
        }
        lemma_header_phase(tail, rest, acc1);
        let tail_mapped = tail.map_values(|e2: (Seq<char>, Seq<char>)| parsed_header_entry(e2));
        assert(acc1.headers + tail_mapped =~= acc.headers + mapped) by {
            assert(forall|i: int|
                0 <= i < tail.len() ==> #[trigger] tail_mapped[i] == parsed_header_entry(
                    hs[i + 1],
                ));
            assert(forall|i: int|
                0 <= i < hs.len() ==> #[trigger] mapped[i] == parsed_header_entry(hs[i]));
        }
        assert(ParseAcc {
            in_body: false,
            headers: acc1.headers + tail_mapped,
            via_headers: acc1.via_headers,
            body_lines: acc1.body_lines,
        } =~= ParseAcc {
            in_body: false,
            headers: acc.headers + mapped,
            via_headers: acc.via_headers,
            body_lines: acc.body_lines,
        });
    }
}

/// Once the body has begun, classification only gathers body lines.
pub proof fn lemma_body_phase(s: Seq<char>, acc: ParseAcc)
    requires
        acc.in_body,
    ensures
        parse_lines(s, acc).in_body == true,
        parse_lines(s, acc).headers == acc.headers,
        parse_lines(s, acc).via_headers == acc.via_headers,
    decreases s.len(),
{
    if s.len() > 0 {
        let acc1 = parse_step(acc, first_line(s));
        assert(acc1.in_body && acc1.headers == acc.headers && acc1.via_headers
            == acc.via_headers);
        lemma_body_phase(rest_lines(s), acc1);
    }
}

/// A message rendered from a clean start line, re-parseable `Via` lines and
/// re-parseable header entries parses back with exactly that start line and
/// exactly that `Via` chain, in order.
pub proof fn lemma_parse_render(
    start: Seq<char>,
    vias: Seq<Seq<char>>,
    hs: Seq<(Seq<char>, Seq<char>)>,
    body: Seq<char>,
)
    requires
        line_clean(start),
        forall|i: int| 0 <= i < vias.len() ==> via_line_ok(#[trigger] vias[i]),
        forall|i: int| 0 <= i < hs.len() ==> header_entry_ok(#[trigger] hs[i]),
    ensures
        ({
            let out = concat_crlf(render_lines(start, vias, hs, Option::Some(body)));
            &&& parse_spec(out) is Some
            &&& (parse_spec(out)->0).start_line == start
            &&& (parse_spec(out)->0).via_headers == vias
        }),
{
    let lines = render_lines(start, vias, hs, Option::Some(body));
    let out = concat_crlf(lines);
    let hlines = header_lines(hs);
    let sep = seq![Seq::<char>::empty()];
    let btail = seq![body];
    assert(lines[0] == start);
    assert(lines.len() > 0);
    assert(lines.drop_first() =~= vias + (hlines + (sep + btail)));
    assert(out == start + crlf() + concat_crlf(lines.drop_first()));
    let rest1 = concat_crlf(lines.drop_first());
    lemma_first_line_concat(start, rest1);
    assert(out.len() > 0);
    assert(first_line(out) == start);
    assert(rest_lines(out) == rest1);
    lemma_concat_crlf_append(vias, hlines + (sep + btail));
    let rest_h = concat_crlf(hlines + (sep + btail));
    assert(rest1 == concat_crlf(vias) + rest_h);
    lemma_concat_crlf_append(hlines, sep + btail);
    let rest_e = concat_crlf(sep + btail);
    assert(rest_h == concat_crlf(hlines) + rest_e);
    let acc0 = empty_acc();
    lemma_via_phase(vias, rest_h, acc0);
    let acc_v = ParseAcc {
        in_body: false,
        headers: acc0.headers,
        via_headers: acc0.via_headers + vias,
        body_lines: acc0.body_lines,
    };
    lemma_header_phase(hs, rest_e, acc_v);
    let acc_h = ParseAcc {
        in_body: false,
        headers: acc_v.headers + hs.map_values(
            |e: (Seq<char>, Seq<char>)| parsed_header_entry(e),
        ),
        via_headers: acc_v.via_headers,
        body_lines: acc_v.body_lines,
    };
    assert((sep + btail)[0] == Seq::<char>::empty());
    assert((sep + btail).drop_first() =~= btail);
    assert((sep + btail).len() == 2);
    assert(rest_e == Seq::<char>::empty() + crlf() + concat_crlf(btail));
    assert(rest_e =~= Seq::<char>::empty() + crlf() + concat_crlf(btail));
    lemma_parse_lines_cons(Seq::<char>::empty(), concat_crlf(btail), acc_h);
    let acc_e = parse_step(acc_h, Seq::<char>::empty());
    assert(acc_e.in_body == true && acc_e.headers == acc_h.headers && acc_e.via_headers
        == acc_h.via_headers);
    lemma_body_phase(concat_crlf(btail), acc_e);
    let acc_f = parse_lines(concat_crlf(btail), acc_e);
    assert(parse_lines(rest1, acc0) == acc_f);
    assert(acc_f.via_headers =~= vias);
    assert(parse_spec(out) is Some);
    assert((parse_spec(out)->0).start_line == start);
    assert((parse_spec(out)->0).via_headers == vias);
}

/// Whether a header name re-parses as itself: free of line feeds and
/// colons, and not naming the `Via` chain.
pub open spec fn header_name_ok(x: Seq<char>) -> bool {
    line_clean(x) && (forall|j: int| 0 <= j < x.len() ==> x[j] != ':') && !is_via_name(
        trim_seq(x),
    )
}

/// Every line produced by line splitting is free of line feeds.
pub proof fn lemma_first_line_clean(s: Seq<char>)
    ensures
        line_clean(first_line(s)),
{
    lemma_find_char_props(s, '\n', 0);
    match find_char(s, '\n', 0) {
        Option::Some(e) => {
            if 0 <= e < s.len() {
                let raw = s.take(e);
                assert(forall|j: int| 0 <= j < raw.len() ==> raw[j] == s[j]);
                assert(line_clean(raw));
                assert(line_clean(first_line(s))) by {
                    if raw.len() > 0 && raw.last() == '\r' {
                        assert(forall|j: int|
                            0 <= j < raw.drop_last().len() ==> raw.drop_last()[j] == raw[j]);
                    }
                }
            }
        },
        Option::None => {
            assert(line_clean(s));
        },
    }
}

/// The canonical form of a name that re-parses as itself re-parses as
/// itself too.
pub proof fn lemma_canon_name_ok(name: Seq<char>)
    requires
        header_name_ok(name),
        trim_seq(name) == name,
    ensures
        header_name_ok(canon_name(name)),
        trim_seq(canon_name(name)) == canon_name(name),
{
    reveal_strlit("via");
    reveal_strlit("v");
    reveal_strlit("Call-ID");
    reveal_strlit("Contact");
    reveal_strlit("Content-Encoding");
    reveal_strlit("Content-Length");
    reveal_strlit("Content-Type");
    reveal_strlit("From");
    reveal_strlit("To");
    reveal_strlit("Subject");
    reveal_strlit("Supported");
    assert(("via")@.len() == 3 && ("v")@.len() == 1);
    lemma_canon_lit_ok(("Call-ID")@);
    lemma_canon_lit_ok(("Contact")@);
    lemma_canon_lit_ok(("Content-Encoding")@);
    lemma_canon_lit_ok(("Content-Length")@);
    lemma_canon_lit_ok(("Content-Type")@);
    lemma_canon_lit_ok(("From")@);
    lemma_canon_lit_ok(("To")@);
    lemma_canon_lit_ok(("Subject")@);
    lemma_canon_lit_ok(("Supported")@);
}

/// A canonical full header name: at least two characters but never three
/// (so never `Via` or `v` in any case), made of letters and hyphens.
proof fn lemma_canon_lit_ok(x: Seq<char>)
    requires
        x.len() >= 2,
        x.len() != 3,
        forall|j: int|
            0 <= j < x.len() ==> ('A' <= #[trigger] x[j] && x[j] <= 'Z') || ('a' <= x[j] && x[j]
                <= 'z') || x[j] == '-',
    ensures
        header_name_ok(x),
        trim_seq(x) == x,
{
    reveal_strlit("via");
    reveal_strlit("v");
    assert(!crate::strutil::is_ws(x[0]));
    assert(!crate::strutil::is_ws(x.last()));
    assert(crate::strutil::trim_start_rec(x) == x);
    assert(crate::strutil::trim_end_rec(x) == x);
    assert(line_clean(x));
    assert(forall|j: int| 0 <= j < x.len() ==> x[j] != ':');
    assert(lower(x).len() == x.len());
    assert(("via")@.len() == 3 && ("v")@.len() == 1);
    assert(!is_via_name(trim_seq(x)));
}

/// Classification preserves the re-parseability of everything gathered: the
/// `Via` lines it keeps are `Via` lines, and the header entries it builds
/// re-parse as themselves.
pub proof fn lemma_parse_lines_wf(s: Seq<char>, acc: ParseAcc)
    requires
        forall|i: int|
            0 <= i < acc.via_headers.len() ==> via_line_ok(#[trigger] acc.via_headers[i]),
        forall|i: int| 0 <= i < acc.headers.len() ==> header_entry_ok(#[trigger] acc.headers[i]),
    ensures
        forall|i: int|
            0 <= i < parse_lines(s, acc).via_headers.len() ==> via_line_ok(
                #[trigger] parse_lines(s, acc).via_headers[i],
            ),
        forall|i: int|
            0 <= i < parse_lines(s, acc).headers.len() ==> header_entry_ok(
                #[trigger] parse_lines(s, acc).headers[i],
            ),
    decreases s.len(),
{
    if s.len() > 0 {
        let l = first_line(s);
        lemma_first_line_clean(s);
        let acc1 = parse_step(acc, l);
        if !acc.in_body && l.len() > 0 {
            match find_char(l, ':', 0) {
                Option::None => {},
                Option::Some(ci) => {
                    lemma_find_char_props(l, ':', 0);
                    let raw_name = l.take(ci);
                    let name = trim_seq(raw_name);
                    if is_via_name(name) {
                        assert(via_line_ok(l));
                        assert forall|i: int| 0 <= i < acc1.via_headers.len() implies via_line_ok(
                            #[trigger] acc1.via_headers[i],
                        ) by {
                            if i < acc.via_headers.len() {
                                assert(acc1.via_headers[i] == acc.via_headers[i]);
                            } else {
                                assert(acc1.via_headers[i] == l);
                            }
                        }
                    } else {
                        assert(forall|j: int| 0 <= j < raw_name.len() ==> raw_name[j] == l[j]);
                        assert(line_clean(raw_name));
                        assert(forall|j: int| 0 <= j < raw_name.len() ==> raw_name[j] != ':');
                        lemma_trim_sub(raw_name);
                        assert(line_clean(name)) by {
                            assert forall|j: int| 0 <= j < name.len() implies name[j] != '\n' by {
                                let k = choose|k: int|
                                    0 <= k < raw_name.len() && raw_name[k] == name[j];
                            }
                        }
                        assert(forall|j: int| 0 <= j < name.len() ==> name[j] != ':') by {
                            assert forall|j: int| 0 <= j < name.len() implies name[j] != ':' by {
                                let k = choose|k: int|
                                    0 <= k < raw_name.len() && raw_name[k] == name[j];
                            }
                        }
                        lemma_trim_idem(raw_name);
                        assert(header_name_ok(name));
                        lemma_canon_name_ok(name);
                        let rawv = l.skip(ci + 1);
                        let value = trim_seq(rawv);
                        assert(forall|j: int| 0 <= j < rawv.len() ==> rawv[j] == l[ci + 1 + j]);
                        assert(line_clean(rawv));
                        lemma_trim_sub(rawv);
                        assert(line_clean(value)) by {
                            assert forall|j: int| 0 <= j < value.len() implies value[j] != '\n' by {
                                let k = choose|k: int| 0 <= k < rawv.len() && rawv[k] == value[j];
                            }
                        }
                        assert(header_entry_ok((canon_name(name), value)));
                        assert forall|i: int| 0 <= i < acc1.headers.len() implies header_entry_ok(
                            #[trigger] acc1.headers[i],
                        ) by {
                            if i < acc.headers.len() {
                                assert(acc1.headers[i] == acc.headers[i]);
                            } else {
                                assert(acc1.headers[i] == (canon_name(name), value));
                            }
                        }
                    }
                },
            }
        }
        lemma_parse_lines_wf(rest_lines(s), acc1);
        assert(parse_lines(s, acc) == parse_lines(rest_lines(s), acc1));
        assert forall|i: int| 0 <= i < parse_lines(s, acc).via_headers.len() implies via_line_ok(
            #[trigger] parse_lines(s, acc).via_headers[i],
        ) by {
            assert(parse_lines(s, acc).via_headers[i] == parse_lines(
                rest_lines(s),
                acc1,
            ).via_headers[i]);
        }
        assert forall|i: int| 0 <= i < parse_lines(s, acc).headers.len() implies header_entry_ok(
            #[trigger] parse_lines(s, acc).headers[i],
        ) by {
            assert(parse_lines(s, acc).headers[i] == parse_lines(rest_lines(s), acc1).headers[i]);
        }
    }
}

/// Every parse result is re-renderable: its start line is one line, its
/// `Via` lines re-parse as `Via` lines, and its header entries re-parse as
/// themselves.
pub proof fn lemma_parse_wf(s: Seq<char>)
    ensures
        parse_spec(s) is Some ==> line_clean((parse_spec(s)->0).start_line),
        parse_spec(s) is Some ==> forall|i: int|
            0 <= i < (parse_spec(s)->0).via_headers.len() ==> via_line_ok(
                #[trigger] (parse_spec(s)->0).via_headers[i],
            ),
        parse_spec(s) is Some ==> forall|i: int|
            0 <= i < (parse_spec(s)->0).headers.len() ==> header_entry_ok(
                #[trigger] (parse_spec(s)->0).headers[i],
            ),
{
    if s.len() > 0 {
        lemma_first_line_clean(s);
        lemma_parse_lines_wf(rest_lines(s), empty_acc());
    }
}

/// Whether the configuration strings can stand inside one header line.
pub open spec fn cfg_clean(cfg: ConfigModel) -> bool {
    line_clean(cfg.public_ip) && line_clean(cfg.service_version)
}

/// The segments of a line-feed-free sequence are line-feed-free.
pub proof fn lemma_split_char_clean(s: Seq<char>, c: char)
    requires
        line_clean(s),
    ensures
        forall|k: int|
            0 <= k < split_char(s, c).len() ==> line_clean(#[trigger] split_char(s, c)[k]),
    decreases s.len(),
{
    let parts = split_char(s, c);
    match find_char(s, c, 0) {
        Option::None => {
            assert(parts[0] == s);
        },
        Option::Some(e) => {
            if 0 <= e < s.len() {
                let head = s.take(e);
                let tail = s.skip(e + 1);
                assert(forall|j: int| 0 <= j < head.len() ==> head[j] == s[j]);
                assert(line_clean(head));
                assert(forall|j: int| 0 <= j < tail.len() ==> tail[j] == s[e + 1 + j]);
                assert(line_clean(tail));
                lemma_split_char_clean(tail, c);
                assert forall|k: int| 0 <= k < parts.len() implies line_clean(
                    #[trigger] parts[k],
                ) by {
                    if k == 0 {
                        assert(parts[0] == head);
                    } else {
                        assert(parts[k] == split_char(tail, c)[k - 1]);
                    }
                }
            } else {
                assert(parts[0] == s);
            }
        },
    }
}

/// The part that a branch search returns is one of the parts searched.
pub proof fn lemma_find_branch_part_clean(parts: Seq<Seq<char>>)
    requires
        forall|k: int| 0 <= k < parts.len() ==> line_clean(#[trigger] parts[k]),
    ensures
        match find_branch_part(parts) {
            Option::Some(p) => line_clean(p),
            Option::None => true,
        },
    decreases parts.len(),
{
    if parts.len() > 0 {
        if !crate::processor::branch_part_match(parts[0]) {
            assert(forall|k: int|
                0 <= k < parts.drop_first().len() ==> #[trigger] parts.drop_first()[k] == parts[
                    k + 1
                ]);
            lemma_find_branch_part_clean(parts.drop_first());
        }
    }
}

/// The branch recovered from a line-feed-free `Via` line is
/// line-feed-free.
pub proof fn lemma_top_branch_clean(m: MessageModel)
    requires
        forall|i: int|
            0 <= i < m.via_headers.len() ==> via_line_ok(#[trigger] m.via_headers[i]),
    ensures
        line_clean(top_branch(m)),
{
    let fv = if m.via_headers.len() > 0 {
        m.via_headers[0]
    } else {
        Seq::<char>::empty()
    };
    assert(line_clean(fv)) by {
        if m.via_headers.len() > 0 {
            assert(via_line_ok(m.via_headers[0]));
        }
    }
    lemma_split_char_clean(fv, ';');
    lemma_find_branch_part_clean(split_char(fv, ';'));
    match find_branch_part(split_char(fv, ';')) {
        Option::None => {
            assert(extract_branch_spec(fv) is None);
        },
        Option::Some(p) => {
            lemma_split_char_clean(p, '=');
            let parts2 = split_char(p, '=');
            if parts2.len() >= 2 {
                assert(line_clean(parts2[1]));
                assert(extract_branch_spec(fv) == Option::Some(parts2[1]));
            } else {
                assert(extract_branch_spec(fv) is None);
            }
        },
    }
}

/// The synthesized inbound `Via` line re-parses as one `Via` line.
pub proof fn lemma_inbound_via_ok(cfg: ConfigModel, branch: Seq<char>, ip: Seq<char>)
    requires
        cfg_clean(cfg),
        line_clean(branch),
        line_clean(ip),
    ensures
        via_line_ok(inbound_via_line(cfg, branch, ip)),
{
    reveal_strlit("Via: SIP/2.0/UDP ");
    reveal_strlit(":");
    reveal_strlit(";branch=");
    reveal_strlit(";rport;received=");
    reveal_strlit("via");
    let l1 = ("Via: SIP/2.0/UDP ")@;
    let l2 = (":")@;
    let l3 = (";branch=")@;
    let l4 = (";rport;received=")@;
    assert(l1.len() == 17 && l2.len() == 1 && l3.len() == 8 && l4.len() == 16);
    let dec = dec_rep(cfg.public_port as int);
    let l = inbound_via_line(cfg, branch, ip);
    lemma_dec_rep_digits(cfg.public_port as int);
    assert(line_clean(dec)) by {
        assert(forall|j: int| 0 <= j < dec.len() ==> #[trigger] dec[j] != '\n');
    }
    assert(line_clean(l1));
    assert(line_clean(l2));
    assert(line_clean(l3));
    assert(line_clean(l4));
    lemma_line_clean_concat(l1, cfg.public_ip);
    lemma_line_clean_concat(l1 + cfg.public_ip, l2);
    lemma_line_clean_concat(l1 + cfg.public_ip + l2, dec);
    lemma_line_clean_concat(l1 + cfg.public_ip + l2 + dec, l3);
    lemma_line_clean_concat(l1 + cfg.public_ip + l2 + dec + l3, branch);
    lemma_line_clean_concat(l1 + cfg.public_ip + l2 + dec + l3 + branch, l4);
    lemma_line_clean_concat(l1 + cfg.public_ip + l2 + dec + l3 + branch + l4, ip);
    assert(line_clean(l));
    assert(l.len() >= 17);
    assert(l[0] == 'V' && l[1] == 'i' && l[2] == 'a' && l[3] == ':');
    lemma_find_char_first(l, ':', 0, 3);
    assert(l.take(3) =~= seq!['V', 'i', 'a']);
    let nm = seq!['V', 'i', 'a'];
    assert(!is_ws(nm[0]) && !is_ws(nm.last()));
    assert(crate::strutil::trim_start_rec(nm) == nm);
    assert(crate::strutil::trim_end_rec(nm) == nm);
    assert(trim_seq(nm) == nm);
    assert(lower(nm) =~= ("via")@) by {
        assert(lower(nm).len() == 3);
        assert(lower(nm)[0] == crate::strutil::lower_char('V'));
        assert(lower(nm)[1] == crate::strutil::lower_char('i'));
        assert(lower(nm)[2] == crate::strutil::lower_char('a'));
        assert(crate::strutil::lower_char('V') == 'v');
        assert(crate::strutil::lower_char('i') == 'i');
        assert(crate::strutil::lower_char('a') == 'a');
    }
    assert(crate::message::is_via_name(nm));
    assert(via_line_ok(l));
}

/// Entries dropped from a re-parseable header list leave a re-parseable
/// list.
pub proof fn lemma_drop_header_ok(hs: Seq<(Seq<char>, Seq<char>)>, n: Seq<char>)
    requires
        forall|i: int| 0 <= i < hs.len() ==> header_entry_ok(#[trigger] hs[i]),
    ensures
        forall|i: int|
            0 <= i < drop_header(hs, n).len() ==> header_entry_ok(#[trigger] drop_header(hs, n)[i]),
    decreases hs.len(),
{
    if hs.len() > 0 {
        assert(forall|i: int|
            0 <= i < hs.drop_last().len() ==> #[trigger] hs.drop_last()[i] == hs[i]);
        lemma_drop_header_ok(hs.drop_last(), n);
        let rest = drop_header(hs.drop_last(), n);
        if lower(hs.last().0) != lower(n) {
            assert(hs[hs.len() - 1] == hs.last());
            assert(header_entry_ok(hs.last()));
            assert forall|i: int| 0 <= i < rest.push(hs.last()).len() implies header_entry_ok(
                #[trigger] rest.push(hs.last())[i],
            ) by {
                if i < rest.len() {
                    assert(rest.push(hs.last())[i] == rest[i]);
                } else {
                    assert(rest.push(hs.last())[i] == hs.last());
                }
            }
        }
    }
}

/// A looked-up header value is the value of some entry.
pub proof fn lemma_lookup_is_entry(hs: Seq<(Seq<char>, Seq<char>)>, n: Seq<char>)
    ensures
        match lookup_header(hs, n) {
            Option::Some(v) => exists|i: int| 0 <= i < hs.len() && #[trigger] hs[i].1 == v,
            Option::None => true,
        },
    decreases hs.len(),
{
    if hs.len() > 0 {
        if lower(hs.last().0) == lower(n) {
            assert(hs[hs.len() - 1].1 == hs.last().1);
        } else {
            lemma_lookup_is_entry(hs.drop_last(), n);
            match lookup_header(hs.drop_last(), n) {
                Option::Some(v) => {
                    let i = choose|i: int|
                        0 <= i < hs.drop_last().len() && #[trigger] hs.drop_last()[i].1 == v;
                    assert(hs[i].1 == v);
                },
                Option::None => {},
            }
        }
    }
}

/// The user part read from a line-feed-free `Contact` value is
/// line-feed-free.
pub proof fn lemma_contact_user_clean(v: Seq<char>)
    requires
        line_clean(v),
    ensures
        line_clean(crate::processor::contact_user(v)),
{
    reveal_strlit("sip:");
    reveal_strlit("gateway");
    assert(("sip:")@.len() == 4);
    assert(line_clean(("gateway")@));
    match crate::strutil::find_str(v, ("sip:")@, 0) {
        Option::None => {},
        Option::Some(i) => {
            crate::strutil::lemma_find_str_props(v, ("sip:")@, 0);
            let a = i + 4;
            assert(0 <= a <= v.len());
            lemma_find_char_props(v, '@', a);
            match find_char(v, '@', a) {
                Option::None => {},
                Option::Some(b) => {
                    assert(forall|j: int|
                        0 <= j < v.subrange(a, b).len() ==> #[trigger] v.subrange(a, b)[j] == v[a
                            + j]);
                    assert(line_clean(v.subrange(a, b)));
                },
            }
        },
    }
}

/// The gateway's own `Contact` entry, for a line-feed-free user part,
/// re-parses as itself.
pub proof fn lemma_contact_entry_ok(cfg: ConfigModel, user: Seq<char>)
    requires
        cfg_clean(cfg),
        line_clean(user),
    ensures
        header_entry_ok((("Contact")@, gateway_contact(cfg, user))),
{
    reveal_strlit("Contact");
    reveal_strlit("<sip:");
    reveal_strlit("@");
    reveal_strlit(":");
    reveal_strlit(">");
    lemma_canon_lit_ok(("Contact")@);
    let g1 = ("<sip:")@;
    let ga = ("@")@;
    let g2 = (":")@;
    let g3 = (">")@;
    assert(g1.len() == 5 && ga.len() == 1 && g2.len() == 1 && g3.len() == 1);
    let dec = dec_rep(cfg.public_port as int);
    lemma_dec_rep_digits(cfg.public_port as int);
    assert(line_clean(dec)) by {
        assert(forall|j: int| 0 <= j < dec.len() ==> #[trigger] dec[j] != '\n');
    }
    assert(line_clean(g1));
    assert(line_clean(ga));
    assert(line_clean(g2));
    assert(line_clean(g3));
    lemma_line_clean_concat(g1, user);
    lemma_line_clean_concat(g1 + user, ga);
    lemma_line_clean_concat(g1 + user + ga, cfg.public_ip);
    lemma_line_clean_concat(g1 + user + ga + cfg.public_ip, g2);
    lemma_line_clean_concat(g1 + user + ga + cfg.public_ip + g2, dec);
    lemma_line_clean_concat(g1 + user + ga + cfg.public_ip + g2 + dec, g3);
    assert(line_clean(gateway_contact(cfg, user)));
}

/// The gateway's own `Server` entry re-parses as itself.
pub proof fn lemma_server_entry_ok(cfg: ConfigModel)
    requires
        cfg_clean(cfg),
    ensures
        header_entry_ok((("Server")@, server_value(cfg))),
{
    reveal_strlit("Server");
    reveal_strlit("SIP Gateway v");
    lemma_canon_lit_ok(("Server")@);
    let sv = ("SIP Gateway v")@;
    assert(sv.len() == 13);
    assert(line_clean(sv));
    lemma_line_clean_concat(sv, cfg.service_version);
    assert(line_clean(server_value(cfg)));
}

/// For all inbound requests, the internal-bound rewrite carries exactly one
/// `Via` line: the synthesized gateway `Via` with the original topmost
/// branch; the start line passes through.
pub proof fn lemma_single_inbound_via(
    p: Seq<char>,
    remote_ip: Seq<char>,
    cfg: ConfigModel,
)
    requires
        parse_spec(p) is Some,
        cfg_clean(cfg),
        line_clean(remote_ip),
    ensures
        ({
            let m = parse_spec(p)->0;
            let out = rewrite_inbound_spec(m, remote_ip, cfg);
            &&& parse_spec(out) is Some
            &&& (parse_spec(out)->0).start_line == m.start_line
            &&& (parse_spec(out)->0).via_headers == seq![
                inbound_via_line(cfg, top_branch(m), remote_ip),
            ]
        }),
{
    let m = parse_spec(p)->0;
    lemma_parse_wf(p);
    lemma_top_branch_clean(m);
    lemma_inbound_via_ok(cfg, top_branch(m), remote_ip);
    let synth = inbound_via_line(cfg, top_branch(m), remote_ip);
    assert(forall|i: int|
        0 <= i < seq![synth].len() ==> via_line_ok(#[trigger] seq![synth][i])) by {
        assert(seq![synth][0] == synth);
    }
    lemma_parse_render(m.start_line, seq![synth], m.headers, m.body);
}

/// Whether branch-token characters survive `Via` parameter splitting: no
/// separator, no equals sign, no whitespace.
pub open spec fn branch_chars_ok(b: Seq<char>) -> bool {
    forall|j: int| 0 <= j < b.len() ==> b[j] != ';' && b[j] != '=' && !is_ws(#[trigger] b[j])
}

/// The branch written into the synthesized inbound `Via` reads back out of
/// it: transaction matching survives the rewrite.
pub proof fn lemma_inbound_branch_preserved(cfg: ConfigModel, branch: Seq<char>, ip: Seq<char>)
    requires
        branch_chars_ok(branch),
        forall|j: int| 0 <= j < cfg.public_ip.len() ==> cfg.public_ip[j] != ';',
    ensures
        extract_branch_spec(inbound_via_line(cfg, branch, ip)) == Option::Some(branch),
{
    reveal_strlit("Via: SIP/2.0/UDP ");
    reveal_strlit(":");
    reveal_strlit(";branch=");
    reveal_strlit(";rport;received=");
    reveal_strlit("branch=");
    let l1 = ("Via: SIP/2.0/UDP ")@;
    let l2 = (":")@;
    let l3 = (";branch=")@;
    let l4 = (";rport;received=")@;
    let bp = ("branch=")@;
    assert(l1.len() == 17 && l2.len() == 1 && l3.len() == 8 && l4.len() == 16 && bp.len() == 7);
    let dec = dec_rep(cfg.public_port as int);
    lemma_dec_rep_digits(cfg.public_port as int);
    let a = l1 + cfg.public_ip + l2 + dec;
    let synth = inbound_via_line(cfg, branch, ip);
    let p1 = bp + branch;
    let r2 = l4.skip(1) + ip;
    assert(l3 =~= seq![';'] + bp);
    assert(l4 =~= seq![';'] + l4.skip(1));
    assert(synth =~= a + seq![';'] + (p1 + seq![';'] + r2));
    assert forall|j: int| 0 <= j < a.len() implies a[j] != ';' by {
        if j < l1.len() {
            assert(a[j] == l1[j]);
        } else if j < l1.len() + cfg.public_ip.len() {
            assert(a[j] == cfg.public_ip[j - l1.len()]);
        } else if j < l1.len() + cfg.public_ip.len() + 1 {
            assert(a[j] == ':');
        } else {
            assert(a[j] == dec[j - l1.len() - cfg.public_ip.len() - 1]);
            assert('0' <= a[j] && a[j] <= '9');
        }
    }
    assert forall|j: int| 0 <= j < p1.len() implies p1[j] != ';' by {
        if j < bp.len() {
            assert(p1[j] == bp[j]);
        } else {
            assert(p1[j] == branch[j - bp.len()]);
        }
    }
    lemma_split_char_step(a, p1 + seq![';'] + r2, ';');
    lemma_split_char_step(p1, r2, ';');
    let parts = split_char(synth, ';');
    assert(parts =~= seq![a, p1] + split_char(r2, ';')) by {
        assert(split_char(synth, ';') == seq![a] + split_char(p1 + seq![';'] + r2, ';'));
        assert(split_char(p1 + seq![';'] + r2, ';') == seq![p1] + split_char(r2, ';'));
    }
    assert(!crate::processor::branch_part_match(a)) by {
        assert(a[0] == 'V');
        assert(!is_ws(a[0]));
        assert(crate::strutil::trim_start_rec(a) == a);
        lemma_trim_end_keeps_head(a);
        assert(trim_seq(a).len() > 0 && trim_seq(a)[0] == 'V');
        assert(bp[0] == 'b');
    }
    assert(crate::processor::branch_part_match(p1)) by {
        assert(p1[0] == 'b');
        assert(!is_ws(p1[0]));
        assert(crate::strutil::trim_start_rec(p1) == p1);
        assert(!is_ws(p1.last())) by {
            if branch.len() > 0 {
                assert(p1.last() == branch[branch.len() - 1]);
            } else {
                assert(p1.last() == '=');
            }
        }
        assert(crate::strutil::trim_end_rec(p1) == p1);
        assert(trim_seq(p1) == p1);
        assert(prefix_of(bp, p1)) by {
            assert(forall|j: int| 0 <= j < bp.len() ==> p1[j] == bp[j]);
        }
    }
    assert(parts.len() >= 2 && parts[0] == a && parts[1] == p1);
    assert(find_branch_part(parts) == Option::Some(p1)) by {
        assert(parts.drop_first()[0] == parts[1]);
        assert(find_branch_part(parts) == find_branch_part(parts.drop_first()));
    }
    let b6 = bp.take(6);
    assert(bp[6] == '=');
    assert(p1 =~= b6 + seq!['='] + branch);
    assert forall|j: int| 0 <= j < b6.len() implies b6[j] != '=' by {
        assert(b6[j] == bp[j]);
    }
    lemma_split_char_step(b6, branch, '=');
    lemma_split_char_whole(branch, '=');
    assert(split_char(p1, '=') =~= seq![b6, branch]) by {
        assert(split_char(p1, '=') == seq![b6] + split_char(branch, '='));
    }
    assert(branch_value(p1) == Option::Some(branch));
}

/// Single synthesized inbound `Via`, in full: whatever the length of the
/// original chain, the internal-bound rewrite parses back with exactly one
/// `Via` — the gateway's own line — and the branch parameter read from that
/// line is the original topmost branch.
pub proof fn lemma_single_inbound_via_branch(p: Seq<char>, remote_ip: Seq<char>, cfg: ConfigModel)
    requires
        parse_spec(p) is Some,
        cfg_clean(cfg),
        line_clean(remote_ip),
        branch_chars_ok(top_branch(parse_spec(p)->0)),
        forall|j: int| 0 <= j < cfg.public_ip.len() ==> cfg.public_ip[j] != ';',
    ensures
        ({
            let m = parse_spec(p)->0;
            let out = rewrite_inbound_spec(m, remote_ip, cfg);
            &&& parse_spec(out) is Some
            &&& (parse_spec(out)->0).via_headers.len() == 1
            &&& extract_branch_spec((parse_spec(out)->0).via_headers[0]) == Option::Some(
                top_branch(m),
            )
        }),
{
    let m = parse_spec(p)->0;
    lemma_single_inbound_via(p, remote_ip, cfg);
    lemma_inbound_branch_preserved(cfg, top_branch(m), remote_ip);
    let out = rewrite_inbound_spec(m, remote_ip, cfg);
    assert((parse_spec(out)->0).via_headers[0] == inbound_via_line(
        cfg,
        top_branch(m),
        remote_ip,
    ));
}

/// Round-trip `Via` restoration: handling an external INVITE stores its
/// whole `Via` chain verbatim, and the outbound rewrite of any response of
/// that transaction carries exactly that chain, in original order.
pub proof fn lemma_round_trip_via_restoration(
    p_inv: Seq<char>,
    remote: AddrModel,
    t0: Map<KeyModel, InfoModel>,
    cfg: ConfigModel,
    now: u64,
    cid: Seq<char>,
    p_resp: Seq<char>,
)
    requires
        parse_spec(p_inv) is Some,
        method_of((parse_spec(p_inv)->0).start_line) == ("INVITE")@,
        lookup_header((parse_spec(p_inv)->0).headers, ("Call-ID")@) == Option::Some(cid),
        lookup_header((parse_spec(p_inv)->0).headers, ("Contact")@) is Some,
        lookup_header((parse_spec(p_inv)->0).headers, ("CSeq")@) is Some,
        !t0.contains_key((cid, ("INVITE")@)),
        parse_spec(p_resp) is Some,
        cfg_clean(cfg),
    ensures
        ({
            let m = parse_spec(p_inv)->0;
            let t1 = inbound_step(m, remote, t0, cfg, now).0;
            &&& t1.contains_key((cid, ("INVITE")@))
            &&& t1[(cid, ("INVITE")@)].original_via_headers == m.via_headers
            &&& ({
                let out = rewrite_outbound_spec(p_resp, t1[(cid, ("INVITE")@)], cfg);
                &&& parse_spec(out) is Some
                &&& (parse_spec(out)->0).via_headers == m.via_headers
            })
        }),
{
    let m = parse_spec(p_inv)->0;
    lemma_parse_wf(p_inv);
    let t1 = inbound_step(m, remote, t0, cfg, now).0;
    let tx = t1[(cid, ("INVITE")@)];
    assert(t1.contains_key((cid, ("INVITE")@)));
    assert(tx.original_via_headers == m.via_headers);
    let mr = parse_spec(p_resp)->0;
    lemma_parse_wf(p_resp);
    let sv = server_value(cfg);
    lemma_server_entry_ok(cfg);
    let hs0 = match lookup_header(mr.headers, ("Contact")@) {
        Option::Some(cv) => upsert_header(
            mr.headers,
            ("Contact")@,
            gateway_contact(cfg, crate::processor::contact_user(cv)),
        ),
        Option::None => mr.headers,
    };
    match lookup_header(mr.headers, ("Contact")@) {
        Option::Some(cv) => {
            lemma_lookup_is_entry(mr.headers, ("Contact")@);
            let ie = choose|ie: int|
                0 <= ie < mr.headers.len() && #[trigger] mr.headers[ie].1 == cv;
            assert(header_entry_ok(mr.headers[ie]));
            assert(line_clean(cv));
            lemma_contact_user_clean(cv);
            lemma_contact_entry_ok(cfg, crate::processor::contact_user(cv));
        },
        Option::None => {},
    }
    assert forall|i: int| 0 <= i < hs0.len() implies header_entry_ok(#[trigger] hs0[i]) by {
        match lookup_header(mr.headers, ("Contact")@) {
            Option::Some(cv) => {
                lemma_drop_header_ok(mr.headers, ("Contact")@);
                let dropped = drop_header(mr.headers, ("Contact")@);
                if i < dropped.len() {
                    assert(hs0[i] == dropped[i]);
                } else {
                    assert(hs0[i] == (
                        ("Contact")@,
                        gateway_contact(cfg, crate::processor::contact_user(cv)),
                    ));
                }
            },
            Option::None => {},
        }
    }
    let hs = upsert_header(hs0, ("Server")@, sv);
    lemma_drop_header_ok(hs0, ("Server")@);
    assert forall|i: int| 0 <= i < hs.len() implies header_entry_ok(#[trigger] hs[i]) by {
        let dropped = drop_header(hs0, ("Server")@);
        if i < dropped.len() {
            assert(hs[i] == dropped[i]);
        } else {
            assert(hs[i] == (("Server")@, sv));
        }
    }
    let out = rewrite_outbound_spec(p_resp, tx, cfg);
    assert(out == concat_crlf(
        render_lines(mr.start_line, tx.original_via_headers, hs, Option::Some(mr.body)),
    ));
    assert forall|i: int| 0 <= i < tx.original_via_headers.len() implies via_line_ok(
        #[trigger] tx.original_via_headers[i],
    ) by {
        assert(tx.original_via_headers[i] == m.via_headers[i]);
    }
    lemma_parse_render(mr.start_line, tx.original_via_headers, hs, mr.body);
}

/// Whether `n` occurs in `h` as a contiguous run.
pub open spec fn contains_seq(h: Seq<char>, n: Seq<char>) -> bool {
    exists|i: int|
        0 <= i && i + n.len() <= h.len() && #[trigger] h.subrange(i, i + n.len() as int) == n
}

pub proof fn lemma_contains_concat_left(a: Seq<char>, b: Seq<char>, n: Seq<char>)
    requires
        contains_seq(b, n),
    ensures
        contains_seq(a + b, n),
{
    let i = choose|i: int|
        0 <= i && i + n.len() <= b.len() && #[trigger] b.subrange(i, i + n.len() as int) == n;
    assert((a + b).subrange(a.len() + i, a.len() + i + n.len() as int) =~= b.subrange(
        i,
        i + n.len() as int,
    ));
    assert(0 <= a.len() + i && a.len() + i + n.len() <= (a + b).len());
}

/// Sending the same INVITE twice changes the table once and forwards once:
/// the first handling registers the dialog and forwards; the second, seeing
/// the dialog known, forwards nothing and leaves the table as it was.
pub proof fn lemma_invite_idempotent(
    m: crate::message::MessageModel,
    remote: AddrModel,
    t0: Map<KeyModel, InfoModel>,
    cfg: ConfigModel,
    now1: u64,
    now2: u64,
    cid: Seq<char>,
)
    requires
        method_of(m.start_line) == ("INVITE")@,
        lookup_header(m.headers, ("Call-ID")@) == Option::Some(cid),
        lookup_header(m.headers, ("Contact")@) is Some,
        lookup_header(m.headers, ("CSeq")@) is Some,
        !t0.contains_key((cid, ("INVITE")@)),
    ensures
        inbound_step(m, remote, t0, cfg, now1).1 is Some,
        inbound_step(m, remote, t0, cfg, now1).0.contains_key((cid, ("INVITE")@)),
        inbound_step(
            m,
            remote,
            inbound_step(m, remote, t0, cfg, now1).0,
            cfg,
            now2,
        ).1 is None,
        inbound_step(m, remote, inbound_step(m, remote, t0, cfg, now1).0, cfg, now2).0
            == inbound_step(m, remote, t0, cfg, now1).0,
{
}

/// An entry created at time `c` survives a sweep 119 seconds later and is
/// gone after a sweep 121 seconds later, under the 120-second maximum age.
pub proof fn lemma_transaction_expiration(
    s: Seq<(KeyModel, InfoModel)>,
    k: KeyModel,
    c: u64,
    now119: u64,
    now121: u64,
)
    requires
        keys_unique(s),
        entries_map(s).contains_key(k),
        entries_map(s)[k].created_at == c,
        now119 == c + 119,
        now121 == c + 121,
    ensures
        entries_map(drop_expired(s, now119, 120)).contains_key(k),
        entries_map(drop_expired(s, now119, 120))[k] == entries_map(s)[k],
        !entries_map(drop_expired(s, now121, 120)).contains_key(k),
{
    lemma_drop_expired(s, now119, 120);
    lemma_drop_expired(s, now121, 120);
    assert(!expired(c, now119, 120));
    assert(expired(c, now121, 120));
}

/// A response whose `(Call-ID, CSeq method)` was never registered produces
/// no outbound send.
pub proof fn lemma_unknown_response_drop(
    packet: Seq<char>,
    t: Map<KeyModel, InfoModel>,
    cfg: ConfigModel,
    cid: Seq<char>,
    me: Seq<char>,
)
    requires
        crate::processor::transaction_key_spec(packet) == Option::Some((cid, me)),
        !t.contains_key((cid, me)),
    ensures
        response_step(packet, t, cfg).1 is None,
{
}

/// The typo repair rewrites every occurrence: a value containing
/// `trasport=udp` is stored containing `transport=udp`.
pub proof fn lemma_typo_repair(v: Seq<char>)
    requires
        contains_seq(v, ("trasport=udp")@),
    ensures
        contains_seq(fix_typo_spec(v), ("transport=udp")@),
    decreases v.len(),
{
    reveal_strlit("trasport=");
    reveal_strlit("transport=");
    reveal_strlit("trasport=udp");
    reveal_strlit("transport=udp");
    let pat = ("trasport=")@;
    let rep = ("transport=")@;
    let occ = ("trasport=udp")@;
    let tgt = ("transport=udp")@;
    assert(pat.len() == 9 && rep.len() == 10 && occ.len() == 12 && tgt.len() == 13);
    let i = choose|i: int|
        0 <= i && i + occ.len() <= v.len() && #[trigger] v.subrange(i, i + occ.len() as int)
            == occ;
    assert forall|j: int| 0 <= j < 12 implies v[i + j] == occ[j] by {
        assert(v.subrange(i, i + 12)[j] == v[i + j]);
    }
    if pat.len() > 0 && prefix_of(pat, v) {
        let w = v.skip(pat.len() as int);
        assert(fix_typo_spec(v) == rep + fix_typo_spec(w));
        if i == 0 {
            assert(w.len() >= 3);
            assert(v[9] == occ[9] && v[10] == occ[10] && v[11] == occ[11]) by {
                assert(v.subrange(i, i + 12)[9] == v[i + 9]);
                assert(v.subrange(i, i + 12)[10] == v[i + 10]);
                assert(v.subrange(i, i + 12)[11] == v[i + 11]);
            }
            assert(occ[9] == 'u' && occ[10] == 'd' && occ[11] == 'p');
            assert(w[0] == 'u' && w[1] == 'd' && w[2] == 'p');
            assert(!prefix_of(pat, w));
            assert(fix_typo_spec(w) == seq![w[0]] + fix_typo_spec(w.drop_first()));
            let w1 = w.drop_first();
            assert(w1[0] == 'd');
            assert(!prefix_of(pat, w1));
            assert(fix_typo_spec(w1) == seq![w1[0]] + fix_typo_spec(w1.drop_first()));
            let w2 = w1.drop_first();
            assert(w2[0] == 'p');
            assert(!prefix_of(pat, w2));
            assert(fix_typo_spec(w2) == seq![w2[0]] + fix_typo_spec(w2.drop_first()));
            let out = fix_typo_spec(v);
            assert(out.len() >= 13);
            assert(out.subrange(0, 0 + tgt.len() as int) =~= tgt);
            assert(contains_seq(out, tgt));
        } else if i < 9 {
            assert(v[i] == occ[0]);
            assert(occ[0] == 't');
            assert(v[i] == pat[i]);
            assert(pat[1] == 'r' && pat[2] == 'a' && pat[3] == 's' && pat[4] == 'p' && pat[5]
                == 'o' && pat[6] == 'r' && pat[7] == 't' && pat[8] == '=');
            assert(i == 7);
            assert(v[8] == occ[1]);
            assert(occ[1] == 'r');
            assert(v[8] == pat[8]);
            assert(false);
        } else {
            let w = v.skip(9);
            assert(w.subrange(i - 9, (i - 9) + occ.len() as int) =~= v.subrange(
                i,
                i + occ.len() as int,
            ));
            assert(contains_seq(w, occ));
            lemma_typo_repair(w);
            lemma_contains_concat_left(rep, fix_typo_spec(w), tgt);
        }
    } else {
        assert(v.len() > 0);
        assert(fix_typo_spec(v) == seq![v[0]] + fix_typo_spec(v.drop_first()));
        if i == 0 {
            assert(prefix_of(pat, v)) by {
                assert(pat[0] == 't' && pat[1] == 'r' && pat[2] == 'a' && pat[3] == 's' && pat[4]
                    == 'p' && pat[5] == 'o' && pat[6] == 'r' && pat[7] == 't' && pat[8] == '=');
                assert(forall|j: int| 0 <= j < 9 ==> pat[j] == occ[j]);
                assert(forall|j: int| 0 <= j < 9 ==> v[j] == occ[j]);
            }
            assert(false);
        } else {
            let w = v.drop_first();
            assert(w.subrange(i - 1, (i - 1) + occ.len() as int) =~= v.subrange(
                i,
                i + occ.len() as int,
            ));
            assert(contains_seq(w, occ));
            lemma_typo_repair(w);
            lemma_contains_concat_left(seq![v[0]], fix_typo_spec(w), tgt);
        }
    }
}

/// A first INVITE that carries a `Record-Route` registers its dialog with
/// the typo-repaired value; in particular an occurrence of `trasport=udp`
/// is stored as `transport=udp`.
pub proof fn lemma_record_route_repair(
    m: crate::message::MessageModel,
    remote: AddrModel,
    t0: Map<KeyModel, InfoModel>,
    cfg: ConfigModel,
    now: u64,
    cid: Seq<char>,
    rr: Seq<char>,
)
    requires
        method_of(m.start_line) == ("INVITE")@,
        lookup_header(m.headers, ("Call-ID")@) == Option::Some(cid),
        lookup_header(m.headers, ("Contact")@) is Some,
        lookup_header(m.headers, ("CSeq")@) is Some,
        lookup_header(m.headers, ("Record-Route")@) == Option::Some(rr),
        !t0.contains_key((cid, ("INVITE")@)),
    ensures
        inbound_step(m, remote, t0, cfg, now).0[(cid, ("INVITE")@)].record_route_header
            == Option::Some(fix_typo_spec(rr)),
        contains_seq(rr, ("trasport=udp")@) ==> contains_seq(
            fix_typo_spec(rr),
            ("transport=udp")@,
        ),
{
    if contains_seq(rr, ("trasport=udp")@) {
        lemma_typo_repair(rr);
    }
}

} // verus!

