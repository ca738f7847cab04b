//! The SIP message model: a raw UDP payload parsed into a start line, a
//! header list, the ordered `Via` chain and the body.
//!
//! Parsing splits on CRLF or LF line boundaries; the first blank line
//! separates the headers from the body. A header line is split on its first
//! colon; `Via` lines (including the compact form `v`) are kept verbatim, in
//! arrival order, in a sequence of their own. Other header names are
//! canonicalized: every SIP compact form is expanded to its full name, and
//! lookups compare names without regard to ASCII case. When the same name
//! occurs twice, both entries are kept in arrival order and lookups take
//! the later value; a rewrite that sets a name removes every earlier
//! binding of it.

use vstd::prelude::*;

use crate::strutil::{
    find_char, trim_seq, lower, is_ws_exec, find_char_at, trim_str, str_eq_lower, str_eq,
    lemma_find_char_props, lemma_find_char_shift,
};

verus! {

/// The mathematical model of a parsed SIP message.
#[verifier::ext_equal]
pub struct MessageModel {
    pub start_line: Seq<char>,
    pub headers: Seq<(Seq<char>, Seq<char>)>,
    pub via_headers: Seq<Seq<char>>,
    pub body: Seq<char>,
}

pub open spec fn crlf() -> Seq<char> {
    seq!['\r', '\n']
}

/// `lines` joined with CRLF, without a trailing break.
pub open spec fn join_crlf(lines: Seq<Seq<char>>) -> Seq<char>
    decreases lines.len(),
{
    if lines.len() == 0 {
        Seq::empty()
    } else if lines.len() == 1 {
        lines[0]
    } else {
        lines[0] + crlf() + join_crlf(lines.drop_first())
    }
}

/// Each of `lines` followed by CRLF, concatenated.
pub open spec fn concat_crlf(lines: Seq<Seq<char>>) -> Seq<char>
    decreases lines.len(),
{
    if lines.len() == 0 {
        Seq::empty()
    } else {
        lines[0] + crlf() + concat_crlf(lines.drop_first())
    }
}

/// The position of the line break that ends the first line of `s`, if any.
pub open spec fn line_break(s: Seq<char>) -> Option<int> {
    match find_char(s, '\n', 0) {
        Option::None => Option::None,
        Option::Some(e) => if 0 <= e < s.len() {
            Option::Some(e)
        } else {
            Option::None
        },
    }
}

/// The first line of `s`: the text before the first LF, with one carriage
/// return stripped when the line was CRLF-terminated. A final line without a
/// terminator is taken as it stands.
pub open spec fn first_line(s: Seq<char>) -> Seq<char> {
    match line_break(s) {
        Option::None => s,
        Option::Some(e) => {
            let raw = s.take(e);
            if raw.len() > 0 && raw.last() == '\r' {
                raw.drop_last()
            } else {
                raw
            }
        },
    }
}

/// What remains of `s` after its first line and its terminator.
pub open spec fn rest_lines(s: Seq<char>) -> Seq<char> {
    match line_break(s) {
        Option::None => Seq::empty(),
        Option::Some(e) => s.skip(e + 1),
    }
}

/// Whether a trimmed header name selects the `Via` chain (full or compact
/// form, without regard to ASCII case).
pub open spec fn is_via_name(name: Seq<char>) -> bool {
    lower(name) == ("via")@ || lower(name) == ("v")@
}

/// The canonical full name for a header name: every SIP compact form is
/// expanded; any other name is kept as received.
pub open spec fn canon_name(name: Seq<char>) -> Seq<char> {
    let l = lower(name);
    if l == ("i")@ {
        ("Call-ID")@
    } else if l == ("m")@ {
        ("Contact")@
    } else if l == ("e")@ {
        ("Content-Encoding")@
    } else if l == ("l")@ {
        ("Content-Length")@
    } else if l == ("c")@ {
        ("Content-Type")@
    } else if l == ("f")@ {
        ("From")@
    } else if l == ("t")@ {
        ("To")@
    } else if l == ("s")@ {
        ("Subject")@
    } else if l == ("k")@ {
        ("Supported")@
    } else {
        name
    }
}

/// The classification state while walking the lines after the start line.
#[verifier::ext_equal]
pub struct ParseAcc {
    pub in_body: bool,
    pub headers: Seq<(Seq<char>, Seq<char>)>,
    pub via_headers: Seq<Seq<char>>,
    pub body_lines: Seq<Seq<char>>,
}

pub open spec fn empty_acc() -> ParseAcc {
    ParseAcc { in_body: false, headers: seq![], via_headers: seq![], body_lines: seq![] }
}

/// One line classified: body text after the first blank line; a `Via` line
/// kept verbatim; any other line with a colon split into name and value;
/// a header line without a colon dropped.
pub open spec fn parse_step(acc: ParseAcc, line: Seq<char>) -> ParseAcc {
    if acc.in_body {
        ParseAcc {
            in_body: acc.in_body,
            headers: acc.headers,
            via_headers: acc.via_headers,
            body_lines: acc.body_lines.push(line),
        }
    } else if line.len() == 0 {
        ParseAcc {
            in_body: true,
            headers: acc.headers,
            via_headers: acc.via_headers,
            body_lines: acc.body_lines,
        }
    } else {
        match find_char(line, ':', 0) {
            Option::None => acc,
            Option::Some(ci) => {
                let name = trim_seq(line.take(ci));
                if is_via_name(name) {
                    ParseAcc {
                        in_body: acc.in_body,
                        headers: acc.headers,
                        via_headers: acc.via_headers.push(line),
                        body_lines: acc.body_lines,
                    }
                } else {
                    ParseAcc {
                        in_body: acc.in_body,
                        headers: acc.headers.push(
                            (canon_name(name), trim_seq(line.skip(ci + 1))),
                        ),
                        via_headers: acc.via_headers,
                        body_lines: acc.body_lines,
                    }
                }
            },
        }
    }
}

/// All lines of `s` classified, starting from `acc`.
pub open spec fn parse_lines(s: Seq<char>, acc: ParseAcc) -> ParseAcc
    decreases s.len(),
{
    if s.len() == 0 {
        acc
    } else {
        parse_lines(rest_lines(s), parse_step(acc, first_line(s)))
    }
}

/// The parse of a raw packet: fails exactly when the packet is empty (no
/// first line); otherwise the first line is the start line and the remaining
/// lines are classified. The body is the classified body lines re-joined
/// with CRLF.
pub open spec fn parse_spec(s: Seq<char>) -> Option<MessageModel> {
    if s.len() == 0 {
        Option::None
    } else {
        let acc = parse_lines(rest_lines(s), empty_acc());
        Option::Some(
            MessageModel {
                start_line: first_line(s),
                headers: acc.headers,
                via_headers: acc.via_headers,
                body: join_crlf(acc.body_lines),
            },
        )
    }
}

/// A parsed view of one SIP packet. `headers` keeps arrival order; `Via`
/// lines live in `via_headers`, verbatim and in order.
pub struct SipMessage {
    pub start_line: String,
    pub headers: Vec<(String, String)>,
    pub via_headers: Vec<String>,
    pub body: String,
}

impl View for SipMessage {
    type V = MessageModel;

    open spec fn view(&self) -> MessageModel {
        MessageModel {
            start_line: self.start_line@,
            headers: self.headers.deep_view(),
            via_headers: self.via_headers.deep_view(),
            body: self.body@,
        }
    }
}

/// The value of the last header entry whose name equals `name` up to ASCII
/// case: when a name is repeated, the later value wins.
pub open spec fn lookup_header(hs: Seq<(Seq<char>, Seq<char>)>, name: Seq<char>) -> Option<
    Seq<char>,
>
    decreases hs.len(),
{
    if hs.len() == 0 {
        Option::None
    } else if lower(hs.last().0) == lower(name) {
        Option::Some(hs.last().1)
    } else {
        lookup_header(hs.drop_last(), name)
    }
}

/// `hs` without every entry whose name equals `name` up to ASCII case.
pub open spec fn drop_header(hs: Seq<(Seq<char>, Seq<char>)>, name: Seq<char>) -> Seq<
    (Seq<char>, Seq<char>),
>
    decreases hs.len(),
{
    if hs.len() == 0 {
        hs
    } else {
        let rest = drop_header(hs.drop_last(), name);
        if lower(hs.last().0) == lower(name) {
            rest
        } else {
            rest.push(hs.last())
        }
    }
}

/// `hs` with `name` bound to `value` and any earlier binding removed.
pub open spec fn upsert_header(
    hs: Seq<(Seq<char>, Seq<char>)>,
    name: Seq<char>,
    value: Seq<char>,
) -> Seq<(Seq<char>, Seq<char>)> {
    drop_header(hs, name).push((name, value))
}

/// One rendered header line.
pub open spec fn header_line(name: Seq<char>, value: Seq<char>) -> Seq<char> {
    name + (": ")@ + value
}

/// The rendered header lines of `hs`, in order.
pub open spec fn header_lines(hs: Seq<(Seq<char>, Seq<char>)>) -> Seq<Seq<char>> {
    hs.map_values(|e: (Seq<char>, Seq<char>)| header_line(e.0, e.1))
}

/// The line sequence of a re-serialized message: start line, `Via` chain,
/// headers, a blank separator, and the body when one is emitted.
pub open spec fn render_lines(
    start: Seq<char>,
    vias: Seq<Seq<char>>,
    hs: Seq<(Seq<char>, Seq<char>)>,
    body: Option<Seq<char>>,
) -> Seq<Seq<char>> {
    seq![start] + vias + header_lines(hs) + seq![Seq::<char>::empty()] + (match body {
        Option::Some(b) => seq![b],
        Option::None => seq![],
    })
}

/// The first line of `s` starting at `pos`, and the position just past its
/// terminator.
pub(crate) fn next_line(s: &str, pos: usize) -> (r: (String, usize))
    requires
        pos <= s@.len(),
    ensures
        ({
            let suf = s@.subrange(pos as int, s@.len() as int);
            &&& r.0@ == first_line(suf)
            &&& s@.subrange(r.1 as int, s@.len() as int) == rest_lines(suf)
            &&& pos <= r.1 <= s@.len()
            &&& (pos < s@.len() ==> pos < r.1)
        }),
{
    let ghost suf = s@.subrange(pos as int, s@.len() as int);
    let n = s.unicode_len();
    proof {
        lemma_find_char_shift(s@, '\n', pos as int, pos as int);
        lemma_find_char_props(s@, '\n', pos as int);
    }
    match find_char_at(s, pos, '\n') {
        None => {
            proof {
                assert(line_break(suf) is None);
                assert(suf =~= s@.subrange(pos as int, n as int));
                assert(rest_lines(suf) =~= s@.subrange(n as int, n as int));
            }
            (s.substring_char(pos, n).to_owned(), n)
        },
        Some(e) => {
            proof {
                assert(find_char(suf, '\n', 0) == Some(e - pos));
                assert(line_break(suf) == Some(e - pos));
                assert(rest_lines(suf) =~= s@.subrange(e + 1, n as int));
            }
            let cut = if e > pos && s.get_char(e - 1) == '\r' {
                e - 1
            } else {
                e
            };
            proof {
                let raw = suf.take(e - pos);
                assert(raw =~= s@.subrange(pos as int, e as int));
                if e > pos && s@[e - 1] == '\r' {
                    assert(raw.len() > 0 && raw.last() == '\r');
                    assert(raw.drop_last() =~= s@.subrange(pos as int, e - 1));
                } else {
                    assert(!(raw.len() > 0 && raw.last() == '\r'));
                }
                assert(first_line(suf) == s@.subrange(pos as int, cut as int));
            }
            (s.substring_char(pos, cut).to_owned(), e + 1)
        },
    }
}

pub proof fn lemma_join_crlf_push(lines: Seq<Seq<char>>, l: Seq<char>)
    ensures
        join_crlf(lines.push(l)) == if lines.len() == 0 {
            l
        } else {
            join_crlf(lines) + crlf() + l
        },
    decreases lines.len(),
{
    if lines.len() == 0 {
        assert(lines.push(l).len() == 1);
        assert(lines.push(l)[0] == l);
    } else {
        lemma_join_crlf_push(lines.drop_first(), l);
        assert(lines.push(l).drop_first() =~= lines.drop_first().push(l));
        assert(lines.push(l)[0] == lines[0]);
        if lines.len() == 1 {
            assert(lines.drop_first().len() == 0);
            assert(join_crlf(lines) == lines[0]);
        }
    }
}

/// `lines` joined with CRLF separators, as the body of a message is
/// reassembled.
pub fn join_crlf_exec(lines: &Vec<String>) -> (r: String)
    ensures
        r@ == join_crlf(lines.deep_view()),
{
    let mut r = String::new();
    let mut i: usize = 0;
    while i < lines.len()
        invariant
            i <= lines.len(),
            r@ == join_crlf(lines.deep_view().take(i as int)),
        decreases lines.len() - i,
    {
        if i > 0 {
            proof {
                reveal_strlit("\r\n");
                assert(("\r\n")@ =~= crlf());
            }
            r.append("\r\n");
        }
        r.append(lines[i].as_str());
        proof {
            lemma_join_crlf_push(lines.deep_view().take(i as int), lines.deep_view()[i as int]);
            assert(lines.deep_view().take(i as int + 1) =~= lines.deep_view().take(i as int).push(
                lines.deep_view()[i as int],
            ));
        }
        i = i + 1;
    }
    proof {
        assert(lines.deep_view().take(lines.deep_view().len() as int) =~= lines.deep_view());
    }
    r
}

/// Whether a trimmed header name is `Via` or its compact form `v`.
pub fn is_via_name_exec(name: &str) -> (r: bool)
    ensures
        r == is_via_name(name@),
{
    proof {
        reveal_strlit("via");
        reveal_strlit("v");
        assert(lower(("via")@) =~= ("via")@);
        assert(lower(("v")@) =~= ("v")@);
    }
    str_eq_lower(name, "via") || str_eq_lower(name, "v")
}

/// The canonical full name for a received header name.
pub fn canon_header_name(name: &str) -> (r: String)
    ensures
        r@ == canon_name(name@),
{
    proof {
        reveal_strlit("i");
        reveal_strlit("m");
        reveal_strlit("e");
        reveal_strlit("l");
        reveal_strlit("c");
        reveal_strlit("f");
        reveal_strlit("t");
        reveal_strlit("s");
        reveal_strlit("k");
        assert(lower(("i")@) =~= ("i")@);
        assert(lower(("m")@) =~= ("m")@);
        assert(lower(("e")@) =~= ("e")@);
        assert(lower(("l")@) =~= ("l")@);
        assert(lower(("c")@) =~= ("c")@);
        assert(lower(("f")@) =~= ("f")@);
        assert(lower(("t")@) =~= ("t")@);
        assert(lower(("s")@) =~= ("s")@);
        assert(lower(("k")@) =~= ("k")@);
    }
    if str_eq_lower(name, "i") {
        "Call-ID".to_owned()
    } else if str_eq_lower(name, "m") {
        "Contact".to_owned()
    } else if str_eq_lower(name, "e") {
        "Content-Encoding".to_owned()
    } else if str_eq_lower(name, "l") {
        "Content-Length".to_owned()
    } else if str_eq_lower(name, "c") {
        "Content-Type".to_owned()
    } else if str_eq_lower(name, "f") {
        "From".to_owned()
    } else if str_eq_lower(name, "t") {
        "To".to_owned()
    } else if str_eq_lower(name, "s") {
        "Subject".to_owned()
    } else if str_eq_lower(name, "k") {
        "Supported".to_owned()
    } else {
        name.to_owned()
    }
}

pub proof fn lemma_concat_crlf_push(lines: Seq<Seq<char>>, l: Seq<char>)
    ensures
        concat_crlf(lines.push(l)) == concat_crlf(lines) + l + crlf(),
    decreases lines.len(),
{
    if lines.len() == 0 {
        assert(lines.push(l).drop_first() =~= Seq::<Seq<char>>::empty());
        assert(concat_crlf(Seq::<Seq<char>>::empty()) == Seq::<char>::empty());
        assert(concat_crlf(lines.push(l)) == lines.push(l)[0] + crlf() + concat_crlf(
            lines.push(l).drop_first(),
        ));
        assert(concat_crlf(lines.push(l)) =~= concat_crlf(lines) + l + crlf());
    } else {
        lemma_concat_crlf_push(lines.drop_first(), l);
        assert(lines.push(l).drop_first() =~= lines.drop_first().push(l));
        assert(lines.push(l)[0] == lines[0]);
        assert(concat_crlf(lines.push(l)) == lines[0] + crlf() + concat_crlf(
            lines.drop_first().push(l),
        ));
        assert(concat_crlf(lines) == lines[0] + crlf() + concat_crlf(lines.drop_first()));
        assert(concat_crlf(lines.push(l)) =~= concat_crlf(lines) + l + crlf());
    }
}

/// Re-serializes a message from its parts, each line CRLF-terminated, with a
/// blank line between headers and body. Body-less renderings (in-dialog
/// requests) end right after the blank line.
pub fn render_message(
    start_line: &str,
    vias: &Vec<String>,
    headers: &Vec<(String, String)>,
    body: Option<&str>,
) -> (r: String)
    ensures
        r@ == concat_crlf(
            render_lines(
                start_line@,
                vias.deep_view(),
                headers.deep_view(),
                match body {
                    Option::Some(b) => Option::Some(b@),
                    Option::None => Option::None,
                },
            ),
        ),
{
    proof {
        reveal_strlit("\r\n");
        assert(("\r\n")@ =~= crlf());
    }
    let mut r = String::new();
    let ghost mut done: Seq<Seq<char>> = seq![start_line@];
    r.append(start_line);
    r.append("\r\n");
    proof {
        assert(done.drop_first() =~= Seq::<Seq<char>>::empty());
        assert(concat_crlf(Seq::<Seq<char>>::empty()) == Seq::<char>::empty());
        assert(concat_crlf(done) == done[0] + crlf() + concat_crlf(done.drop_first()));
        assert(r@ =~= concat_crlf(done));
    }
    let mut i: usize = 0;
    while i < vias.len()
        invariant
            i <= vias.len(),
            done == seq![start_line@] + vias.deep_view().take(i as int),
            r@ == concat_crlf(done),
        decreases vias.len() - i,
    {
        r.append(vias[i].as_str());
        r.append("\r\n");
        proof {
            reveal_strlit("\r\n");
            assert(("\r\n")@ =~= crlf());
            lemma_concat_crlf_push(done, vias.deep_view()[i as int]);
            done = done.push(vias.deep_view()[i as int]);
            assert(done =~= seq![start_line@] + vias.deep_view().take(i as int + 1));
        }
        i = i + 1;
    }
    let mut j: usize = 0;
    while j < headers.len()
        invariant
            j <= headers.len(),
            done == seq![start_line@] + vias.deep_view() + header_lines(
                headers.deep_view().take(j as int),
            ),
            r@ == concat_crlf(done),
        decreases headers.len() - j,
    {
        r.append(headers[j].0.as_str());
        r.append(": ");
        r.append(headers[j].1.as_str());
        r.append("\r\n");
        proof {
            reveal_strlit("\r\n");
            assert(("\r\n")@ =~= crlf());
            let e = headers.deep_view()[j as int];
            lemma_concat_crlf_push(done, header_line(e.0, e.1));
            assert(r@ =~= concat_crlf(done) + header_line(e.0, e.1) + crlf());
            done = done.push(header_line(e.0, e.1));
            assert(done =~= seq![start_line@] + vias.deep_view() + header_lines(
                headers.deep_view().take(j as int + 1),
            ));
        }
        j = j + 1;
    }
    r.append("\r\n");
    proof {
        lemma_concat_crlf_push(done, Seq::<char>::empty());
        assert(r@ =~= concat_crlf(done) + Seq::<char>::empty() + crlf());
        done = done.push(Seq::<char>::empty());
        assert(headers.deep_view().take(headers.deep_view().len() as int) =~= headers.deep_view());
        assert(vias.deep_view().take(vias.deep_view().len() as int) =~= vias.deep_view());
    }
    match body {
        Option::None => {
            proof {
                assert(done =~= render_lines(
                    start_line@,
                    vias.deep_view(),
                    headers.deep_view(),
                    Option::None,
                ));
            }
            r
        },
        Option::Some(b) => {
            r.append(b);
            r.append("\r\n");
            proof {
                lemma_concat_crlf_push(done, b@);
                assert(r@ =~= concat_crlf(done) + b@ + crlf());
                done = done.push(b@);
                assert(done =~= render_lines(
                    start_line@,
                    vias.deep_view(),
                    headers.deep_view(),
                    Option::Some(b@),
                ));
            }
            r
        },
    }
}

/// A copy of `hs` without every entry named `name` (up to ASCII case).
fn remove_header_vec(hs: &Vec<(String, String)>, name: &str) -> (r: Vec<(String, String)>)
    ensures
        r.deep_view() == drop_header(hs.deep_view(), name@),
{
    let mut out: Vec<(String, String)> = Vec::new();
    proof {
        assert(hs.deep_view().take(0) =~= Seq::<(Seq<char>, Seq<char>)>::empty());
        assert(out.deep_view() =~= drop_header(hs.deep_view().take(0), name@));
    }
    let mut i: usize = 0;
    while i < hs.len()
        invariant
            i <= hs.len(),
            out.deep_view() == drop_header(hs.deep_view().take(i as int), name@),
        decreases hs.len() - i,
    {
        proof {
            assert(hs.deep_view().take(i as int + 1).drop_last() =~= hs.deep_view().take(i as int));
            assert(hs.deep_view().take(i as int + 1).last() == hs.deep_view()[i as int]);
        }
        if !str_eq_lower(hs[i].0.as_str(), name) {
            let ghost before = out.deep_view();
            out.push((hs[i].0.clone(), hs[i].1.clone()));
            proof {
                assert(out.deep_view() =~= before.push(hs.deep_view()[i as int]));
            }
        }
        i = i + 1;
    }
    proof {
        assert(hs.deep_view().take(hs.deep_view().len() as int) =~= hs.deep_view());
    }
    out
}

impl SipMessage {
    /// The stored value of `name`, compared without regard to ASCII case;
    /// when a name was received twice, the later value.
    pub fn header(&self, name: &str) -> (r: Option<&String>)
        ensures
            match r {
                Option::Some(v) => lookup_header(self@.headers, name@) == Option::Some(v@),
                Option::None => lookup_header(self@.headers, name@) is None,
            },
    {
        proof {
            assert(self@.headers.take(self@.headers.len() as int) =~= self@.headers);
        }
        let mut i: usize = self.headers.len();
        while i > 0
            invariant
                i <= self.headers.len(),
                lookup_header(self@.headers, name@) == lookup_header(
                    self@.headers.take(i as int),
                    name@,
                ),
            decreases i,
        {
            let idx = i - 1;
            proof {
                assert(self@.headers.take(i as int).last() == self@.headers[idx as int]);
                assert(self@.headers.take(i as int).drop_last() =~= self@.headers.take(idx as int));
            }
            if str_eq_lower(self.headers[idx].0.as_str(), name) {
                return Some(&self.headers[idx].1);
            }
            i = idx;
        }
        None
    }

    /// Binds `name` to `value`, removing any earlier binding of the name.
    pub fn set_header(&mut self, name: &str, value: String)
        ensures
            final(self)@.headers == upsert_header(old(self)@.headers, name@, value@),
            final(self)@.start_line == old(self)@.start_line,
            final(self)@.via_headers == old(self)@.via_headers,
            final(self)@.body == old(self)@.body,
    {
        let mut kept = remove_header_vec(&self.headers, name);
        let ghost before = kept.deep_view();
        kept.push((name.to_owned(), value));
        proof {
            assert(kept.deep_view() =~= before.push((name@, value@)));
        }
        self.headers = kept;
    }

    /// Removes every binding of `name`.
    pub fn remove_header(&mut self, name: &str)
        ensures
            final(self)@.headers == drop_header(old(self)@.headers, name@),
            final(self)@.start_line == old(self)@.start_line,
            final(self)@.via_headers == old(self)@.via_headers,
            final(self)@.body == old(self)@.body,
    {
        let kept = remove_header_vec(&self.headers, name);
        self.headers = kept;
    }

    /// Parses one raw packet. Returns nothing exactly when the packet has no
    /// first line (it is empty); a message with no headers or an empty body
    /// is still valid.
    pub fn parse(packet_str: &str) -> (r: Option<SipMessage>)
        ensures
            match r {
                Option::Some(m) => parse_spec(packet_str@) == Option::Some(m@),
                Option::None => parse_spec(packet_str@) is None,
            },
    {
        let n = packet_str.unicode_len();
        if n == 0 {
            return None;
        }
        proof {
            assert(packet_str@.subrange(0, n as int) =~= packet_str@);
        }
        let (start_line, first_pos) = next_line(packet_str, 0);
        let mut pos = first_pos;
        let mut headers: Vec<(String, String)> = Vec::new();
        let mut via_headers: Vec<String> = Vec::new();
        let mut body_lines: Vec<String> = Vec::new();
        let mut in_body = false;
        let ghost total = parse_lines(rest_lines(packet_str@), empty_acc());
        proof {
            assert(headers.deep_view() =~= empty_acc().headers);
            assert(via_headers.deep_view() =~= empty_acc().via_headers);
            assert(body_lines.deep_view() =~= empty_acc().body_lines);
        }
        while pos < n
            invariant
                pos <= n,
                n == packet_str@.len(),
                parse_lines(
                    packet_str@.subrange(pos as int, n as int),
                    ParseAcc {
                        in_body,
                        headers: headers.deep_view(),
                        via_headers: via_headers.deep_view(),
                        body_lines: body_lines.deep_view(),
                    },
                ) == total,
            decreases n - pos,
        {
            let ghost suf = packet_str@.subrange(pos as int, n as int);
            let ghost cur = ParseAcc {
                in_body,
                headers: headers.deep_view(),
                via_headers: via_headers.deep_view(),
                body_lines: body_lines.deep_view(),
            };
            let (line, new_pos) = next_line(packet_str, pos);
            let ghost stepped = parse_step(cur, line@);
            if in_body {
                body_lines.push(line);
                proof {
                    assert(body_lines.deep_view() =~= cur.body_lines.push(stepped.body_lines.last()));
                    assert(body_lines.deep_view() =~= stepped.body_lines);
                }
            } else if line.as_str().unicode_len() == 0 {
                in_body = true;
                proof {
                    assert(line@.len() == 0);
                }
            } else {
                match find_char_at(line.as_str(), 0, ':') {
                    None => {
                        proof {
                            assert(stepped == cur);
                        }
                    },
                    Some(ci) => {
                        let name_part = line.as_str().substring_char(0, ci);
                        let name_trim = trim_str(name_part);
                        proof {
                            assert(name_part@ =~= line@.take(ci as int));
                        }
                        if is_via_name_exec(name_trim) {
                            via_headers.push(line);
                            proof {
                                assert(via_headers.deep_view() =~= cur.via_headers.push(
                                    stepped.via_headers.last(),
                                ));
                                assert(via_headers.deep_view() =~= stepped.via_headers);
                            }
                        } else {
                            let cname = canon_header_name(name_trim);
                            let line_len = line.as_str().unicode_len();
                            let value_part = line.as_str().substring_char(ci + 1, line_len);
                            let value = trim_str(value_part).to_owned();
                            proof {
                                assert(value_part@ =~= line@.skip(ci as int + 1));
                            }
                            headers.push((cname, value));
                            proof {
                                assert(headers.deep_view() =~= cur.headers.push(
                                    (canon_name(trim_seq(line@.take(ci as int))), trim_seq(
                                        line@.skip(ci as int + 1),
                                    )),
                                ));
                                assert(headers.deep_view() =~= stepped.headers);
                            }
                        }
                    },
                }
            }
            pos = new_pos;
            proof {
                assert(parse_lines(suf, cur) == parse_lines(rest_lines(suf), stepped));
                assert(packet_str@.subrange(pos as int, n as int) == rest_lines(suf));
            }
        }
        proof {
            assert(packet_str@.subrange(pos as int, n as int).len() == 0);
            assert(parse_lines(
                packet_str@.subrange(pos as int, n as int),
                ParseAcc {
                    in_body,
                    headers: headers.deep_view(),
                    via_headers: via_headers.deep_view(),
                    body_lines: body_lines.deep_view(),
                },
            ) == ParseAcc {
                in_body,
                headers: headers.deep_view(),
                via_headers: via_headers.deep_view(),
                body_lines: body_lines.deep_view(),
            });
        }
        let body = join_crlf_exec(&body_lines);
        Some(SipMessage { start_line, headers, via_headers, body })
    }
}

} // verus!
