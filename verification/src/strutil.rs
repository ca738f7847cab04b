//! Character- and string-level utilities shared by the SIP parser and the
//! header rewrite engine: ASCII whitespace trimming, case-insensitive
//! comparison, substring search, whitespace tokenization and decimal
//! formatting, each with an exact specification.

use vstd::prelude::*;

verus! {

/// ASCII whitespace. SIP is an ASCII protocol, so header trimming and
/// tokenization treat exactly these four characters as whitespace.
pub open spec fn is_ws(c: char) -> bool {
    c == ' ' || c == '\t' || c == '\r' || c == '\n'
}

/// ASCII lowercasing of a single character; non-letters are unchanged.
pub open spec fn lower_char(c: char) -> char {
    if 'A' <= c && c <= 'Z' {
        (((c as u32) + 32) as char)
    } else {
        c
    }
}

/// ASCII lowercasing of a character sequence.
pub open spec fn lower(s: Seq<char>) -> Seq<char> {
    s.map_values(|c: char| lower_char(c))
}

/// Index of the first occurrence of `c` in `s` at or after `from`.
pub open spec fn find_char(s: Seq<char>, c: char, from: int) -> Option<int>
    decreases s.len() - from,
{
    if from < 0 || from >= s.len() {
        None
    } else if s[from] == c {
        Some(from)
    } else {
        find_char(s, c, from + 1)
    }
}

/// Index of the first whitespace character in `s` at or after `from`.
pub open spec fn find_ws(s: Seq<char>, from: int) -> Option<int>
    decreases s.len() - from,
{
    if from < 0 || from >= s.len() {
        None
    } else if is_ws(s[from]) {
        Some(from)
    } else {
        find_ws(s, from + 1)
    }
}

/// `s` with leading ASCII whitespace removed.
pub open spec fn trim_start_rec(s: Seq<char>) -> Seq<char>
    decreases s.len(),
{
    if s.len() > 0 && is_ws(s[0]) {
        trim_start_rec(s.drop_first())
    } else {
        s
    }
}

/// `s` with trailing ASCII whitespace removed.
pub open spec fn trim_end_rec(s: Seq<char>) -> Seq<char>
    decreases s.len(),
{
    if s.len() > 0 && is_ws(s.last()) {
        trim_end_rec(s.drop_last())
    } else {
        s
    }
}

/// `s` with leading and trailing ASCII whitespace removed.
pub open spec fn trim_seq(s: Seq<char>) -> Seq<char> {
    trim_end_rec(trim_start_rec(s))
}

/// The maximal whitespace-free tokens of `s`, in order.
pub open spec fn ws_tokens(s: Seq<char>) -> Seq<Seq<char>>
    decreases s.len(),
{
    if s.len() == 0 {
        seq![]
    } else if is_ws(s[0]) {
        ws_tokens(s.drop_first())
    } else {
        match find_ws(s, 0) {
            Option::None => seq![s],
            Option::Some(e) => if 1 <= e < s.len() {
                seq![s.take(e)] + ws_tokens(s.skip(e))
            } else {
                seq![s]
            },
        }
    }
}

/// Whether `p` is a prefix of `s`.
pub open spec fn prefix_of(p: Seq<char>, s: Seq<char>) -> bool {
    p.len() <= s.len() && forall|j: int| 0 <= j < p.len() ==> p[j] == s[j]
}

/// The segments of `s` between occurrences of `c`: an empty input gives one
/// empty segment, and a trailing separator a trailing empty segment.
pub open spec fn split_char(s: Seq<char>, c: char) -> Seq<Seq<char>>
    decreases s.len(),
{
    match find_char(s, c, 0) {
        Option::None => seq![s],
        Option::Some(e) => if 0 <= e < s.len() {
            seq![s.take(e)] + split_char(s.skip(e + 1), c)
        } else {
            seq![s]
        },
    }
}

pub proof fn lemma_find_char_props(s: Seq<char>, c: char, from: int)
    requires
        0 <= from <= s.len(),
    ensures
        match find_char(s, c, from) {
            Option::Some(k) => from <= k < s.len() && s[k] == c && (forall|j: int|
                from <= j < k ==> s[j] != c),
            Option::None => forall|j: int| from <= j < s.len() ==> s[j] != c,
        },
    decreases s.len() - from,
{
    if from < s.len() {
        if s[from] != c {
            lemma_find_char_props(s, c, from + 1);
        }
    }
}

pub proof fn lemma_find_char_shift(s: Seq<char>, c: char, pos: int, from: int)
    requires
        0 <= pos <= from <= s.len(),
    ensures
        ({
            let sub = s.subrange(pos, s.len() as int);
            find_char(sub, c, from - pos) == match find_char(s, c, from) {
                Option::None => Option::<int>::None,
                Option::Some(k) => Option::Some(k - pos),
            }
        }),
    decreases s.len() - from,
{
    let sub = s.subrange(pos, s.len() as int);
    if from < s.len() {
        assert(sub[from - pos] == s[from]);
        if s[from] != c {
            lemma_find_char_shift(s, c, pos, from + 1);
        }
    }
}

pub proof fn lemma_find_ws_props(s: Seq<char>, from: int)
    requires
        0 <= from <= s.len(),
    ensures
        match find_ws(s, from) {
            Option::Some(k) => from <= k < s.len() && is_ws(s[k]) && (forall|j: int|
                from <= j < k ==> !is_ws(s[j])),
            Option::None => forall|j: int| from <= j < s.len() ==> !is_ws(s[j]),
        },
    decreases s.len() - from,
{
    if from < s.len() {
        if !is_ws(s[from]) {
            lemma_find_ws_props(s, from + 1);
        }
    }
}

pub proof fn lemma_find_ws_shift(s: Seq<char>, pos: int, from: int)
    requires
        0 <= pos <= from <= s.len(),
    ensures
        ({
            let sub = s.subrange(pos, s.len() as int);
            find_ws(sub, from - pos) == match find_ws(s, from) {
                Option::None => Option::<int>::None,
                Option::Some(k) => Option::Some(k - pos),
            }
        }),
    decreases s.len() - from,
{
    let sub = s.subrange(pos, s.len() as int);
    if from < s.len() {
        assert(sub[from - pos] == s[from]);
        if !is_ws(s[from]) {
            lemma_find_ws_shift(s, pos, from + 1);
        }
    }
}

/// Whether `l` is free of line feeds, so that it survives as one line of a
/// rendered message.
pub open spec fn line_clean(l: Seq<char>) -> bool {
    forall|j: int| 0 <= j < l.len() ==> l[j] != '\n'
}

pub proof fn lemma_line_clean_concat(a: Seq<char>, b: Seq<char>)
    requires
        line_clean(a),
        line_clean(b),
    ensures
        line_clean(a + b),
{
    assert forall|j: int| 0 <= j < (a + b).len() implies (a + b)[j] != '\n' by {
        if j < a.len() {
            assert((a + b)[j] == a[j]);
        } else {
            assert((a + b)[j] == b[j - a.len()]);
        }
    }
}

pub proof fn lemma_find_char_first(s: Seq<char>, c: char, from: int, k: int)
    requires
        0 <= from <= k < s.len(),
        s[k] == c,
        forall|j: int| from <= j < k ==> s[j] != c,
    ensures
        find_char(s, c, from) == Some(k),
    decreases k - from,
{
    if from < k {
        lemma_find_char_first(s, c, from + 1, k);
    }
}

/// Splitting a separator-free sequence yields it whole.
pub proof fn lemma_split_char_whole(a: Seq<char>, c: char)
    requires
        forall|j: int| 0 <= j < a.len() ==> a[j] != c,
    ensures
        split_char(a, c) == seq![a],
{
    lemma_find_char_props(a, c, 0);
    assert(find_char(a, c, 0) is None);
}

/// Splitting at the first separator peels off the part before it.
pub proof fn lemma_split_char_step(a: Seq<char>, b: Seq<char>, c: char)
    requires
        forall|j: int| 0 <= j < a.len() ==> a[j] != c,
    ensures
        split_char(a + seq![c] + b, c) == seq![a] + split_char(b, c),
{
    let s = a + seq![c] + b;
    let k = a.len() as int;
    assert(s.len() == a.len() + 1 + b.len());
    assert(s[k] == c);
    assert forall|j: int| 0 <= j < k implies s[j] != c by {
        assert(s[j] == a[j]);
    }
    lemma_find_char_first(s, c, 0, k);
    assert(s.take(k) =~= a);
    assert(s.skip(k + 1) =~= b);
}

/// A sequence whose first character is not whitespace does not trim from
/// the end to nothing, and keeps its first character.
pub proof fn lemma_trim_end_keeps_head(s: Seq<char>)
    requires
        s.len() > 0,
        !is_ws(s[0]),
    ensures
        trim_end_rec(s).len() > 0,
        trim_end_rec(s)[0] == s[0],
    decreases s.len(),
{
    if is_ws(s.last()) {
        assert(s.len() > 1);
        assert(s.drop_last()[0] == s[0]);
        lemma_trim_end_keeps_head(s.drop_last());
    }
}

pub proof fn lemma_trim_start_props(s: Seq<char>)
    ensures
        trim_start_rec(s).len() > 0 ==> !is_ws(trim_start_rec(s)[0]),
        trim_start_rec(s).len() <= s.len(),
        forall|j: int|
            0 <= j < trim_start_rec(s).len() ==> trim_start_rec(s)[j] == s[s.len()
                - trim_start_rec(s).len() + j],
    decreases s.len(),
{
    if s.len() > 0 && is_ws(s[0]) {
        lemma_trim_start_props(s.drop_first());
    }
}

pub proof fn lemma_trim_end_props(s: Seq<char>)
    ensures
        trim_end_rec(s).len() > 0 ==> !is_ws(trim_end_rec(s).last()),
        trim_end_rec(s).len() <= s.len(),
        forall|j: int| 0 <= j < trim_end_rec(s).len() ==> trim_end_rec(s)[j] == s[j],
    decreases s.len(),
{
    if s.len() > 0 && is_ws(s.last()) {
        lemma_trim_end_props(s.drop_last());
        assert(trim_end_rec(s) == trim_end_rec(s.drop_last()));
        assert forall|j: int| 0 <= j < trim_end_rec(s).len() implies trim_end_rec(s)[j] == s[j] by {
            assert(trim_end_rec(s.drop_last())[j] == s.drop_last()[j]);
            assert(s.drop_last()[j] == s[j]);
        }
    }
}

/// Trimming is idempotent.
pub proof fn lemma_trim_idem(s: Seq<char>)
    ensures
        trim_seq(trim_seq(s)) == trim_seq(s),
{
    let a = trim_start_rec(s);
    let t = trim_end_rec(a);
    lemma_trim_start_props(s);
    lemma_trim_end_props(a);
    if t.len() > 0 {
        assert(t[0] == a[0]);
        assert(!is_ws(t[0]));
        assert(trim_start_rec(t) == t);
        assert(trim_end_rec(t) == t);
    } else {
        assert(trim_start_rec(t) == t);
        assert(trim_end_rec(t) == t);
    }
}

/// The characters of a trimmed sequence all occur in the original.
pub proof fn lemma_trim_sub(s: Seq<char>)
    ensures
        forall|j: int|
            0 <= j < trim_seq(s).len() ==> exists|k: int|
                0 <= k < s.len() && s[k] == #[trigger] trim_seq(s)[j],
{
    let a = trim_start_rec(s);
    let t = trim_end_rec(a);
    lemma_trim_start_props(s);
    lemma_trim_end_props(a);
    assert forall|j: int| 0 <= j < t.len() implies exists|k: int|
        0 <= k < s.len() && s[k] == #[trigger] t[j] by {
        assert(t[j] == a[j]);
        assert(a[j] == s[s.len() - a.len() + j]);
        assert(0 <= s.len() - a.len() + j < s.len());
    }
}

/// A decimal representation holds digit characters only.
pub proof fn lemma_dec_rep_digits(n: int)
    ensures
        forall|j: int|
            0 <= j < dec_rep(n).len() ==> '0' <= #[trigger] dec_rep(n)[j] && dec_rep(n)[j] <= '9',
    decreases n,
{
    if n >= 10 {
        lemma_dec_rep_digits(n / 10);
        assert(dec_rep(n) == dec_rep(n / 10) + seq![digit_char(n % 10)]);
    }
}

pub fn is_ws_exec(c: char) -> (r: bool)
    ensures
        r == is_ws(c),
{
    c == ' ' || c == '\t' || c == '\r' || c == '\n'
}

/// First occurrence of `c` in `s` at or after `from`.
pub fn find_char_at(s: &str, from: usize, c: char) -> (r: Option<usize>)
    requires
        from <= s@.len(),
    ensures
        match r {
            Option::Some(k) => from <= k < s@.len() && find_char(s@, c, from as int) == Some(
                k as int,
            ),
            Option::None => find_char(s@, c, from as int) is None,
        },
{
    let n = s.unicode_len();
    let mut i = from;
    while i < n
        invariant
            from <= i <= n,
            n == s@.len(),
            find_char(s@, c, from as int) == find_char(s@, c, i as int),
        decreases n - i,
    {
        if s.get_char(i) == c {
            return Some(i);
        }
        i = i + 1;
    }
    None
}

/// First whitespace character in `s` at or after `from`.
pub fn find_ws_at(s: &str, from: usize) -> (r: Option<usize>)
    requires
        from <= s@.len(),
    ensures
        match r {
            Option::Some(k) => from <= k < s@.len() && find_ws(s@, from as int) == Some(k as int),
            Option::None => find_ws(s@, from as int) is None,
        },
{
    let n = s.unicode_len();
    let mut i = from;
    while i < n
        invariant
            from <= i <= n,
            n == s@.len(),
            find_ws(s@, from as int) == find_ws(s@, i as int),
        decreases n - i,
    {
        if is_ws_exec(s.get_char(i)) {
            return Some(i);
        }
        i = i + 1;
    }
    None
}

/// The slice of `s` with leading and trailing ASCII whitespace removed.
pub fn trim_str<'a>(s: &'a str) -> (r: &'a str)
    ensures
        r@ == trim_seq(s@),
{
    let n = s.unicode_len();
    proof {
        assert(s@.subrange(0, n as int) =~= s@);
    }
    let mut i: usize = 0;
    while i < n && is_ws_exec(s.get_char(i))
        invariant
            i <= n,
            n == s@.len(),
            trim_start_rec(s@) == trim_start_rec(s@.subrange(i as int, n as int)),
        decreases n - i,
    {
        proof {
            assert(s@.subrange(i as int, n as int).drop_first() =~= s@.subrange(
                i as int + 1,
                n as int,
            ));
        }
        i = i + 1;
    }
    proof {
        assert(trim_start_rec(s@) == s@.subrange(i as int, n as int));
    }
    let mut j: usize = n;
    while j > i && is_ws_exec(s.get_char(j - 1))
        invariant
            i <= j <= n,
            n == s@.len(),
            trim_start_rec(s@) == s@.subrange(i as int, n as int),
            trim_end_rec(s@.subrange(i as int, n as int)) == trim_end_rec(
                s@.subrange(i as int, j as int),
            ),
        decreases j,
    {
        proof {
            assert(s@.subrange(i as int, j as int).drop_last() =~= s@.subrange(
                i as int,
                j as int - 1,
            ));
        }
        j = j - 1;
    }
    s.substring_char(i, j)
}

/// Whether two characters are equal up to ASCII case.
pub fn lower_eq_char(a: char, b: char) -> (r: bool)
    ensures
        r == (lower_char(a) == lower_char(b)),
{
    let la: u32 = if 'A' <= a && a <= 'Z' {
        a as u32 + 32
    } else {
        a as u32
    };
    let lb: u32 = if 'A' <= b && b <= 'Z' {
        b as u32 + 32
    } else {
        b as u32
    };
    la == lb
}

/// Whether two strings are equal up to ASCII case.
pub fn str_eq_lower(a: &str, b: &str) -> (r: bool)
    ensures
        r == (lower(a@) == lower(b@)),
{
    let na = a.unicode_len();
    let nb = b.unicode_len();
    if na != nb {
        proof {
            assert(lower(a@).len() == a@.len());
            assert(lower(b@).len() == b@.len());
        }
        return false;
    }
    let mut i: usize = 0;
    while i < na
        invariant
            i <= na,
            na == a@.len(),
            na == b@.len(),
            forall|k: int| 0 <= k < i ==> lower_char(a@[k]) == lower_char(b@[k]),
        decreases na - i,
    {
        if !lower_eq_char(a.get_char(i), b.get_char(i)) {
            proof {
                assert(lower(a@)[i as int] != lower(b@)[i as int]);
            }
            return false;
        }
        i = i + 1;
    }
    proof {
        assert(lower(a@) =~= lower(b@));
    }
    true
}

/// Whether two strings are equal.
pub fn str_eq(a: &str, b: &str) -> (r: bool)
    ensures
        r == (a@ == b@),
{
    let na = a.unicode_len();
    let nb = b.unicode_len();
    if na != nb {
        return false;
    }
    let mut i: usize = 0;
    while i < na
        invariant
            i <= na,
            na == a@.len(),
            na == b@.len(),
            forall|k: int| 0 <= k < i ==> a@[k] == b@[k],
        decreases na - i,
    {
        if a.get_char(i) != b.get_char(i) {
            return false;
        }
        i = i + 1;
    }
    proof {
        assert(a@ =~= b@);
    }
    true
}

/// The first position at or after `from` where `pat` occurs in `s`.
pub open spec fn find_str(s: Seq<char>, pat: Seq<char>, from: int) -> Option<int>
    decreases s.len() - from,
{
    if from < 0 || from > s.len() {
        Option::None
    } else if prefix_of(pat, s.skip(from)) {
        Option::Some(from)
    } else if from == s.len() {
        Option::None
    } else {
        find_str(s, pat, from + 1)
    }
}

/// Whether `p` is a prefix of `s` starting at position `from`.
pub fn starts_with_at(s: &str, from: usize, p: &str) -> (r: bool)
    requires
        from <= s@.len(),
    ensures
        r == prefix_of(p@, s@.subrange(from as int, s@.len() as int)),
{
    let n = s.unicode_len();
    let np = p.unicode_len();
    let ghost suf = s@.subrange(from as int, s@.len() as int);
    if np > n - from {
        return false;
    }
    let mut j: usize = 0;
    while j < np
        invariant
            j <= np,
            np == p@.len(),
            n == s@.len(),
            from <= n,
            np <= n - from,
            suf == s@.subrange(from as int, s@.len() as int),
            forall|t: int| 0 <= t < j ==> p@[t] == suf[t],
        decreases np - j,
    {
        if s.get_char(from + j) != p.get_char(j) {
            proof {
                assert(suf[j as int] == s@[from + j]);
            }
            return false;
        }
        proof {
            assert(suf[j as int] == s@[from + j]);
        }
        j = j + 1;
    }
    true
}

/// Whether `p` is a prefix of `s`.
pub fn starts_with_str(s: &str, p: &str) -> (r: bool)
    ensures
        r == prefix_of(p@, s@),
{
    proof {
        assert(s@.subrange(0, s@.len() as int) =~= s@);
    }
    starts_with_at(s, 0, p)
}

pub proof fn lemma_find_str_props(s: Seq<char>, pat: Seq<char>, from: int)
    requires
        0 <= from <= s.len(),
    ensures
        match find_str(s, pat, from) {
            Option::Some(k) => from <= k <= s.len() && prefix_of(pat, s.skip(k)),
            Option::None => true,
        },
    decreases s.len() - from,
{
    if !prefix_of(pat, s.skip(from)) && from < s.len() {
        lemma_find_str_props(s, pat, from + 1);
    }
}

/// The first occurrence of `pat` in `s` at or after `from`.
pub fn find_str_at(s: &str, from: usize, pat: &str) -> (r: Option<usize>)
    requires
        from <= s@.len(),
    ensures
        match r {
            Option::Some(k) => from <= k <= s@.len() && find_str(s@, pat@, from as int)
                == Some(k as int) && prefix_of(pat@, s@.skip(k as int)),
            Option::None => find_str(s@, pat@, from as int) is None,
        },
{
    let n = s.unicode_len();
    let mut i = from;
    while i < n
        invariant
            from <= i <= n,
            n == s@.len(),
            find_str(s@, pat@, from as int) == find_str(s@, pat@, i as int),
        decreases n - i,
    {
        let here = starts_with_at(s, i, pat);
        proof {
            assert(s@.subrange(i as int, n as int) =~= s@.skip(i as int));
        }
        if here {
            return Some(i);
        }
        i = i + 1;
    }
    let at_end = starts_with_at(s, n, pat);
    proof {
        assert(s@.subrange(n as int, n as int) =~= s@.skip(n as int));
    }
    if at_end {
        Some(n)
    } else {
        None
    }
}

/// The segments of `s` between occurrences of `c`, in order.
pub fn split_char_exec(s: &str, c: char) -> (r: Vec<String>)
    ensures
        r.deep_view() == split_char(s@, c),
{
    let n = s.unicode_len();
    let mut out: Vec<String> = Vec::new();
    let mut pos: usize = 0;
    proof {
        assert(out.deep_view() + split_char(s@.subrange(0, n as int), c) =~= split_char(s@, c))
            by {
            assert(s@.subrange(0, n as int) =~= s@);
        }
    }
    loop
        invariant_except_break
            pos <= n,
            n == s@.len(),
            out.deep_view() + split_char(s@.subrange(pos as int, n as int), c) == split_char(
                s@,
                c,
            ),
        ensures
            out.deep_view() == split_char(s@, c),
        decreases n - pos,
    {
        let ghost suf = s@.subrange(pos as int, n as int);
        proof {
            lemma_find_char_shift(s@, c, pos as int, pos as int);
            lemma_find_char_props(s@, c, pos as int);
        }
        match find_char_at(s, pos, c) {
            Some(e) => {
                let ghost before = out.deep_view();
                out.push(s.substring_char(pos, e).to_owned());
                proof {
                    assert(find_char(suf, c, 0) == Some(e - pos));
                    assert(suf.take(e - pos) =~= s@.subrange(pos as int, e as int));
                    assert(suf.skip(e - pos + 1) =~= s@.subrange(e as int + 1, n as int));
                    assert(split_char(suf, c) == seq![suf.take(e - pos)] + split_char(
                        suf.skip(e - pos + 1),
                        c,
                    ));
                    assert(out.deep_view() =~= before.push(s@.subrange(pos as int, e as int)));
                    assert(out.deep_view() + split_char(
                        s@.subrange(e as int + 1, n as int),
                        c,
                    ) =~= before + split_char(suf, c));
                }
                pos = e + 1;
            },
            None => {
                let ghost before = out.deep_view();
                out.push(s.substring_char(pos, n).to_owned());
                proof {
                    assert(find_char(suf, c, 0) is None);
                    assert(split_char(suf, c) == seq![suf]);
                    assert(out.deep_view() =~= before.push(suf));
                    assert(out.deep_view() =~= before + split_char(suf, c));
                }
                break;
            },
        }
    }
    out
}

/// The maximal whitespace-free tokens of `s`, in order.
pub fn split_ws_exec(s: &str) -> (r: Vec<String>)
    ensures
        r.deep_view() == ws_tokens(s@),
{
    let n = s.unicode_len();
    let mut out: Vec<String> = Vec::new();
    let mut pos: usize = 0;
    proof {
        assert(out.deep_view() + ws_tokens(s@.subrange(0, n as int)) =~= ws_tokens(s@)) by {
            assert(s@.subrange(0, n as int) =~= s@);
        }
    }
    while pos < n
        invariant
            pos <= n,
            n == s@.len(),
            out.deep_view() + ws_tokens(s@.subrange(pos as int, n as int)) == ws_tokens(s@),
        decreases n - pos,
    {
        let ghost suf = s@.subrange(pos as int, n as int);
        if is_ws_exec(s.get_char(pos)) {
            proof {
                assert(suf[0] == s@[pos as int]);
                assert(suf.drop_first() =~= s@.subrange(pos as int + 1, n as int));
                assert(ws_tokens(suf) == ws_tokens(suf.drop_first()));
            }
            pos = pos + 1;
        } else {
            proof {
                assert(suf[0] == s@[pos as int]);
                lemma_find_ws_shift(s@, pos as int, pos as int);
                lemma_find_ws_props(s@, pos as int);
            }
            match find_ws_at(s, pos) {
                Some(e) => {
                    let ghost before = out.deep_view();
                    out.push(s.substring_char(pos, e).to_owned());
                    proof {
                        assert(find_ws(suf, 0) == Some(e - pos));
                        assert(is_ws(s@[e as int]));
                        assert(e > pos) by {
                            assert(!is_ws(s@[pos as int]));
                        }
                        assert(suf.take(e - pos) =~= s@.subrange(pos as int, e as int));
                        assert(suf.skip(e - pos) =~= s@.subrange(e as int, n as int));
                        assert(ws_tokens(suf) == seq![suf.take(e - pos)] + ws_tokens(
                            suf.skip(e - pos),
                        ));
                        assert(out.deep_view() =~= before.push(s@.subrange(pos as int, e as int)));
                        assert(out.deep_view() + ws_tokens(s@.subrange(e as int, n as int)) =~=
                            before + ws_tokens(suf));
                    }
                    pos = e;
                },
                None => {
                    let ghost before = out.deep_view();
                    out.push(s.substring_char(pos, n).to_owned());
                    proof {
                        assert(find_ws(suf, 0) is None);
                        assert(ws_tokens(suf) == seq![suf]);
                        assert(out.deep_view() =~= before.push(suf));
                        assert(out.deep_view() + ws_tokens(s@.subrange(n as int, n as int)) =~=
                            before + ws_tokens(suf)) by {
                            assert(ws_tokens(s@.subrange(n as int, n as int)) =~= Seq::<
                                Seq<char>,
                            >::empty());
                        }
                    }
                    pos = n;
                },
            }
        }
    }
    proof {
        assert(ws_tokens(s@.subrange(n as int, n as int)) =~= Seq::<Seq<char>>::empty());
        assert(out.deep_view() =~= out.deep_view() + ws_tokens(s@.subrange(n as int, n as int)));
    }
    out
}

/// The decimal digit character for `d`.
pub open spec fn digit_char(d: int) -> char {
    if d == 0 {
        '0'
    } else if d == 1 {
        '1'
    } else if d == 2 {
        '2'
    } else if d == 3 {
        '3'
    } else if d == 4 {
        '4'
    } else if d == 5 {
        '5'
    } else if d == 6 {
        '6'
    } else if d == 7 {
        '7'
    } else if d == 8 {
        '8'
    } else {
        '9'
    }
}

/// The decimal representation of `n`, without leading zeros (except for 0).
pub open spec fn dec_rep(n: int) -> Seq<char>
    decreases n,
{
    if n < 10 {
        seq![digit_char(n)]
    } else {
        dec_rep(n / 10) + seq![digit_char(n % 10)]
    }
}

fn digit_str(d: u16) -> (r: &'static str)
    requires
        d < 10,
    ensures
        r@ == seq![digit_char(d as int)],
{
    match d {
        0 => {
            proof {
                reveal_strlit("0");
            }
            "0"
        },
        1 => {
            proof {
                reveal_strlit("1");
            }
            "1"
        },
        2 => {
            proof {
                reveal_strlit("2");
            }
            "2"
        },
        3 => {
            proof {
                reveal_strlit("3");
            }
            "3"
        },
        4 => {
            proof {
                reveal_strlit("4");
            }
            "4"
        },
        5 => {
            proof {
                reveal_strlit("5");
            }
            "5"
        },
        6 => {
            proof {
                reveal_strlit("6");
            }
            "6"
        },
        7 => {
            proof {
                reveal_strlit("7");
            }
            "7"
        },
        8 => {
            proof {
                reveal_strlit("8");
            }
            "8"
        },
        _ => {
            proof {
                reveal_strlit("9");
            }
            "9"
        },
    }
}

/// The decimal representation of a 16-bit number, as used for ports.
pub fn u16_to_string(v: u16) -> (r: String)
    ensures
        r@ == dec_rep(v as int),
    decreases v,
{
    let d: u16 = v % 10;
    let ds = digit_str(d);
    if v < 10 {
        ds.to_owned()
    } else {
        let mut r = u16_to_string(v / 10);
        r.append(ds);
        r
    }
}

} // verus!
