//! Resolving a proposer's network address from the text of a configuration.
//!
//! The configuration holds one entry per line. A line is an entry when its
//! first whitespace-separated token is `replica` or `proposer`; its second
//! token is the id, its third the host and its fourth the port. Every other
//! line is ignored, and the first entry with the requested id wins.

use vstd::prelude::*;

use crate::error::ConfigError;

verus! {

/// A proposer's address as its configuration entry writes it.
#[derive(Debug, Clone, PartialEq, Eq)]
pub struct Address {
    /// The host token, byte for byte.
    pub host: Vec<u8>,
    pub port: u16,
}

impl View for Address {
    type V = (Seq<u8>, u16);

    open spec fn view(&self) -> (Seq<u8>, u16) {
        (self.host@, self.port)
    }
}

/// ASCII whitespace: tab, line feed, vertical tab, form feed, carriage return, space.
pub open spec fn is_space(b: u8) -> bool {
    b == 9 || b == 10 || b == 11 || b == 12 || b == 13 || b == 32
}

pub open spec fn is_digit(b: u8) -> bool {
    48 <= b <= 57
}

/// The whitespace-separated tokens of `word + rest`, where `word` is a token
/// whose end has not been seen yet.
pub open spec fn tokens_from(rest: Seq<u8>, word: Seq<u8>) -> Seq<Seq<u8>>
    decreases rest.len(),
{
    if rest.len() == 0 {
        if word.len() == 0 {
            seq![]
        } else {
            seq![word]
        }
    } else if is_space(rest[0]) {
        if word.len() == 0 {
            tokens_from(rest.drop_first(), seq![])
        } else {
            seq![word] + tokens_from(rest.drop_first(), seq![])
        }
    } else {
        tokens_from(rest.drop_first(), word.push(rest[0]))
    }
}

/// The whitespace-separated tokens of a line, in order.
pub open spec fn tokens(line: Seq<u8>) -> Seq<Seq<u8>> {
    tokens_from(line, seq![])
}

/// A non-empty run of decimal digits.
pub open spec fn all_digits(d: Seq<u8>) -> bool {
    d.len() > 0 && forall|i: int| 0 <= i < d.len() ==> is_digit(#[trigger] d[i])
}

/// The number that a run of decimal digits denotes.
pub open spec fn digits_value(d: Seq<u8>) -> int
    decreases d.len(),
{
    if d.len() == 0 {
        0
    } else {
        digits_value(d.drop_last()) * 10 + (d.last() - 48)
    }
}

/// The number that a decimal token denotes: an optional `-` or `+`, then digits.
pub open spec fn decimal_value(t: Seq<u8>) -> Option<int> {
    if t.len() > 0 && (t[0] == 45 || t[0] == 43) {
        if all_digits(t.drop_first()) {
            Some(
                if t[0] == 45 {
                    -digits_value(t.drop_first())
                } else {
                    digits_value(t.drop_first())
                },
            )
        } else {
            None
        }
    } else if all_digits(t) {
        Some(digits_value(t))
    } else {
        None
    }
}

/// The id that a token denotes, if it is a decimal number that fits in `i64`.
pub open spec fn id_of(t: Seq<u8>) -> Option<i64> {
    match decimal_value(t) {
        Some(v) => if i64::MIN <= v <= i64::MAX {
            Some(v as i64)
        } else {
            None
        },
        None => None,
    }
}

/// The port that a token denotes: decimal digits only, no sign, whose value
/// fits in `u16`.
pub open spec fn port_of(t: Seq<u8>) -> Option<u16> {
    if all_digits(t) && digits_value(t) <= u16::MAX {
        Some(digits_value(t) as u16)
    } else {
        None
    }
}

/// `replica` or `proposer`.
pub open spec fn is_entry_keyword(t: Seq<u8>) -> bool {
    t == seq![114u8, 101, 112, 108, 105, 99, 97] || t == seq![
        112u8,
        114,
        111,
        112,
        111,
        115,
        101,
        114,
    ]
}

/// What one line says about proposer `pid`: nothing (`None`), its address,
/// or that the entry is malformed.
pub open spec fn line_verdict(toks: Seq<Seq<u8>>, pid: i64) -> Option<
    Result<(Seq<u8>, u16), ConfigError>,
> {
    if toks.len() == 0 || !is_entry_keyword(toks[0]) {
        None
    } else if toks.len() < 2 || id_of(toks[1]) is None {
        Some(Err(ConfigError::Malformed))
    } else if id_of(toks[1]).unwrap() != pid {
        None
    } else if toks.len() < 4 || port_of(toks[3]) is None {
        Some(Err(ConfigError::Malformed))
    } else {
        Some(Ok((toks[2], port_of(toks[3]).unwrap())))
    }
}

/// The outcome of scanning `text` from byte `i` on, where the line being read
/// began at byte `start`: the first line with a verdict decides, and with
/// none the id is not found.
pub open spec fn resolve_from(text: Seq<u8>, pid: i64, start: int, i: int) -> Result<
    (Seq<u8>, u16),
    ConfigError,
>
    decreases text.len() - i,
{
    if i >= text.len() {
        match line_verdict(tokens(text.subrange(start, text.len() as int)), pid) {
            Some(r) => r,
            None => Err(ConfigError::NotFound),
        }
    } else if text[i] == 10 {
        match line_verdict(tokens(text.subrange(start, i)), pid) {
            Some(r) => r,
            None => resolve_from(text, pid, i + 1, i + 1),
        }
    } else {
        resolve_from(text, pid, start, i + 1)
    }
}

/// The address that configuration `text` gives for proposer `pid`.
pub open spec fn resolve(text: Seq<u8>, pid: i64) -> Result<(Seq<u8>, u16), ConfigError> {
    resolve_from(text, pid, 0, 0)
}

/// `text[s..e]` is one whole line of `text`: it starts the text or follows
/// a line feed, holds none, and ends the text or stops before one.
pub open spec fn is_line(text: Seq<u8>, s: int, e: int) -> bool {
    &&& 0 <= s <= e <= text.len()
    &&& s == 0 || text[s - 1] == 10
    &&& e == text.len() || text[e] == 10
    &&& forall|k: int| s <= k < e ==> text[k] != 10
}

/// A line that says nothing about proposer `pid`: it is no entry, or an
/// entry whose id is a number other than `pid`.
pub open spec fn silent_about(line: Seq<u8>, pid: i64) -> bool {
    let toks = tokens(line);
    toks.len() > 0 && is_entry_keyword(toks[0]) ==> toks.len() >= 2 && id_of(toks[1]) is Some
        && id_of(toks[1]).unwrap() != pid
}

proof fn lemma_not_found_from(text: Seq<u8>, pid: i64, start: int, i: int)
    requires
        0 <= start <= i <= text.len(),
        start == 0 || text[start - 1] == 10,
        forall|k: int| start <= k < i ==> text[k] != 10,
        forall|s: int, e: int|
            is_line(text, s, e) ==> silent_about(#[trigger] text.subrange(s, e), pid),
    ensures
        resolve_from(text, pid, start, i) == Err::<(Seq<u8>, u16), ConfigError>(
            ConfigError::NotFound,
        ),
    decreases text.len() - i,
{
    if i >= text.len() {
        assert(is_line(text, start, text.len() as int));
        assert(silent_about(text.subrange(start, text.len() as int), pid));
    } else if text[i] == 10 {
        assert(is_line(text, start, i));
        assert(silent_about(text.subrange(start, i), pid));
        lemma_not_found_from(text, pid, i + 1, i + 1);
    } else {
        lemma_not_found_from(text, pid, start, i + 1);
    }
}

/// A configuration none of whose lines names proposer `pid` in an entry,
/// and none of whose entries has a malformed id, gives `NotFound` for
/// `pid`.
pub proof fn lemma_unmatched_id_is_not_found(text: Seq<u8>, pid: i64)
    requires
        forall|s: int, e: int|
            is_line(text, s, e) ==> silent_about(#[trigger] text.subrange(s, e), pid),
    ensures
        resolve(text, pid) == Err::<(Seq<u8>, u16), ConfigError>(ConfigError::NotFound),
{
    lemma_not_found_from(text, pid, 0, 0);
}

pub open spec fn resolution_view(r: Result<Address, ConfigError>) -> Result<
    (Seq<u8>, u16),
    ConfigError,
> {
    match r {
        Ok(a) => Ok(a@),
        Err(e) => Err(e),
    }
}

/// The tokens that a list of byte ranges of `text` covers.
pub open spec fn spans_view(text: Seq<u8>, spans: Seq<(usize, usize)>) -> Seq<Seq<u8>> {
    spans.map_values(|p: (usize, usize)| text.subrange(p.0 as int, p.1 as int))
}

proof fn lemma_digits_value_nonneg(d: Seq<u8>)
    requires
        forall|i: int| 0 <= i < d.len() ==> is_digit(#[trigger] d[i]),
    ensures
        digits_value(d) >= 0,
    decreases d.len(),
{
    if d.len() > 0 {
        lemma_digits_value_nonneg(d.drop_last());
    }
}

/// A prefix of a run of digits never denotes more than the whole run.
proof fn lemma_digits_prefix(d: Seq<u8>, k: int)
    requires
        forall|i: int| 0 <= i < d.len() ==> is_digit(#[trigger] d[i]),
        0 <= k <= d.len(),
    ensures
        digits_value(d.take(k)) <= digits_value(d),
    decreases d.len(),
{
    if k < d.len() {
        let dl = d.drop_last();
        lemma_digits_prefix(dl, k);
        assert(dl.take(k) =~= d.take(k));
        lemma_digits_value_nonneg(dl);
    } else {
        assert(d.take(k) =~= d);
    }
}

fn is_space_byte(b: u8) -> (r: bool)
    ensures
        r == is_space(b),
{
    b == 9 || b == 10 || b == 11 || b == 12 || b == 13 || b == 32
}

/// The byte ranges of the tokens of `text[start..end]`.
fn tokenize(text: &[u8], start: usize, end: usize) -> (spans: Vec<(usize, usize)>)
    requires
        start <= end <= text@.len(),
    ensures
        spans_view(text@, spans@) == tokens(text@.subrange(start as int, end as int)),
        forall|k: int|
            0 <= k < spans@.len() ==> start <= (#[trigger] spans@[k]).0 <= spans@[k].1 <= end,
{
    let mut spans: Vec<(usize, usize)> = Vec::new();
    let mut i: usize = start;
    let mut w: usize = start;
    assert(text@.subrange(start as int, start as int) =~= seq![]);
    while i < end
        invariant
            start <= w <= i <= end <= text@.len(),
            forall|k: int|
                0 <= k < spans@.len() ==> start <= (#[trigger] spans@[k]).0 <= spans@[k].1 <= w,
            spans_view(text@, spans@) + tokens_from(
                text@.subrange(i as int, end as int),
                text@.subrange(w as int, i as int),
            ) == tokens(text@.subrange(start as int, end as int)),
        decreases end - i,
    {
        let ghost rest = text@.subrange(i as int, end as int);
        let ghost word = text@.subrange(w as int, i as int);
        assert(rest.drop_first() =~= text@.subrange(i + 1, end as int));
        assert(rest[0] == text@[i as int]);
        if is_space_byte(text[i]) {
            if w < i {
                let ghost before = spans@;
                spans.push((w, i));
                assert(spans_view(text@, spans@) =~= spans_view(text@, before).push(word));
                assert(spans_view(text@, spans@) + tokens_from(rest.drop_first(), seq![])
                    =~= spans_view(text@, before) + (seq![word] + tokens_from(
                    rest.drop_first(),
                    seq![],
                )));
            } else {
                assert(word =~= seq![]);
            }
            i = i + 1;
            w = i;
            assert(text@.subrange(w as int, i as int) =~= seq![]);
        } else {
            assert(word.push(text@[i as int]) =~= text@.subrange(w as int, i + 1));
            i = i + 1;
        }
    }
    let ghost word = text@.subrange(w as int, i as int);
    if w < i {
        let ghost before = spans@;
        spans.push((w, i));
        assert(spans_view(text@, spans@) =~= spans_view(text@, before).push(word));
    } else {
        assert(word =~= seq![]);
        assert(spans_view(text@, spans@) + seq![] =~= spans_view(text@, spans@));
    }
    spans
}

/// The value of the digits `text[a..b]`, if they are all digits and denote
/// at most `limit`.
fn digits_in(text: &[u8], a: usize, b: usize, limit: u64) -> (r: Option<u64>)
    requires
        a <= b <= text@.len(),
    ensures
        match r {
            Some(v) => all_digits(text@.subrange(a as int, b as int)) && v == digits_value(
                text@.subrange(a as int, b as int),
            ) && v <= limit,
            None => !all_digits(text@.subrange(a as int, b as int)) || digits_value(
                text@.subrange(a as int, b as int),
            ) > limit,
        },
{
    let ghost d = text@.subrange(a as int, b as int);
    if a == b {
        return None;
    }
    let mut acc: u64 = 0;
    let mut i: usize = a;
    assert(d.take(0) =~= seq![]);
    while i < b
        invariant
            a <= i <= b <= text@.len(),
            d == text@.subrange(a as int, b as int),
            acc <= limit,
            acc == digits_value(d.take(i - a)),
            forall|k: int| 0 <= k < i - a ==> is_digit(#[trigger] d[k]),
        decreases b - i,
    {
        let c = text[i];
        assert(d[i - a] == c);
        if c < 48 || c > 57 {
            assert(!is_digit(d[i - a]));
            return None;
        }
        let digit: u64 = (c - 48) as u64;
        assert(d.take(i - a + 1).drop_last() =~= d.take(i - a));
        assert(digits_value(d.take(i - a + 1)) == acc * 10 + digit);
        if digit > limit || acc > (limit - digit) / 10 {
            assert(acc * 10 + digit > limit) by (nonlinear_arith)
                requires
                    digit > limit || acc > (limit - digit) / 10,
                    digit <= limit ==> limit - digit >= 0,
            ;
            proof {
                if all_digits(d) {
                    lemma_digits_prefix(d, i - a + 1);
                }
            }
            return None;
        }
        assert(acc * 10 + digit <= limit) by (nonlinear_arith)
            requires
                digit <= limit,
                acc <= (limit - digit) / 10,
        ;
        acc = acc * 10 + digit;
        i = i + 1;
    }
    assert(d.take(b - a) =~= d);
    Some(acc)
}

/// The id that the token `text[a..b]` denotes.
fn parse_id(text: &[u8], a: usize, b: usize) -> (r: Option<i64>)
    requires
        a <= b <= text@.len(),
    ensures
        r == id_of(text@.subrange(a as int, b as int)),
{
    let ghost t = text@.subrange(a as int, b as int);
    if a < b && (text[a] == 45 || text[a] == 43) {
        assert(t.drop_first() =~= text@.subrange(a + 1, b as int));
        let negative = text[a] == 45;
        let limit: u64 = if negative {
            9223372036854775808
        } else {
            9223372036854775807
        };
        match digits_in(text, a + 1, b, limit) {
            None => None,
            Some(v) => {
                if negative {
                    if v == 9223372036854775808 {
                        Some(i64::MIN)
                    } else {
                        Some(-(v as i64))
                    }
                } else {
                    Some(v as i64)
                }
            },
        }
    } else {
        match digits_in(text, a, b, 9223372036854775807) {
            None => None,
            Some(v) => Some(v as i64),
        }
    }
}

/// The port that the token `text[a..b]` denotes.
fn parse_port(text: &[u8], a: usize, b: usize) -> (r: Option<u16>)
    requires
        a <= b <= text@.len(),
    ensures
        r == port_of(text@.subrange(a as int, b as int)),
{
    match digits_in(text, a, b, 65535) {
        None => None,
        Some(v) => Some(v as u16),
    }
}

/// Whether the token `text[a..b]` is `replica` or `proposer`.
fn is_entry_keyword_at(text: &[u8], a: usize, b: usize) -> (r: bool)
    requires
        a <= b <= text@.len(),
    ensures
        r == is_entry_keyword(text@.subrange(a as int, b as int)),
{
    let ghost t = text@.subrange(a as int, b as int);
    let ghost replica = seq![114u8, 101, 112, 108, 105, 99, 97];
    let ghost proposer = seq![112u8, 114, 111, 112, 111, 115, 101, 114];
    assert(replica.len() == 7 && proposer.len() == 8);
    if b - a == 7 {
        let r = text[a] == 114 && text[a + 1] == 101 && text[a + 2] == 112 && text[a + 3] == 108
            && text[a + 4] == 105 && text[a + 5] == 99 && text[a + 6] == 97;
        if r {
            assert(t =~= replica);
        } else {
            assert(t != replica) by {
                if t == replica {
                    assert(t[0] == replica[0] && t[1] == replica[1] && t[2] == replica[2] && t[3]
                        == replica[3] && t[4] == replica[4] && t[5] == replica[5] && t[6]
                        == replica[6]);
                }
            }
        }
        r
    } else if b - a == 8 {
        let r = text[a] == 112 && text[a + 1] == 114 && text[a + 2] == 111 && text[a + 3] == 112
            && text[a + 4] == 111 && text[a + 5] == 115 && text[a + 6] == 101 && text[a + 7]
            == 114;
        if r {
            assert(t =~= proposer);
        } else {
            assert(t != proposer) by {
                if t == proposer {
                    assert(t[0] == proposer[0] && t[1] == proposer[1] && t[2] == proposer[2]
                        && t[3] == proposer[3] && t[4] == proposer[4] && t[5] == proposer[5]
                        && t[6] == proposer[6] && t[7] == proposer[7]);
                }
            }
        }
        r
    } else {
        false
    }
}

/// A copy of `text[a..b]`.
fn copy_range(text: &[u8], a: usize, b: usize) -> (r: Vec<u8>)
    requires
        a <= b <= text@.len(),
    ensures
        r@ == text@.subrange(a as int, b as int),
{
    let mut r: Vec<u8> = Vec::new();
    let mut i: usize = a;
    while i < b
        invariant
            a <= i <= b <= text@.len(),
            r@ == text@.subrange(a as int, i as int),
        decreases b - i,
    {
        r.push(text[i]);
        i = i + 1;
        assert(r@ =~= text@.subrange(a as int, i as int));
    }
    r
}

/// What the line `text[a..b]` says about proposer `pid`.
fn line_decision(text: &[u8], a: usize, b: usize, pid: i64) -> (r: Option<
    Result<Address, ConfigError>,
>)
    requires
        a <= b <= text@.len(),
    ensures
        line_verdict(tokens(text@.subrange(a as int, b as int)), pid) == match r {
            Some(res) => Some(resolution_view(res)),
            None => None,
        },
{
    let spans = tokenize(text, a, b);
    let ghost toks = tokens(text@.subrange(a as int, b as int));
    assert(toks.len() == spans@.len());
    if spans.len() == 0 {
        return None;
    }
    assert(toks[0] == text@.subrange(spans@[0].0 as int, spans@[0].1 as int));
    if !is_entry_keyword_at(text, spans[0].0, spans[0].1) {
        return None;
    }
    if spans.len() < 2 {
        return Some(Err(ConfigError::Malformed));
    }
    assert(toks[1] == text@.subrange(spans@[1].0 as int, spans@[1].1 as int));
    match parse_id(text, spans[1].0, spans[1].1) {
        None => Some(Err(ConfigError::Malformed)),
        Some(id) => {
            if id != pid {
                None
            } else if spans.len() < 4 {
                Some(Err(ConfigError::Malformed))
            } else {
                assert(toks[2] == text@.subrange(spans@[2].0 as int, spans@[2].1 as int));
                assert(toks[3] == text@.subrange(spans@[3].0 as int, spans@[3].1 as int));
                match parse_port(text, spans[3].0, spans[3].1) {
                    None => Some(Err(ConfigError::Malformed)),
                    Some(port) => {
                        let host = copy_range(text, spans[2].0, spans[2].1);
                        Some(Ok(Address { host, port }))
                    },
                }
            }
        },
    }
}

/// The address that the configuration text `config` gives for proposer `pid`.
///
/// Lines are scanned in order. The first entry line (`replica` or
/// `proposer`) whose id is `pid` gives the address; an entry line met before
/// it whose id is not a number, or that entry itself with a missing or
/// malformed port, makes the result `Malformed`; with no such entry the
/// result is `NotFound`.
pub fn proposer_address(config: &[u8], pid: i64) -> (r: Result<Address, ConfigError>)
    ensures
        resolution_view(r) == resolve(config@, pid),
{
    let mut start: usize = 0;
    let mut i: usize = 0;
    while i < config.len()
        invariant
            start <= i <= config@.len(),
            resolve(config@, pid) == resolve_from(config@, pid, start as int, i as int),
        decreases config@.len() - i,
    {
        if config[i] == 10 {
            match line_decision(config, start, i, pid) {
                Some(r) => {
                    return r;
                },
                None => {},
            }
            start = i + 1;
        }
        i = i + 1;
    }
    match line_decision(config, start, config.len(), pid) {
        Some(r) => r,
        None => Err(ConfigError::NotFound),
    }
}

} // verus!
