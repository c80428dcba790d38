//! Message classifier: maps a decoded protocol line to exactly one control
//! message, in priority order PING, then MODE notice, then DCC SEND offer,
//! then unrecognized.
//!
//! Shapes, over the characters of the trimmed line (words are delimited by a
//! single space):
//! - PING: `[<prefix> ]PING <token>` where `<prefix>` is a nonempty
//!   space-free word; the token is everything after the first `PING ` and
//!   must not begin with a space.
//! - MODE notice: `[<prefix> ]MODE <target> :<param>`, anchored at the end,
//!   target and param nonempty and space-free.
//! - DCC offer: the line contains `DCC SEND `, and what follows its first
//!   occurrence is `<filename> <address> <port> <size>`: three decimal runs,
//!   each preceded by a single space, the last free to be followed by
//!   anything (an offer usually arrives CTCP-framed, with a control byte
//!   after the size). The filename may be quoted (quotes stripped, spaces
//!   allowed inside), the fields then follow the closing quote directly; an
//!   unquoted filename may also hold spaces, extending greedily up to the
//!   rightmost such field triple.
//!
//! The classifier does not validate message origin: an offer is taken from
//! any sender, not only the configured bot. That is a known limitation of
//! this client, kept deliberately.

use vstd::prelude::*;

use crate::text::{digit_run, dec_value, chars_of, parse_decimal, is_digit};

verus! {

/// Index of the first occurrence of `c` in `l`, or `l.len()` if there is
/// none.
pub open spec fn first_at(l: Seq<char>, c: char) -> nat
    decreases l.len(),
{
    if l.len() == 0 {
        0
    } else if l[0] == c {
        0
    } else {
        1 + first_at(l.drop_first(), c)
    }
}

/// Whether `l` starts with `p`.
pub open spec fn starts_with(l: Seq<char>, p: Seq<char>) -> bool {
    p.len() <= l.len() && l.take(p.len() as int) == p
}

pub open spec fn ping_keyword() -> Seq<char> {
    seq!['P', 'I', 'N', 'G', ' ']
}

pub open spec fn mode_keyword() -> Seq<char> {
    seq!['M', 'O', 'D', 'E', ' ']
}

pub open spec fn dcc_keyword() -> Seq<char> {
    seq!['D', 'C', 'C', ' ', 'S', 'E', 'N', 'D', ' ']
}

/// `first_at` is pinned by its characteristic property.
pub proof fn lemma_first_at_is(l: Seq<char>, c: char, k: int)
    requires
        0 <= k <= l.len(),
        forall|j: int| 0 <= j < k ==> l[j] != c,
        k < l.len() ==> l[k] == c,
    ensures
        first_at(l, c) == k,
    decreases l.len(),
{
    if l.len() == 0 {
    } else if l[0] == c {
        assert(k == 0);
    } else {
        assert(k >= 1);
        assert forall|j: int| 0 <= j < k - 1 implies l.drop_first()[j] != c by {
            assert(l.drop_first()[j] == l[j + 1]);
        }
        assert(k - 1 < l.drop_first().len() ==> l.drop_first()[k - 1] == l[k]);
        lemma_first_at_is(l.drop_first(), c, k - 1);
    }
}

/// PING shape at the start of `l`; the token is everything after `PING `.
pub open spec fn ping_here(l: Seq<char>) -> bool {
    starts_with(l, ping_keyword()) && l.len() > 5 && l[5] != ' '
}

/// Whether `l` starts with a nonempty space-free word followed by a space: a
/// sender prefix that the shapes skip over.
pub open spec fn has_sender_prefix(l: Seq<char>) -> bool {
    1 <= first_at(l, ' ') < l.len()
}

/// `l` with its sender prefix and the following space removed.
pub open spec fn after_prefix(l: Seq<char>) -> Seq<char> {
    l.skip(first_at(l, ' ') as int + 1)
}

pub open spec fn is_ping(l: Seq<char>) -> bool {
    ping_here(l) || (has_sender_prefix(l) && ping_here(after_prefix(l)))
}

/// The token of a PING line: everything after `PING `.
pub open spec fn ping_token(l: Seq<char>) -> Seq<char> {
    if ping_here(l) {
        l.skip(5)
    } else {
        after_prefix(l).skip(5)
    }
}

/// MODE-notice shape at the start of `l`: `MODE <target> :<param>`, anchored
/// at the end.
pub open spec fn mode_here(l: Seq<char>) -> bool {
    starts_with(l, mode_keyword()) && {
        let rest = l.skip(5);
        let k = first_at(rest, ' ') as int;
        1 <= k && k + 2 < rest.len() && rest[k + 1] == ':'
            && (forall|j: int| k + 2 <= j < rest.len() ==> rest[j] != ' ')
    }
}

pub open spec fn is_mode(l: Seq<char>) -> bool {
    mode_here(l) || (has_sender_prefix(l) && mode_here(after_prefix(l)))
}

/// Whether `DCC SEND ` stands at position `i` of `l`.
pub open spec fn match_dcc_at(l: Seq<char>, i: int) -> bool {
    0 <= i && i + 9 <= l.len() && l.subrange(i, i + 9) == dcc_keyword()
}

/// Index of the first occurrence of `DCC SEND ` in `l`, or `l.len()` if there
/// is none.
pub open spec fn first_dcc(l: Seq<char>) -> nat
    decreases l.len(),
{
    if l.len() == 0 {
        0
    } else if starts_with(l, dcc_keyword()) {
        0
    } else {
        1 + first_dcc(l.drop_first())
    }
}

/// `first_dcc` is pinned by its characteristic property.
pub proof fn lemma_first_dcc_is(l: Seq<char>, i: int)
    requires
        0 <= i <= l.len(),
        forall|j: int| 0 <= j < i ==> !match_dcc_at(l, j),
        i < l.len() ==> match_dcc_at(l, i),
    ensures
        first_dcc(l) == i,
    decreases l.len(),
{
    if l.len() == 0 {
    } else if starts_with(l, dcc_keyword()) {
        assert(l.subrange(0, 9) =~= l.take(9));
        assert(match_dcc_at(l, 0));
        assert(i == 0);
    } else {
        assert(!match_dcc_at(l, 0)) by {
            if match_dcc_at(l, 0) {
                assert(l.take(9) =~= l.subrange(0, 9));
            }
        }
        assert(i >= 1);
        assert forall|j: int| 0 <= j < i - 1 implies !match_dcc_at(l.drop_first(), j) by {
            if match_dcc_at(l.drop_first(), j) {
                assert(l.subrange(j + 1, j + 1 + 9) =~= l.drop_first().subrange(j, j + 9));
                assert(match_dcc_at(l, j + 1));
            }
        }
        if i < l.len() {
            assert(l.drop_first().subrange(i - 1, i - 1 + 9) =~= l.subrange(i, i + 9));
            assert(match_dcc_at(l.drop_first(), i - 1));
        }
        lemma_first_dcc_is(l.drop_first(), i - 1);
    }
}

pub open spec fn has_dcc(l: Seq<char>) -> bool {
    first_dcc(l) < l.len()
}

/// What follows the first `DCC SEND ` of `l`.
pub open spec fn dcc_rest(l: Seq<char>) -> Seq<char> {
    l.skip(first_dcc(l) as int + 9)
}

/// First index at or after `i` that is past the end of `t` or holds a
/// non-digit: where the decimal run starting at `i` ends.
pub open spec fn digit_run_end(t: Seq<char>, i: int) -> int
    decreases t.len() - i,
{
    if i < 0 || i >= t.len() {
        i
    } else if !is_digit(t[i]) {
        i
    } else {
        digit_run_end(t, i + 1)
    }
}

/// Whether ` <address> <port> <size>` stands at index `p` of `t`: a space,
/// then three nonempty decimal runs separated by single spaces, the last
/// free to be followed by anything.
pub open spec fn triple_at(t: Seq<char>, p: int) -> bool {
    0 <= p < t.len() && t[p] == ' ' && {
        let ae = digit_run_end(t, p + 1);
        ae > p + 1 && ae < t.len() && t[ae] == ' ' && {
            let pe = digit_run_end(t, ae + 1);
            pe > ae + 1 && pe < t.len() && t[pe] == ' ' && digit_run_end(t, pe + 1) > pe + 1
        }
    }
}

/// End of the address run of the triple at `p`.
pub open spec fn addr_end(t: Seq<char>, p: int) -> int {
    digit_run_end(t, p + 1)
}

/// End of the port run of the triple at `p`.
pub open spec fn port_end(t: Seq<char>, p: int) -> int {
    digit_run_end(t, addr_end(t, p) + 1)
}

/// End of the size run of the triple at `p`.
pub open spec fn size_end(t: Seq<char>, p: int) -> int {
    digit_run_end(t, port_end(t, p) + 1)
}

pub open spec fn addr_run(t: Seq<char>, p: int) -> Seq<char> {
    t.subrange(p + 1, addr_end(t, p))
}

pub open spec fn port_run(t: Seq<char>, p: int) -> Seq<char> {
    t.subrange(addr_end(t, p) + 1, port_end(t, p))
}

pub open spec fn size_run(t: Seq<char>, p: int) -> Seq<char> {
    t.subrange(port_end(t, p) + 1, size_end(t, p))
}

/// The largest index `p <= from` where a field triple stands, or `-1`: an
/// unquoted filename extends greedily, so the rightmost triple is the one
/// that counts.
pub open spec fn last_triple(t: Seq<char>, from: int) -> int
    decreases from + 1,
{
    if from < 0 {
        -1
    } else if triple_at(t, from) {
        from
    } else {
        last_triple(t, from - 1)
    }
}

/// `digit_run_end` is pinned by its characteristic property.
pub proof fn lemma_digit_run_end_is(t: Seq<char>, i: int, j: int)
    requires
        0 <= i <= j <= t.len(),
        forall|q: int| i <= q < j ==> is_digit(t[q]),
        j < t.len() ==> !is_digit(t[j]),
    ensures
        digit_run_end(t, i) == j,
    decreases j - i,
{
    if i == j {
    } else {
        lemma_digit_run_end_is(t, i + 1, j);
    }
}

/// `last_triple` is pinned by its characteristic property.
pub proof fn lemma_last_triple_is(t: Seq<char>, from: int, p: int)
    requires
        -1 <= p <= from,
        p >= 0 ==> triple_at(t, p),
        forall|q: int| p < q <= from ==> !triple_at(t, q),
    ensures
        last_triple(t, from) == p,
    decreases from + 1,
{
    if from < 0 {
    } else if triple_at(t, from) {
        assert(p == from);
    } else {
        lemma_last_triple_is(t, from - 1, p);
    }
}

/// Whether the text after `DCC SEND ` opens with a quoted filename: a quote,
/// with a closing quote somewhere after it.
pub open spec fn quoted_branch(rest: Seq<char>) -> bool {
    rest.len() > 0 && rest[0] == '"' && first_at(rest.skip(1), '"') < rest.len() - 1
}

/// The structured fields of a DCC SEND offer, before numeric interpretation.
pub struct OfferShape {
    pub filename: Seq<char>,
    pub addr: Seq<char>,
    pub port: Seq<char>,
    pub size: Seq<char>,
}

/// The offer fields of `l`, if it holds a `DCC SEND ` offer anywhere. A
/// quoted filename is the span between the first quote pair, the field
/// triple following the closing quote directly; an unquoted filename is
/// everything up to the rightmost field triple, and must be nonempty.
pub open spec fn offer_shape(l: Seq<char>) -> Option<OfferShape> {
    if !has_dcc(l) {
        None
    } else {
        let rest = dcc_rest(l);
        if quoted_branch(rest) {
            let q = first_at(rest.skip(1), '"') as int;
            let tail = rest.skip(q + 2);
            if q >= 1 && triple_at(tail, 0) {
                Some(OfferShape {
                    filename: rest.subrange(1, q + 1),
                    addr: addr_run(tail, 0),
                    port: port_run(tail, 0),
                    size: size_run(tail, 0),
                })
            } else {
                None
            }
        } else {
            let p = last_triple(rest, rest.len() - 1);
            if p >= 1 {
                Some(OfferShape {
                    filename: rest.take(p),
                    addr: addr_run(rest, p),
                    port: port_run(rest, p),
                    size: size_run(rest, p),
                })
            } else {
                None
            }
        }
    }
}

/// The classification of a line, in priority order: PING, then MODE notice,
/// then DCC SEND offer (malformed when a numeric field does not fit its
/// range), then unrecognized.
pub enum LineClass {
    Ping(Seq<char>),
    Mode,
    Offer(OfferShape),
    MalformedOffer,
    Other,
}

pub open spec fn classify_spec(l: Seq<char>) -> LineClass {
    if is_ping(l) {
        LineClass::Ping(ping_token(l))
    } else if is_mode(l) {
        LineClass::Mode
    } else {
        match offer_shape(l) {
            Some(o) => if dec_value(o.addr) < 0x1_0000_0000 && dec_value(o.port) < 0x1_0000
                && dec_value(o.size) <= u64::MAX {
                LineClass::Offer(o)
            } else {
                LineClass::MalformedOffer
            },
            None => LineClass::Other,
        }
    }
}


/// A DCC SEND offer, decoded: the peer to connect to and the byte count to
/// expect. The address is a packed big-endian 32-bit IPv4 address.
#[derive(Debug)]
pub struct TransferDescriptor {
    pub filename: String,
    pub address: u32,
    pub port: u16,
    pub size: u64,
}

/// A classified control message.
#[derive(Debug)]
pub enum Message {
    Ping { token: String },
    ModeNotice,
    DccOffer(TransferDescriptor),
    Unrecognized,
}

/// A fatal protocol error: bytes where text was expected, or an offer whose
/// numeric fields do not fit their ranges.
#[derive(Debug, PartialEq, Eq, Structural)]
pub enum ProtocolError {
    InvalidText,
    MalformedOffer,
}

/// How a decoded descriptor relates to the shaped fields of an offer.
pub open spec fn descriptor_matches(d: TransferDescriptor, o: OfferShape) -> bool {
    d.filename@ == o.filename && d.address == dec_value(o.addr) && d.port == dec_value(o.port)
        && d.size == dec_value(o.size)
}

/// How an executable classification result relates to the specified one.
pub open spec fn classification_matches(l: Seq<char>, r: Result<Message, ProtocolError>) -> bool {
    match classify_spec(l) {
        LineClass::Ping(tok) => r matches Ok(Message::Ping { token }) && token@ == tok,
        LineClass::Mode => r matches Ok(Message::ModeNotice),
        LineClass::Offer(o) => r matches Ok(Message::DccOffer(d)) && descriptor_matches(d, o),
        LineClass::MalformedOffer => r matches Err(ProtocolError::MalformedOffer),
        LineClass::Other => r matches Ok(Message::Unrecognized),
    }
}

/// Classifier priority: the PING shape wins over all others, the MODE-notice
/// shape over the offer shapes, and only a line matching none of them is
/// unrecognized — even when, say, a MODE-shaped line also holds `DCC SEND `.
pub proof fn lemma_classifier_priority(l: Seq<char>)
    ensures
        is_ping(l) ==> classify_spec(l) == LineClass::Ping(ping_token(l)),
        !is_ping(l) && is_mode(l) ==> classify_spec(l) == LineClass::Mode,
        !is_ping(l) && !is_mode(l) ==> (offer_shape(l) matches Some(o) ==> (if dec_value(o.addr)
            < 0x1_0000_0000 && dec_value(o.port) < 0x1_0000 && dec_value(o.size) <= u64::MAX {
            classify_spec(l) == LineClass::Offer(o)
        } else {
            classify_spec(l) == LineClass::MalformedOffer
        })),
        !is_ping(l) && !is_mode(l) && offer_shape(l) is None ==> classify_spec(l)
            == LineClass::Other,
{
}

fn ping_pattern() -> (r: Vec<char>)
    ensures
        r@ == ping_keyword(),
{
    let mut r: Vec<char> = Vec::new();
    r.push('P');
    r.push('I');
    r.push('N');
    r.push('G');
    r.push(' ');
    proof {
        assert(r@ =~= ping_keyword());
    }
    r
}

fn mode_pattern() -> (r: Vec<char>)
    ensures
        r@ == mode_keyword(),
{
    let mut r: Vec<char> = Vec::new();
    r.push('M');
    r.push('O');
    r.push('D');
    r.push('E');
    r.push(' ');
    proof {
        assert(r@ =~= mode_keyword());
    }
    r
}

fn dcc_pattern() -> (r: Vec<char>)
    ensures
        r@ == dcc_keyword(),
{
    let mut r: Vec<char> = Vec::new();
    r.push('D');
    r.push('C');
    r.push('C');
    r.push(' ');
    r.push('S');
    r.push('E');
    r.push('N');
    r.push('D');
    r.push(' ');
    proof {
        assert(r@ =~= dcc_keyword());
    }
    r
}

fn matches_at(cs: &Vec<char>, at: usize, pat: &Vec<char>) -> (r: bool)
    requires
        at <= cs@.len(),
    ensures
        r == (at + pat@.len() <= cs@.len()
            && cs@.subrange(at as int, at as int + pat@.len() as int) == pat@),
{
    let nn = cs.len();
    if pat.len() > nn - at {
        return false;
    }
    let mut j: usize = 0;
    while j < pat.len()
        invariant
            at + pat@.len() <= nn,
            nn == cs@.len(),
            j <= pat@.len(),
            forall|q: int| 0 <= q < j ==> cs@[at + q] == pat@[q],
        decreases pat@.len() - j,
    {
        if cs[at + j] != pat[j] {
            proof {
                assert(cs@.subrange(at as int, at as int + pat@.len() as int)[j as int]
                    == cs@[at + j]);
            }
            return false;
        }
        j += 1;
    }
    proof {
        assert(cs@.subrange(at as int, at as int + pat@.len() as int) =~= pat@);
    }
    true
}

/// First index at or after `from` holding `c`, or the length if there is
/// none.
fn find_char(cs: &Vec<char>, from: usize, c: char) -> (r: usize)
    requires
        from <= cs@.len(),
    ensures
        from <= r <= cs@.len(),
        forall|j: int| from <= j < r ==> cs@[j] != c,
        r < cs@.len() ==> cs@[r as int] == c,
{
    let mut i: usize = from;
    while i < cs.len()
        invariant
            from <= i <= cs@.len(),
            forall|j: int| from <= j < i ==> cs@[j] != c,
        decreases cs@.len() - i,
    {
        if cs[i] == c {
            return i;
        }
        i += 1;
    }
    i
}

/// Where the decimal run starting at absolute index `i` ends, within the
/// suffix of the line beginning at `t0`.
fn digit_run_end_at(cs: &Vec<char>, t0: usize, i: usize) -> (r: usize)
    requires
        t0 <= i <= cs@.len(),
    ensures
        i <= r <= cs@.len(),
        r == t0 + digit_run_end(cs@.skip(t0 as int), i - t0),
        forall|q: int| i <= q < r ==> is_digit(cs@[q]),
        r < cs@.len() ==> !is_digit(cs@[r as int]),
{
    let ghost t = cs@.skip(t0 as int);
    let n = cs.len();
    let mut j: usize = i;
    while j < n && (cs[j] as u32) >= 48 && (cs[j] as u32) <= 57
        invariant
            i <= j <= n,
            n == cs@.len(),
            forall|q: int| i <= q < j ==> is_digit(cs@[q]),
        decreases n - j,
    {
        j += 1;
    }
    proof {
        assert forall|q: int| i - t0 <= q < j - t0 implies is_digit(t[q]) by {
            assert(t[q] == cs@[t0 + q]);
        }
        if j < n {
            assert(t[j - t0] == cs@[j as int]);
        }
        lemma_digit_run_end_is(t, i - t0, j - t0);
    }
    j
}

/// Check a field triple at absolute index `p` of the suffix beginning at
/// `t0`; on success return the absolute ends of the three decimal runs.
fn triple_ends(cs: &Vec<char>, t0: usize, p: usize) -> (r: Option<(usize, usize, usize)>)
    requires
        t0 <= p && p <= cs@.len(),
    ensures
        ({
            let t = cs@.skip(t0 as int);
            let pp = p as int - t0 as int;
            &&& (r is Some <==> triple_at(t, pp))
            &&& (r matches Some(e) ==> e.0 == t0 + addr_end(t, pp) && e.1 == t0 + port_end(t, pp)
                && e.2 == t0 + size_end(t, pp) && p + 1 < e.0 && e.0 + 1 < e.1 && e.1 + 1 < e.2
                && e.2 <= cs@.len()
                && digit_run(cs@.subrange(p + 1, e.0 as int))
                && digit_run(cs@.subrange(e.0 + 1, e.1 as int))
                && digit_run(cs@.subrange(e.1 + 1, e.2 as int)))
        }),
{
    let ghost t = cs@.skip(t0 as int);
    let ghost pp = p as int - t0 as int;
    let n = cs.len();
    if p >= n || cs[p] != ' ' {
        proof {
            if p < n {
                assert(t[pp] == cs@[p as int]);
            }
        }
        return None;
    }
    proof {
        assert(t[pp] == cs@[p as int]);
    }
    let ae = digit_run_end_at(cs, t0, p + 1);
    if ae <= p + 1 || ae >= n || cs[ae] != ' ' {
        proof {
            if ae < n {
                assert(t[ae - t0] == cs@[ae as int]);
            }
        }
        return None;
    }
    proof {
        assert(t[ae - t0] == cs@[ae as int]);
    }
    let pe = digit_run_end_at(cs, t0, ae + 1);
    if pe <= ae + 1 || pe >= n || cs[pe] != ' ' {
        proof {
            if pe < n {
                assert(t[pe - t0] == cs@[pe as int]);
            }
        }
        return None;
    }
    proof {
        assert(t[pe - t0] == cs@[pe as int]);
    }
    let se = digit_run_end_at(cs, t0, pe + 1);
    if se <= pe + 1 {
        return None;
    }
    proof {
        assert(triple_at(t, pp));
        assert forall|q: int| 0 <= q < ae - (p + 1) implies is_digit(
            #[trigger] cs@.subrange(p + 1, ae as int)[q],
        ) by {
            assert(cs@.subrange(p + 1, ae as int)[q] == cs@[p + 1 + q]);
        }
        assert forall|q: int| 0 <= q < pe - (ae + 1) implies is_digit(
            #[trigger] cs@.subrange(ae + 1, pe as int)[q],
        ) by {
            assert(cs@.subrange(ae + 1, pe as int)[q] == cs@[ae + 1 + q]);
        }
        assert forall|q: int| 0 <= q < se - (pe + 1) implies is_digit(
            #[trigger] cs@.subrange(pe + 1, se as int)[q],
        ) by {
            assert(cs@.subrange(pe + 1, se as int)[q] == cs@[pe + 1 + q]);
        }
    }
    Some((ae, pe, se))
}

/// The rightmost field triple of the suffix beginning at `t0`, if any: its
/// position and the absolute ends of its three decimal runs.
fn find_last_triple(cs: &Vec<char>, t0: usize) -> (r: Option<(usize, usize, usize, usize)>)
    requires
        t0 <= cs@.len(),
    ensures
        ({
            let t = cs@.skip(t0 as int);
            &&& (r matches Some(e) ==> t0 <= e.0 < cs@.len()
                && last_triple(t, t.len() - 1) == e.0 - t0
                && e.1 == t0 + addr_end(t, e.0 - t0) && e.2 == t0 + port_end(t, e.0 - t0)
                && e.3 == t0 + size_end(t, e.0 - t0)
                && e.0 + 1 < e.1 && e.1 + 1 < e.2 && e.2 + 1 < e.3 && e.3 <= cs@.len()
                && digit_run(cs@.subrange(e.0 + 1, e.1 as int))
                && digit_run(cs@.subrange(e.1 + 1, e.2 as int))
                && digit_run(cs@.subrange(e.2 + 1, e.3 as int)))
            &&& (r is None ==> last_triple(t, t.len() - 1) == -1)
        }),
{
    let ghost t = cs@.skip(t0 as int);
    let n = cs.len();
    let mut p: usize = n;
    while p > t0
        invariant
            t0 <= p <= n,
            n == cs@.len(),
            t == cs@.skip(t0 as int),
            forall|q: int| p - t0 <= q < t.len() ==> !triple_at(t, q),
        decreases p,
    {
        p -= 1;
        match triple_ends(cs, t0, p) {
            Some(e) => {
                proof {
                    lemma_last_triple_is(t, t.len() - 1, p as int - t0 as int);
                }
                return Some((p, e.0, e.1, e.2));
            },
            None => {},
        }
    }
    proof {
        lemma_last_triple_is(t, t.len() - 1, -1);
    }
    None
}

/// Index of the first `DCC SEND ` of the line, or the length if none.
fn find_dcc(cs: &Vec<char>) -> (r: usize)
    ensures
        r == first_dcc(cs@),
        r <= cs@.len(),
        r < cs@.len() ==> match_dcc_at(cs@, r as int),
{
    let dp = dcc_pattern();
    let mut i: usize = 0;
    while i < cs.len()
        invariant
            i <= cs@.len(),
            dp@ == dcc_keyword(),
            forall|q: int| 0 <= q < i ==> !match_dcc_at(cs@, q),
        decreases cs@.len() - i,
    {
        if matches_at(cs, i, &dp) {
            proof {
                lemma_first_dcc_is(cs@, i as int);
            }
            return i;
        }
        i += 1;
    }
    proof {
        lemma_first_dcc_is(cs@, cs@.len() as int);
    }
    cs.len()
}

/// PING shape check at offset `at`; on success returns the owned token.
fn ping_here_at(line: &str, cs: &Vec<char>, at: usize) -> (r: Option<String>)
    requires
        cs@ == line@,
        at <= cs@.len(),
    ensures
        r is Some <==> ping_here(cs@.skip(at as int)),
        (r matches Some(t) ==> t@ == cs@.skip(at as int).skip(5)),
{
    let ghost sl = cs@.skip(at as int);
    let pp = ping_pattern();
    let m = matches_at(cs, at, &pp);
    proof {
        if sl.len() >= 5 {
            assert(sl.take(5) =~= cs@.subrange(at as int, at as int + 5));
        }
    }
    if m && cs.len() > at + 5 && cs[at + 5] != ' ' {
        proof {
            assert(sl[5] == cs@[at + 5]);
            assert(ping_here(sl));
        }
        let t = line.substring_char(at + 5, cs.len());
        proof {
            assert(t@ =~= sl.skip(5));
        }
        Some(t.to_owned())
    } else {
        proof {
            if ping_here(sl) {
                assert(sl[5] == cs@[at + 5]);
            }
        }
        None
    }
}

/// MODE-notice shape check at offset `at`.
fn mode_here_at(cs: &Vec<char>, at: usize) -> (r: bool)
    requires
        at <= cs@.len(),
    ensures
        r == mode_here(cs@.skip(at as int)),
{
    let ghost sl = cs@.skip(at as int);
    let ghost rest = sl.skip(5);
    let mp = mode_pattern();
    let m = matches_at(cs, at, &mp);
    proof {
        if sl.len() >= 5 {
            assert(sl.take(5) =~= cs@.subrange(at as int, at as int + 5));
        }
    }
    if !m {
        return false;
    }
    // the keyword fits, so at + 5 <= cs.len()
    let nn = cs.len();
    let k2 = find_char(cs, at + 5, ' ');
    proof {
        assert(rest =~= cs@.skip(at + 5));
        assert forall|j: int| 0 <= j < k2 - (at + 5) implies rest[j] != ' ' by {
            assert(rest[j] == cs@[at + 5 + j]);
        }
        if k2 < cs@.len() {
            assert(rest[k2 - (at + 5)] == cs@[k2 as int]);
        }
        lemma_first_at_is(rest, ' ', k2 - (at + 5));
    }
    if k2 > at + 5 && k2 < nn - 2 && cs[k2 + 1] == ':' {
        proof {
            assert(rest[k2 - (at + 5) + 1] == cs@[k2 + 1]);
        }
        let e = find_char(cs, k2 + 2, ' ');
        if e == cs.len() {
            proof {
                let kk = k2 - (at + 5);
                assert forall|j: int| kk + 2 <= j < rest.len() implies rest[j] != ' ' by {
                    assert(rest[j] == cs@[at + 5 + j]);
                }
                assert(mode_here(sl));
            }
            true
        } else {
            proof {
                assert(rest[e - (at + 5)] == cs@[e as int]);
            }
            false
        }
    } else {
        proof {
            if mode_here(sl) {
                if k2 + 2 < cs@.len() {
                    assert(rest[k2 - (at + 5) + 1] == cs@[k2 + 1]);
                }
            }
        }
        false
    }
}

/// Interpret the three numeric runs; `None` exactly when one is out of range
/// for its field.
fn parse_offer_numbers(cs: &Vec<char>, p: usize, ae: usize, pe: usize, se: usize) -> (r: Option<(
    u64,
    u64,
    u64,
)>)
    requires
        p + 1 < ae && ae + 1 < pe && pe + 1 < se && se <= cs@.len(),
        digit_run(cs@.subrange(p + 1, ae as int)),
        digit_run(cs@.subrange(ae + 1, pe as int)),
        digit_run(cs@.subrange(pe + 1, se as int)),
    ensures
        ({
            let av = dec_value(cs@.subrange(p + 1, ae as int));
            let pv = dec_value(cs@.subrange(ae + 1, pe as int));
            let sv = dec_value(cs@.subrange(pe + 1, se as int));
            &&& (r matches Some(v) ==> av < 0x1_0000_0000 && pv < 0x1_0000 && sv <= u64::MAX
                && v.0 == av && v.1 == pv && v.2 == sv)
            &&& (r is None ==> !(av < 0x1_0000_0000 && pv < 0x1_0000 && sv <= u64::MAX))
        }),
{
    let a = match parse_decimal(cs, p + 1, ae) {
        Some(v) => v,
        None => {
            return None;
        },
    };
    if a >= 0x1_0000_0000 {
        return None;
    }
    let pv = match parse_decimal(cs, ae + 1, pe) {
        Some(v) => v,
        None => {
            return None;
        },
    };
    if pv >= 0x1_0000 {
        return None;
    }
    let sv = match parse_decimal(cs, pe + 1, se) {
        Some(v) => v,
        None => {
            return None;
        },
    };
    Some((a, pv, sv))
}

/// Classify one trimmed, decoded protocol line.
#[verifier::rlimit(100)]
pub fn classify(line: &str) -> (r: Result<Message, ProtocolError>)
    ensures
        classification_matches(line@, r),
{
    let cs = chars_of(line);
    let ghost l = line@;
    let n = cs.len();
    proof {
        assert(l.skip(0) =~= l);
    }
    if let Some(token) = ping_here_at(line, &cs, 0) {
        return Ok(Message::Ping { token });
    }
    let k = find_char(&cs, 0, ' ');
    proof {
        lemma_first_at_is(l, ' ', k as int);
    }
    let has_pref = k >= 1 && k < n;
    if has_pref {
        if let Some(token) = ping_here_at(line, &cs, k + 1) {
            proof {
                assert(is_ping(l));
            }
            return Ok(Message::Ping { token });
        }
    }
    proof {
        assert(!is_ping(l));
    }
    if mode_here_at(&cs, 0) {
        return Ok(Message::ModeNotice);
    }
    if has_pref && mode_here_at(&cs, k + 1) {
        proof {
            assert(is_mode(l));
        }
        return Ok(Message::ModeNotice);
    }
    proof {
        assert(!is_mode(l));
    }
    let d = find_dcc(&cs);
    if d < n {
        let b = d + 9;
        let ghost rest = dcc_rest(l);
        proof {
            assert(rest =~= cs@.skip(b as int));
        }
        let mut is_quoted = false;
        let mut quoted_end: usize = 0;
        if b < n && cs[b] == '"' {
            let q2 = find_char(&cs, b + 1, '"');
            proof {
                let s1 = rest.skip(1);
                assert(s1 =~= cs@.skip(b + 1));
                assert forall|j: int| 0 <= j < q2 - (b + 1) implies s1[j] != '"' by {
                    assert(s1[j] == cs@[b + 1 + j]);
                }
                if q2 < cs@.len() {
                    assert(s1[q2 - (b + 1)] == cs@[q2 as int]);
                }
                lemma_first_at_is(s1, '"', q2 - (b + 1));
            }
            if q2 < n {
                is_quoted = true;
                quoted_end = q2;
            }
        }
        proof {
            assert(is_quoted == quoted_branch(rest));
        }
        if is_quoted {
            let q2 = quoted_end;
            let ghost q = first_at(rest.skip(1), '"') as int;
            proof {
                assert(q == q2 - (b + 1));
            }
            if q2 > b + 1 {
                let ghost tail = rest.skip(q + 2);
                proof {
                    assert(tail =~= cs@.skip(q2 + 1));
                }
                if let Some(e) = triple_ends(&cs, q2 + 1, q2 + 1) {
                    proof {
                        assert(addr_run(tail, 0) =~= cs@.subrange(q2 + 2, e.0 as int));
                        assert(port_run(tail, 0) =~= cs@.subrange(e.0 + 1, e.1 as int));
                        assert(size_run(tail, 0) =~= cs@.subrange(e.1 + 1, e.2 as int));
                    }
                    match parse_offer_numbers(&cs, q2 + 1, e.0, e.1, e.2) {
                        Some(v) => {
                            let filename = line.substring_char(b + 1, q2).to_owned();
                            proof {
                                assert(filename@ =~= rest.subrange(1, q + 1));
                            }
                            return Ok(Message::DccOffer(TransferDescriptor {
                                filename,
                                address: v.0 as u32,
                                port: v.1 as u16,
                                size: v.2,
                            }));
                        },
                        None => {
                            return Err(ProtocolError::MalformedOffer);
                        },
                    }
                } else {
                    return Ok(Message::Unrecognized);
                }
            } else {
                return Ok(Message::Unrecognized);
            }
        } else {
            if let Some(e) = find_last_triple(&cs, b) {
                if e.0 > b {
                    proof {
                        assert(addr_run(rest, e.0 - b) =~= cs@.subrange(e.0 + 1, e.1 as int));
                        assert(port_run(rest, e.0 - b) =~= cs@.subrange(e.1 + 1, e.2 as int));
                        assert(size_run(rest, e.0 - b) =~= cs@.subrange(e.2 + 1, e.3 as int));
                    }
                    match parse_offer_numbers(&cs, e.0, e.1, e.2, e.3) {
                        Some(v) => {
                            let filename = line.substring_char(b, e.0).to_owned();
                            proof {
                                assert(filename@ =~= rest.take(e.0 - b));
                            }
                            return Ok(Message::DccOffer(TransferDescriptor {
                                filename,
                                address: v.0 as u32,
                                port: v.1 as u16,
                                size: v.2,
                            }));
                        },
                        None => {
                            return Err(ProtocolError::MalformedOffer);
                        },
                    }
                } else {
                    return Ok(Message::Unrecognized);
                }
            } else {
                return Ok(Message::Unrecognized);
            }
        }
    }
    Ok(Message::Unrecognized)
}

} // verus!
