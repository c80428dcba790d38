//! Text handling shared by the framer and the classifier: ASCII whitespace
//! trimming of raw line bytes, UTF-8 decoding, and decimal digit runs.

use vstd::prelude::*;
use vstd::utf8::{decode_utf8, valid_utf8};

verus! {

/// The ASCII whitespace bytes: space, horizontal tab, line feed, form feed,
/// carriage return.
pub open spec fn is_ascii_space(b: u8) -> bool {
    b == 32u8 || b == 9u8 || b == 10u8 || b == 12u8 || b == 13u8
}

/// `s` without its maximal ASCII-whitespace prefix.
pub open spec fn trim_front(s: Seq<u8>) -> Seq<u8>
    decreases s.len(),
{
    if s.len() > 0 && is_ascii_space(s[0]) {
        trim_front(s.drop_first())
    } else {
        s
    }
}

/// `s` without its maximal ASCII-whitespace suffix.
pub open spec fn trim_back(s: Seq<u8>) -> Seq<u8>
    decreases s.len(),
{
    if s.len() > 0 && is_ascii_space(s.last()) {
        trim_back(s.drop_last())
    } else {
        s
    }
}

/// `s` trimmed of leading and trailing ASCII whitespace.
pub open spec fn trim_ascii(s: Seq<u8>) -> Seq<u8> {
    trim_back(trim_front(s))
}

proof fn lemma_trim_front_is(s: Seq<u8>, lo: int)
    requires
        0 <= lo <= s.len(),
        forall|j: int| 0 <= j < lo ==> is_ascii_space(s[j]),
        lo < s.len() ==> !is_ascii_space(s[lo]),
    ensures
        trim_front(s) == s.skip(lo),
    decreases s.len(),
{
    if s.len() > 0 && is_ascii_space(s[0]) {
        assert(lo >= 1);
        assert forall|j: int| 0 <= j < lo - 1 implies is_ascii_space(s.drop_first()[j]) by {
            assert(s.drop_first()[j] == s[j + 1]);
        }
        lemma_trim_front_is(s.drop_first(), lo - 1);
        assert(s.drop_first().skip(lo - 1) =~= s.skip(lo));
    } else {
        assert(lo == 0);
        assert(s.skip(0) =~= s);
    }
}

proof fn lemma_trim_back_is(s: Seq<u8>, hi: int)
    requires
        0 <= hi <= s.len(),
        forall|j: int| hi <= j < s.len() ==> is_ascii_space(s[j]),
        hi > 0 ==> !is_ascii_space(s[hi - 1]),
    ensures
        trim_back(s) == s.take(hi),
    decreases s.len(),
{
    if s.len() > 0 && is_ascii_space(s.last()) {
        assert(hi < s.len());
        lemma_trim_back_is(s.drop_last(), hi);
        assert(s.drop_last().take(hi) =~= s.take(hi));
    } else {
        assert(hi == s.len());
        assert(s.take(hi) =~= s);
    }
}

/// Trim leading and trailing ASCII whitespace from a raw line.
pub fn trim_line(line: &Vec<u8>) -> (r: Vec<u8>)
    ensures
        r@ == trim_ascii(line@),
{
    let mut lo: usize = 0;
    while lo < line.len() && (line[lo] == 32 || line[lo] == 9 || line[lo] == 10 || line[lo] == 12
        || line[lo] == 13)
        invariant
            lo <= line.len(),
            forall|j: int| 0 <= j < lo ==> is_ascii_space(line@[j]),
        decreases line.len() - lo,
    {
        lo += 1;
    }
    proof {
        lemma_trim_front_is(line@, lo as int);
    }
    let mut hi: usize = line.len();
    while hi > lo && (line[hi - 1] == 32 || line[hi - 1] == 9 || line[hi - 1] == 10
        || line[hi - 1] == 12 || line[hi - 1] == 13)
        invariant
            lo <= hi <= line.len(),
            forall|j: int| hi <= j < line.len() ==> is_ascii_space(line@[j]),
        decreases hi,
    {
        hi -= 1;
    }
    proof {
        let t = line@.skip(lo as int);
        assert forall|j: int| hi - lo <= j < t.len() implies is_ascii_space(t[j]) by {
            assert(t[j] == line@[lo + j]);
        }
        if hi > lo {
            assert(t[hi - lo - 1] == line@[hi - 1]);
        }
        lemma_trim_back_is(t, hi - lo);
    }
    let mut r: Vec<u8> = Vec::new();
    let mut q: usize = lo;
    while q < hi
        invariant
            lo <= q <= hi <= line.len(),
            r@ == line@.subrange(lo as int, q as int),
        decreases hi - q,
    {
        r.push(line[q]);
        q += 1;
        proof {
            assert(line@.subrange(lo as int, q as int)
                =~= line@.subrange(lo as int, q - 1).push(line@[q - 1]));
        }
    }
    proof {
        assert(r@ =~= line@.skip(lo as int).take(hi - lo));
    }
    r
}

/// Relies on std's `String::from_utf8`: it returns the decoded string exactly
/// when the bytes are valid UTF-8, as stated by vstd's model of UTF-8.
#[verifier::external_body]
pub fn decode_line(bytes: &Vec<u8>) -> (r: Option<String>)
    ensures
        r is Some <==> valid_utf8(bytes@),
        r matches Some(s) ==> s@ == decode_utf8(bytes@),
{
    match String::from_utf8(bytes.clone()) {
        Ok(s) => Some(s),
        Err(_) => None,
    }
}

/// The characters of a text line, for random access.
pub fn chars_of(s: &str) -> (r: Vec<char>)
    ensures
        r@ == s@,
{
    let n = s.unicode_len();
    let mut r: Vec<char> = Vec::new();
    let mut i: usize = 0;
    while i < n
        invariant
            i <= n,
            n == s@.len(),
            r@ == s@.take(i as int),
        decreases n - i,
    {
        r.push(s.get_char(i));
        i += 1;
        proof {
            assert(s@.take(i as int) =~= s@.take(i - 1).push(s@[i - 1]));
        }
    }
    proof {
        assert(s@.take(n as int) =~= s@);
    }
    r
}

/// Whether `c` is a decimal digit.
pub open spec fn is_digit(c: char) -> bool {
    48 <= c as u32 <= 57
}

/// The value of a decimal digit.
pub open spec fn digit_val(c: char) -> nat {
    (c as u32 - 48) as nat
}

/// A nonempty run of decimal digits.
pub open spec fn digit_run(s: Seq<char>) -> bool {
    s.len() > 0 && forall|j: int| 0 <= j < s.len() ==> is_digit(s[j])
}

/// The number denoted by a run of decimal digits, most significant first.
pub open spec fn dec_value(s: Seq<char>) -> nat
    decreases s.len(),
{
    if s.len() == 0 {
        0
    } else {
        dec_value(s.drop_last()) * 10 + digit_val(s.last())
    }
}

proof fn lemma_dec_value_prefix(s: Seq<char>, m: int)
    requires
        0 <= m <= s.len(),
    ensures
        dec_value(s) >= dec_value(s.take(m)),
    decreases s.len(),
{
    if m == s.len() {
        assert(s.take(m) =~= s);
    } else {
        lemma_dec_value_prefix(s.drop_last(), m);
        assert(s.drop_last().take(m) =~= s.take(m));
    }
}

/// Parse a run of decimal digits, most significant first; `None` exactly when
/// the denoted number does not fit in a `u64`.
pub fn parse_decimal(cs: &Vec<char>, from: usize, to: usize) -> (r: Option<u64>)
    requires
        from <= to <= cs@.len(),
        digit_run(cs@.subrange(from as int, to as int)),
    ensures
        r is Some <==> dec_value(cs@.subrange(from as int, to as int)) <= u64::MAX,
        r matches Some(v) ==> v == dec_value(cs@.subrange(from as int, to as int)),
{
    let ghost run = cs@.subrange(from as int, to as int);
    let mut acc: u64 = 0;
    let mut i: usize = from;
    while i < to
        invariant
            from <= i <= to <= cs@.len(),
            digit_run(run),
            run == cs@.subrange(from as int, to as int),
            acc == dec_value(run.take(i - from)),
        decreases to - i,
    {
        let c = cs[i];
        proof {
            assert(run[i - from] == cs@[i as int]);
        }
        let d = (c as u32 - 48) as u64;
        proof {
            let m = i - from;
            assert(run.take(m + 1).drop_last() =~= run.take(m));
            assert(run.take(m + 1).last() == run[m]);
            assert(dec_value(run.take(m + 1)) == dec_value(run.take(m)) * 10 + digit_val(run[m]));
            assert(d == digit_val(run[m]));
            lemma_dec_value_prefix(run, m + 1);
        }
        // acc * 10 overflows a u64 exactly above floor(u64::MAX / 10)
        if acc > 1844674407370955161u64 {
            return None;
        }
        let t = acc * 10;
        if d > u64::MAX - t {
            return None;
        }
        acc = t + d;
        i += 1;
    }
    proof {
        assert(run.take(to - from) =~= run);
    }
    Some(acc)
}

/// The character of a decimal digit.
pub open spec fn digit_char(d: nat) -> char {
    if d == 0 { '0' } else if d == 1 { '1' } else if d == 2 { '2' } else if d == 3 { '3' }
    else if d == 4 { '4' } else if d == 5 { '5' } else if d == 6 { '6' } else if d == 7 { '7' }
    else if d == 8 { '8' } else { '9' }
}

/// The decimal notation of `n`, most significant digit first, no leading
/// zeroes (a lone zero for 0).
pub open spec fn dec_chars(n: nat) -> Seq<char>
    decreases n,
{
    if n < 10 {
        seq![digit_char(n)]
    } else {
        dec_chars(n / 10).push(digit_char(n % 10))
    }
}

fn push_digit(s: &mut String, d: u64)
    requires
        d < 10,
    ensures
        final(s)@ == old(s)@ + seq![digit_char(d as nat)],
{
    proof {
        reveal_strlit("0");
        reveal_strlit("1");
        reveal_strlit("2");
        reveal_strlit("3");
        reveal_strlit("4");
        reveal_strlit("5");
        reveal_strlit("6");
        reveal_strlit("7");
        reveal_strlit("8");
        reveal_strlit("9");
    }
    if d == 0 {
        s.append("0");
    } else if d == 1 {
        s.append("1");
    } else if d == 2 {
        s.append("2");
    } else if d == 3 {
        s.append("3");
    } else if d == 4 {
        s.append("4");
    } else if d == 5 {
        s.append("5");
    } else if d == 6 {
        s.append("6");
    } else if d == 7 {
        s.append("7");
    } else if d == 8 {
        s.append("8");
    } else {
        s.append("9");
    }
    proof {
        assert(final(s)@ =~= old(s)@ + seq![digit_char(d as nat)]);
    }
}

/// Append the decimal notation of `n` to `s`.
pub fn push_decimal(s: &mut String, n: u64)
    ensures
        final(s)@ == old(s)@ + dec_chars(n as nat),
    decreases n,
{
    if n < 10 {
        push_digit(s, n);
    } else {
        push_decimal(s, n / 10);
        push_digit(s, n % 10);
        proof {
            assert(old(s)@ + dec_chars((n / 10) as nat) + seq![digit_char((n % 10) as nat)]
                =~= old(s)@ + dec_chars(n as nat));
        }
    }
}

} // verus!
