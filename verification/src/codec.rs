//! Byte-level primitives of the record format.
//!
//! Records are written in a canonical JSON shape: strings are quoted with a
//! fixed escape set, numbers are decimal with no leading zeros.  Every
//! encoder here has a matching parser, and a proved round trip: parsing an
//! encoding, followed by any remainder, yields the original value and that
//! remainder.  Parsers consume from the front of a byte sequence and return
//! the unread suffix.

use vstd::prelude::*;

verus! {

pub const QUOTE: u8 = 34;

pub const BACKSLASH: u8 = 92;

pub const NEWLINE: u8 = 10;

pub const MINUS: u8 = 45;

pub const DIGIT_ZERO: u8 = 48;

pub const CARRIAGE: u8 = 13;

pub const TAB: u8 = 9;

pub const ESC_N: u8 = 110;

pub const ESC_R: u8 = 114;

pub const ESC_T: u8 = 116;

// ---------------------------------------------------------------------------
// Strings: quoted, with `"`, `\`, newline, carriage return and tab escaped.
// ---------------------------------------------------------------------------
/// The encoding of one byte inside a quoted string.
pub open spec fn esc(b: u8) -> Seq<u8> {
    if b == QUOTE {
        seq![BACKSLASH, QUOTE]
    } else if b == BACKSLASH {
        seq![BACKSLASH, BACKSLASH]
    } else if b == NEWLINE {
        seq![BACKSLASH, ESC_N]
    } else if b == CARRIAGE {
        seq![BACKSLASH, ESC_R]
    } else if b == TAB {
        seq![BACKSLASH, ESC_T]
    } else {
        seq![b]
    }
}

/// The byte named by an escape code, if the code is one the format uses.
pub open spec fn unesc(b: u8) -> Option<u8> {
    if b == QUOTE {
        Some(QUOTE)
    } else if b == BACKSLASH {
        Some(BACKSLASH)
    } else if b == ESC_N {
        Some(NEWLINE)
    } else if b == ESC_R {
        Some(CARRIAGE)
    } else if b == ESC_T {
        Some(TAB)
    } else {
        None
    }
}

/// The body of a quoted string: each byte escaped, no surrounding quotes.
pub open spec fn esc_seq(s: Seq<u8>) -> Seq<u8>
    decreases s.len(),
{
    if s.len() == 0 {
        Seq::empty()
    } else {
        esc(s[0]) + esc_seq(s.skip(1))
    }
}

/// The encoding of a byte string: quote, escaped body, quote.
pub open spec fn enc_str(s: Seq<u8>) -> Seq<u8> {
    seq![QUOTE] + esc_seq(s) + seq![QUOTE]
}

/// Parses a string body up to and including the closing quote.  Returns the
/// unescaped content and the unread suffix.
pub open spec fn sp_strbody(s: Seq<u8>) -> Option<(Seq<u8>, Seq<u8>)>
    decreases s.len(),
{
    if s.len() == 0 {
        None
    } else if s[0] == QUOTE {
        Some((Seq::empty(), s.skip(1)))
    } else if s[0] == BACKSLASH {
        if s.len() < 2 {
            None
        } else {
            match unesc(s[1]) {
                None => None,
                Some(b) => match sp_strbody(s.skip(2)) {
                    None => None,
                    Some((t, r)) => Some((seq![b] + t, r)),
                },
            }
        }
    } else {
        match sp_strbody(s.skip(1)) {
            None => None,
            Some((t, r)) => Some((seq![s[0]] + t, r)),
        }
    }
}

/// Parses a quoted string, opening quote included.
pub open spec fn sp_string(s: Seq<u8>) -> Option<(Seq<u8>, Seq<u8>)> {
    if s.len() > 0 && s[0] == QUOTE {
        sp_strbody(s.skip(1))
    } else {
        None
    }
}

/// Parses an exact literal, returning the unread suffix.
pub open spec fn sp_lit(s: Seq<u8>, lit: Seq<u8>) -> Option<Seq<u8>> {
    if lit.len() <= s.len() && s.take(lit.len() as int) == lit {
        Some(s.skip(lit.len() as int))
    } else {
        None
    }
}

/// A parsed string body leaves a strictly shorter suffix: at least the
/// closing quote is consumed.
pub proof fn lemma_sp_strbody_shrinks(s: Seq<u8>)
    ensures
        sp_strbody(s) matches Some(p) ==> p.1.len() < s.len(),
    decreases s.len(),
{
    if s.len() == 0 {
    } else if s[0] == QUOTE {
    } else if s[0] == BACKSLASH {
        if s.len() >= 2 {
            lemma_sp_strbody_shrinks(s.skip(2));
        }
    } else {
        lemma_sp_strbody_shrinks(s.skip(1));
    }
}

/// A parsed string leaves a suffix at least two bytes shorter than the
/// input: both quotes are consumed.
pub proof fn lemma_sp_string_shrinks(s: Seq<u8>)
    ensures
        sp_string(s) matches Some(p) ==> p.1.len() < s.len() - 1,
{
    if s.len() > 0 && s[0] == QUOTE {
        lemma_sp_strbody_shrinks(s.skip(1));
    }
}

/// Escaping a string with one more byte appends that byte's escape.
pub proof fn lemma_esc_seq_push(s: Seq<u8>, b: u8)
    ensures
        esc_seq(s.push(b)) == esc_seq(s) + esc(b),
    decreases s.len(),
{
    if s.len() == 0 {
        assert(s.push(b).skip(1) =~= Seq::<u8>::empty());
        assert(s.push(b)[0] == b);
        assert(esc_seq(Seq::<u8>::empty()) == Seq::<u8>::empty());
        assert(esc_seq(s.push(b)) == esc(b) + esc_seq(Seq::<u8>::empty()));
        assert(esc(b) + Seq::<u8>::empty() =~= esc(b));
        assert(esc_seq(s) + esc(b) =~= esc(b));
    } else {
        assert(s.push(b).skip(1) =~= s.skip(1).push(b));
        lemma_esc_seq_push(s.skip(1), b);
        assert(esc_seq(s.push(b)) =~= esc_seq(s) + esc(b));
    }
}

/// Parsing a literal off the front of a sequence that begins with it
/// succeeds and leaves exactly the rest.
pub proof fn lemma_sp_lit_prefix(lit: Seq<u8>, rest: Seq<u8>)
    ensures
        sp_lit(lit + rest, lit) == Some(rest),
{
    assert((lit + rest).take(lit.len() as int) =~= lit);
    assert((lit + rest).skip(lit.len() as int) =~= rest);
}

/// Round trip for string bodies: parsing an escaped body, closing quote and
/// remainder yields the original bytes and the remainder.
pub proof fn lemma_strbody_roundtrip(s: Seq<u8>, rest: Seq<u8>)
    ensures
        sp_strbody(esc_seq(s) + seq![QUOTE] + rest) == Some((s, rest)),
    decreases s.len(),
{
    let full = esc_seq(s) + seq![QUOTE] + rest;
    if s.len() == 0 {
        assert(full[0] == QUOTE);
        assert(full.skip(1) =~= rest);
    } else {
        let b = s[0];
        let tail = s.skip(1);
        lemma_strbody_roundtrip(tail, rest);
        let inner = esc_seq(tail) + seq![QUOTE] + rest;
        if b == QUOTE || b == BACKSLASH || b == NEWLINE || b == CARRIAGE || b == TAB {
            // Two-byte escape.
            assert(esc(b).len() == 2);
            assert(full[0] == BACKSLASH);
            assert(full[1] == esc(b)[1]);
            assert(unesc(esc(b)[1]) == Some(b));
            assert(full.skip(2) =~= inner);
            assert(seq![b] + tail =~= s);
        } else {
            assert(esc(b) =~= seq![b]);
            assert(full[0] == b);
            assert(b != QUOTE && b != BACKSLASH);
            assert(full.skip(1) =~= inner);
            assert(seq![b] + tail =~= s);
        }
    }
}

/// Round trip for quoted strings.
pub proof fn lemma_string_roundtrip(s: Seq<u8>, rest: Seq<u8>)
    ensures
        sp_string(enc_str(s) + rest) == Some((s, rest)),
{
    let full = enc_str(s) + rest;
    assert(full[0] == QUOTE);
    assert(full.skip(1) =~= esc_seq(s) + seq![QUOTE] + rest);
    lemma_strbody_roundtrip(s, rest);
}

/// No escape produces a newline byte, so an encoded string contains none:
/// newline can frame records.
pub proof fn lemma_esc_seq_no_newline(s: Seq<u8>)
    ensures
        !esc_seq(s).contains(NEWLINE),
    decreases s.len(),
{
    if s.len() == 0 {
    } else {
        lemma_esc_seq_no_newline(s.skip(1));
        assert forall|i: int| 0 <= i < esc_seq(s).len() implies esc_seq(s)[i] != NEWLINE by {
            let e = esc(s[0]);
            if i < e.len() {
                assert(esc_seq(s)[i] == e[i]);
            } else {
                assert(esc_seq(s)[i] == esc_seq(s.skip(1))[i - e.len()]);
            }
        }
        if esc_seq(s).contains(NEWLINE) {
            let i = choose|i: int| 0 <= i < esc_seq(s).len() && esc_seq(s)[i] == NEWLINE;
            assert(false);
        }
    }
}

// ---------------------------------------------------------------------------
// Numbers: decimal, no leading zeros, optional leading minus.
// ---------------------------------------------------------------------------
/// Whether a byte is a decimal digit.
pub open spec fn is_digit(b: u8) -> bool {
    DIGIT_ZERO <= b <= DIGIT_ZERO + 9
}

/// The decimal digits of a natural number, most significant first.
pub open spec fn digits(n: nat) -> Seq<u8>
    decreases n,
{
    if n < 10 {
        seq![(DIGIT_ZERO + n) as u8]
    } else {
        digits(n / 10) + seq![(DIGIT_ZERO + n % 10) as u8]
    }
}

/// The encoding of a signed number: digits, with a minus sign if negative.
pub open spec fn enc_i64(v: i64) -> Seq<u8> {
    if v >= 0 {
        digits(v as nat)
    } else {
        seq![MINUS] + digits((-(v as int)) as nat)
    }
}

/// Ten to the `k`.
pub open spec fn pow10(k: nat) -> int
    decreases k,
{
    if k == 0 {
        1
    } else {
        10 * pow10((k - 1) as nat)
    }
}

/// The numeric value of a digit string, most significant first.
pub open spec fn from_digits(s: Seq<u8>) -> int
    decreases s.len(),
{
    if s.len() == 0 {
        0
    } else {
        from_digits(s.drop_last()) * 10 + (s.last() - DIGIT_ZERO)
    }
}

/// Parses a run of digits, accumulating onto `acc`; stops at the first
/// non-digit and fails on overflow of the accumulator.
pub open spec fn sp_digits(s: Seq<u8>, acc: u64) -> Option<(u64, Seq<u8>)>
    decreases s.len(),
{
    if s.len() == 0 || !is_digit(s[0]) {
        Some((acc, s))
    } else {
        let d = (s[0] - DIGIT_ZERO) as int;
        if acc * 10 + d > u64::MAX {
            None
        } else {
            sp_digits(s.skip(1), (acc * 10 + d) as u64)
        }
    }
}

/// Parses an unsigned decimal number: at least one digit.
pub open spec fn sp_u64(s: Seq<u8>) -> Option<(u64, Seq<u8>)> {
    if s.len() > 0 && is_digit(s[0]) {
        sp_digits(s, 0)
    } else {
        None
    }
}

/// Parses a signed decimal number that fits an `i64`.
pub open spec fn sp_i64(s: Seq<u8>) -> Option<(i64, Seq<u8>)> {
    if s.len() > 0 && s[0] == MINUS {
        match sp_u64(s.skip(1)) {
            None => None,
            Some((m, r)) => if m <= 0x8000_0000_0000_0000u64 {
                Some(((-(m as int)) as i64, r))
            } else {
                None
            },
        }
    } else {
        match sp_u64(s) {
            None => None,
            Some((m, r)) => if m <= i64::MAX as u64 {
                Some((m as i64, r))
            } else {
                None
            },
        }
    }
}

pub proof fn lemma_pow10_pos(k: nat)
    ensures
        pow10(k) >= 1,
    decreases k,
{
    if k > 0 {
        lemma_pow10_pos((k - 1) as nat);
    }
}

/// Every byte of `digits(n)` is a digit, there is at least one, and the
/// string evaluates back to `n`.
pub proof fn lemma_digits_props(n: nat)
    ensures
        digits(n).len() >= 1,
        forall|i: int| 0 <= i < digits(n).len() ==> is_digit(#[trigger] digits(n)[i]),
        from_digits(digits(n)) == n,
    decreases n,
{
    if n < 10 {
        assert(digits(n) =~= seq![(DIGIT_ZERO + n) as u8]);
        assert(digits(n).drop_last() =~= Seq::<u8>::empty());
        assert(from_digits(Seq::<u8>::empty()) == 0);
        assert(digits(n).last() == (DIGIT_ZERO + n) as u8);
    } else {
        lemma_digits_props(n / 10);
        let a = digits(n / 10);
        let full = digits(n);
        assert(full =~= a + seq![(DIGIT_ZERO + n % 10) as u8]);
        assert(full.drop_last() =~= a);
        assert(full.last() == (DIGIT_ZERO + n % 10) as u8);
        assert(from_digits(full) == from_digits(a) * 10 + n % 10);
        vstd::arithmetic::div_mod::lemma_fundamental_div_mod(n as int, 10);
        assert forall|i: int| 0 <= i < full.len() implies is_digit(full[i]) by {
            if i < a.len() {
                assert(full[i] == a[i]);
            }
        }
    }
}

/// The numeric value of a digit string with one more digit in front.
pub proof fn lemma_from_digits_cons(d: u8, t: Seq<u8>)
    ensures
        from_digits(seq![d] + t) == (d - DIGIT_ZERO) * pow10(t.len()) + from_digits(t),
    decreases t.len(),
{
    if t.len() == 0 {
        assert(seq![d] + t =~= seq![d]);
        assert((seq![d]).drop_last() =~= Seq::<u8>::empty());
        assert(from_digits(Seq::<u8>::empty()) == 0);
        assert(from_digits(seq![d]) == (d - DIGIT_ZERO) as int);
    } else {
        lemma_from_digits_cons(d, t.drop_last());
        let full = seq![d] + t;
        assert(full.drop_last() =~= seq![d] + t.drop_last());
        assert(full.last() == t.last());
        let k = (t.len() - 1) as nat;
        assert(from_digits(full) == ((d - DIGIT_ZERO) * pow10(k) + from_digits(t.drop_last())) * 10
            + (t.last() - DIGIT_ZERO));
        assert(pow10(t.len()) == 10 * pow10(k));
        assert(((d - DIGIT_ZERO) * pow10(k)) * 10 == (d - DIGIT_ZERO) * (10 * pow10(k)))
            by (nonlinear_arith);
        assert(from_digits(t) == from_digits(t.drop_last()) * 10 + (t.last() - DIGIT_ZERO));
    }
}

/// A digit string is non-negative in value.
pub proof fn lemma_from_digits_nonneg(s: Seq<u8>)
    requires
        forall|i: int| 0 <= i < s.len() ==> is_digit(#[trigger] s[i]),
    ensures
        from_digits(s) >= 0,
    decreases s.len(),
{
    if s.len() > 0 {
        assert(forall|i: int|
            0 <= i < s.drop_last().len() ==> is_digit(#[trigger] s.drop_last()[i]));
        lemma_from_digits_nonneg(s.drop_last());
    }
}

/// Parsing a run of `k` digits accumulates their value onto `acc`.
pub proof fn lemma_sp_digits_run(s: Seq<u8>, k: nat, acc: u64)
    requires
        k <= s.len(),
        forall|j: int| 0 <= j < k ==> is_digit(#[trigger] s[j]),
        k == s.len() || !is_digit(s[k as int]),
        acc * pow10(k) + from_digits(s.take(k as int)) <= u64::MAX,
    ensures
        sp_digits(s, acc) == Some(
            ((acc * pow10(k) + from_digits(s.take(k as int))) as u64, s.skip(k as int)),
        ),
    decreases k,
{
    broadcast use vstd::seq_lib::group_seq_properties;

    if k == 0 {
        assert(s.take(0) =~= Seq::<u8>::empty());
        assert(s.skip(0) =~= s);
        assert(from_digits(s.take(0)) == 0);
        assert(acc * pow10(0) + 0 == acc);
    } else {
        let d = (s[0] - DIGIT_ZERO) as int;
        let t = s.skip(1);
        let km1 = (k - 1) as nat;
        assert(forall|j: int| 0 <= j < km1 ==> is_digit(#[trigger] t[j]));
        assert(km1 == t.len() || !is_digit(t[km1 as int]));
        // Relate the value of the whole run to the value after the first digit.
        let run = s.take(k as int);
        let trun = t.take(km1 as int);
        assert(run =~= seq![s[0]] + trun);
        lemma_from_digits_cons(s[0], trun);
        assert(from_digits(run) == d * pow10(km1) + from_digits(trun));
        assert(forall|i: int| 0 <= i < trun.len() ==> is_digit(#[trigger] trun[i]));
        lemma_from_digits_nonneg(trun);
        lemma_pow10_pos(km1);
        // No overflow at this step.
        assert(acc * pow10(k) == (acc * 10) * pow10(km1)) by (nonlinear_arith)
            requires
                pow10(k) == 10 * pow10(km1),
        ;
        assert((acc * 10 + d) * pow10(km1) == (acc * 10) * pow10(km1) + d * pow10(km1))
            by (nonlinear_arith);
        assert(acc * 10 + d <= (acc * 10 + d) * pow10(km1)) by (nonlinear_arith)
            requires
                pow10(km1) >= 1,
                acc * 10 + d >= 0,
        ;
        assert(acc * 10 + d <= u64::MAX);
        let acc2 = (acc * 10 + d) as u64;
        lemma_sp_digits_run(t, km1, acc2);
        assert(t.skip(km1 as int) =~= s.skip(k as int));
        assert(acc2 * pow10(km1) + from_digits(trun) == acc * pow10(k) + from_digits(run));
    }
}

/// Round trip for unsigned numbers: parsing the digits of `n` followed by a
/// remainder that does not begin with a digit yields `n` and the remainder.
pub proof fn lemma_u64_roundtrip(n: u64, rest: Seq<u8>)
    requires
        rest.len() == 0 || !is_digit(rest[0]),
    ensures
        sp_u64(digits(n as nat) + rest) == Some((n, rest)),
{
    let ds = digits(n as nat);
    let full = ds + rest;
    lemma_digits_props(n as nat);
    assert(full[0] == ds[0]);
    assert(is_digit(full[0]));
    assert(forall|j: int| 0 <= j < ds.len() ==> is_digit(#[trigger] full[j]));
    assert(ds.len() == full.len() || !is_digit(full[ds.len() as int]));
    assert(full.take(ds.len() as int) =~= ds);
    lemma_pow10_pos(ds.len());
    lemma_sp_digits_run(full, ds.len(), 0);
    assert(0 * pow10(ds.len()) == 0) by (nonlinear_arith);
    assert(full.skip(ds.len() as int) =~= rest);
}

/// Round trip for signed numbers.
pub proof fn lemma_i64_roundtrip(v: i64, rest: Seq<u8>)
    requires
        rest.len() == 0 || !is_digit(rest[0]),
    ensures
        sp_i64(enc_i64(v) + rest) == Some((v, rest)),
{
    if v >= 0 {
        let full = enc_i64(v) + rest;
        lemma_digits_props(v as nat);
        assert(full[0] == digits(v as nat)[0]);
        assert(full[0] != MINUS);
        lemma_u64_roundtrip(v as u64, rest);
        assert(digits(v as u64 as nat) == digits(v as nat));
        assert(enc_i64(v) + rest == digits(v as nat) + rest);
    } else {
        let m = (-(v as int)) as nat;
        let full = enc_i64(v) + rest;
        assert(full[0] == MINUS);
        assert(full.skip(1) =~= digits(m) + rest);
        let mu = m as u64;
        assert(mu as nat == m);
        lemma_u64_roundtrip(mu, rest);
        assert(mu <= 0x8000_0000_0000_0000u64);
        assert((-(mu as int)) as i64 == v);
    }
}

/// An encoded string contains no newline byte.
pub proof fn lemma_enc_str_no_newline(s: Seq<u8>)
    ensures
        !enc_str(s).contains(NEWLINE),
{
    lemma_esc_seq_no_newline(s);
    if enc_str(s).contains(NEWLINE) {
        let i = choose|i: int| 0 <= i < enc_str(s).len() && enc_str(s)[i] == NEWLINE;
        if 1 <= i < 1 + esc_seq(s).len() {
            assert(esc_seq(s)[i - 1] == NEWLINE);
        }
    }
}

} // verus!

verus! {

// ---------------------------------------------------------------------------
// Executable parsers.  Each walks the bytes with an index and returns what
// the corresponding specification parser returns on the suffix it was
// handed.
// ---------------------------------------------------------------------------
/// The byte named by an escape code.
pub fn unescape(b: u8) -> (r: Option<u8>)
    ensures
        r == unesc(b),
{
    if b == QUOTE {
        Some(QUOTE)
    } else if b == BACKSLASH {
        Some(BACKSLASH)
    } else if b == ESC_N {
        Some(NEWLINE)
    } else if b == ESC_R {
        Some(CARRIAGE)
    } else if b == ESC_T {
        Some(TAB)
    } else {
        None
    }
}

/// Consumes an exact literal at position `i`, if it is there.
pub fn eat(s: &Vec<u8>, i: usize, lit: &Vec<u8>) -> (r: Option<usize>)
    requires
        i <= s@.len(),
    ensures
        match r {
            Some(j) => i <= j <= s@.len() && sp_lit(s@.skip(i as int), lit@) == Some(
                s@.skip(j as int),
            ),
            None => sp_lit(s@.skip(i as int), lit@) is None,
        },
{
    if s.len() - i < lit.len() {
        return None;
    }
    let n = s.len();
    let mut j: usize = 0;
    while j < lit.len()
        invariant
            j <= lit.len(),
            n == s@.len(),
            i + lit.len() <= n,
            forall|k: int| 0 <= k < j ==> s@[i + k] == lit@[k],
        decreases lit.len() - j,
    {
        if s[i + j] != lit[j] {
            proof {
                let suf = s@.skip(i as int);
                if lit@.len() <= suf.len() && suf.take(lit@.len() as int) == lit@ {
                    assert(suf.take(lit@.len() as int)[j as int] == s@[i + j]);
                }
            }
            return None;
        }
        j += 1;
    }
    proof {
        let suf = s@.skip(i as int);
        assert(suf.take(lit@.len() as int) =~= lit@);
        assert(suf.skip(lit@.len() as int) =~= s@.skip(i + lit@.len()));
    }
    Some(i + lit.len())
}

/// Parses a quoted string at position `i`, returning its unescaped content
/// and the position after the closing quote.
pub fn parse_string(s: &Vec<u8>, i: usize) -> (r: Option<(Vec<u8>, usize)>)
    requires
        i <= s@.len(),
    ensures
        match r {
            Some(p) => i <= p.1 <= s@.len() && sp_string(s@.skip(i as int)) == Some(
                (p.0@, s@.skip(p.1 as int)),
            ),
            None => sp_string(s@.skip(i as int)) is None,
        },
{
    if i == s.len() || s[i] != QUOTE {
        return None;
    }
    let mut cur: usize = i + 1;
    let mut acc: Vec<u8> = Vec::new();
    proof {
        assert(s@.skip(i as int)[0] == QUOTE);
        assert(s@.skip(i as int).skip(1) =~= s@.skip(i + 1));
    }
    loop
        invariant
            i + 1 <= cur <= s@.len(),
            sp_string(s@.skip(i as int)) == sp_strbody(s@.skip(i + 1)),
            match sp_strbody(s@.skip(cur as int)) {
                None => sp_strbody(s@.skip(i + 1)) is None,
                Some(p) => sp_strbody(s@.skip(i + 1)) == Some((acc@ + p.0, p.1)),
            },
        decreases s@.len() - cur,
    {
        if cur == s.len() {
            return None;
        }
        let b = s[cur];
        proof {
            assert(s@.skip(cur as int)[0] == b);
            assert(s@.skip(cur as int).skip(1) =~= s@.skip(cur + 1));
        }
        if b == QUOTE {
            proof {
                assert(sp_strbody(s@.skip(cur as int)) == Some(
                    (Seq::<u8>::empty(), s@.skip(cur + 1)),
                ));
                assert(acc@ + Seq::<u8>::empty() =~= acc@);
            }
            return Some((acc, cur + 1));
        } else if b == BACKSLASH {
            if s.len() - cur < 2 {
                return None;
            }
            let code = s[cur + 1];
            proof {
                assert(s@.skip(cur as int)[1] == code);
                assert(s@.skip(cur as int).skip(2) =~= s@.skip(cur + 2));
            }
            match unescape(code) {
                None => {
                    return None;
                },
                Some(u) => {
                    let ghost old_acc = acc@;
                    acc.push(u);
                    proof {
                        let x = sp_strbody(s@.skip(cur + 2));
                        if x is Some {
                            let p = x->Some_0;
                            assert(old_acc + (seq![u] + p.0) =~= acc@ + p.0);
                        }
                    }
                    cur += 2;
                },
            }
        } else {
            let ghost old_acc = acc@;
            acc.push(b);
            proof {
                let x = sp_strbody(s@.skip(cur + 1));
                if x is Some {
                    let p = x->Some_0;
                    assert(old_acc + (seq![b] + p.0) =~= acc@ + p.0);
                }
            }
            cur += 1;
        }
    }
}

/// Parses an unsigned decimal number at position `i`.
pub fn parse_u64(s: &Vec<u8>, i: usize) -> (r: Option<(u64, usize)>)
    requires
        i <= s@.len(),
    ensures
        match r {
            Some(p) => i <= p.1 <= s@.len() && sp_u64(s@.skip(i as int)) == Some(
                (p.0, s@.skip(p.1 as int)),
            ),
            None => sp_u64(s@.skip(i as int)) is None,
        },
{
    if i == s.len() || s[i] < DIGIT_ZERO || s[i] > DIGIT_ZERO + 9 {
        proof {
            if i < s@.len() {
                assert(s@.skip(i as int)[0] == s@[i as int]);
            }
        }
        return None;
    }
    proof {
        assert(s@.skip(i as int)[0] == s@[i as int]);
    }
    let mut cur: usize = i;
    let mut acc: u64 = 0;
    loop
        invariant
            i <= cur <= s@.len(),
            sp_u64(s@.skip(i as int)) == sp_digits(s@.skip(i as int), 0),
            sp_digits(s@.skip(i as int), 0) == sp_digits(s@.skip(cur as int), acc),
        decreases s@.len() - cur,
    {
        if cur == s.len() || s[cur] < DIGIT_ZERO || s[cur] > DIGIT_ZERO + 9 {
            proof {
                if cur < s@.len() {
                    assert(s@.skip(cur as int)[0] == s@[cur as int]);
                }
            }
            return Some((acc, cur));
        }
        let d = s[cur] - DIGIT_ZERO;
        proof {
            assert(s@.skip(cur as int)[0] == s@[cur as int]);
            assert(s@.skip(cur as int).skip(1) =~= s@.skip(cur + 1));
        }
        let wide: u128 = acc as u128 * 10 + d as u128;
        if wide > u64::MAX as u128 {
            return None;
        }
        acc = wide as u64;
        cur += 1;
    }
}

/// Parses a signed decimal number at position `i`.
pub fn parse_i64(s: &Vec<u8>, i: usize) -> (r: Option<(i64, usize)>)
    requires
        i <= s@.len(),
    ensures
        match r {
            Some(p) => i <= p.1 <= s@.len() && sp_i64(s@.skip(i as int)) == Some(
                (p.0, s@.skip(p.1 as int)),
            ),
            None => sp_i64(s@.skip(i as int)) is None,
        },
{
    if i < s.len() && s[i] == MINUS {
        proof {
            assert(s@.skip(i as int)[0] == MINUS);
            assert(s@.skip(i as int).skip(1) =~= s@.skip(i + 1));
        }
        match parse_u64(s, i + 1) {
            None => None,
            Some((m, j)) => {
                if m <= 0x8000_0000_0000_0000u64 {
                    let v: i64 = if m <= i64::MAX as u64 {
                        -(m as i64)
                    } else {
                        i64::MIN
                    };
                    proof {
                        assert(v == (-(m as int)) as i64);
                    }
                    Some((v, j))
                } else {
                    None
                }
            },
        }
    } else {
        proof {
            if i < s@.len() {
                assert(s@.skip(i as int)[0] == s@[i as int]);
            }
        }
        match parse_u64(s, i) {
            None => None,
            Some((m, j)) => {
                if m <= i64::MAX as u64 {
                    Some((m as i64, j))
                } else {
                    None
                }
            },
        }
    }
}

} // verus!

verus! {

// ---------------------------------------------------------------------------
// Executable encoders.  Each appends to an output buffer exactly what the
// specification encoder describes.
// ---------------------------------------------------------------------------
/// Appends one byte string to another.
pub fn push_bytes(out: &mut Vec<u8>, s: &Vec<u8>)
    ensures
        final(out)@ == old(out)@ + s@,
{
    let mut i: usize = 0;
    while i < s.len()
        invariant
            i <= s@.len(),
            out@ == old(out)@ + s@.take(i as int),
        decreases s@.len() - i,
    {
        out.push(s[i]);
        proof {
            assert(old(out)@ + s@.take(i + 1) =~= (old(out)@ + s@.take(i as int)).push(
                s@[i as int],
            ));
        }
        i += 1;
    }
    proof {
        assert(s@.take(s@.len() as int) =~= s@);
    }
}

/// Appends the escaped body of a byte string.
pub fn push_escaped(out: &mut Vec<u8>, s: &Vec<u8>)
    ensures
        final(out)@ == old(out)@ + esc_seq(s@),
{
    let mut i: usize = 0;
    proof {
        assert(esc_seq(s@.take(0)) =~= Seq::<u8>::empty());
        assert(out@ + esc_seq(s@.take(0)) =~= out@);
    }
    while i < s.len()
        invariant
            i <= s@.len(),
            out@ == old(out)@ + esc_seq(s@.take(i as int)),
        decreases s@.len() - i,
    {
        let b = s[i];
        let ghost pre = out@;
        if b == QUOTE {
            out.push(BACKSLASH);
            out.push(QUOTE);
        } else if b == BACKSLASH {
            out.push(BACKSLASH);
            out.push(BACKSLASH);
        } else if b == NEWLINE {
            out.push(BACKSLASH);
            out.push(ESC_N);
        } else if b == CARRIAGE {
            out.push(BACKSLASH);
            out.push(ESC_R);
        } else if b == TAB {
            out.push(BACKSLASH);
            out.push(ESC_T);
        } else {
            out.push(b);
        }
        proof {
            assert(out@ =~= pre + esc(b));
            assert(s@.take(i + 1) =~= s@.take(i as int).push(b));
            lemma_esc_seq_push(s@.take(i as int), b);
            assert(out@ =~= old(out)@ + esc_seq(s@.take(i + 1)));
        }
        i += 1;
    }
    proof {
        assert(s@.take(s@.len() as int) =~= s@);
    }
}

/// Appends the full encoding of a byte string, quotes included.
pub fn push_string(out: &mut Vec<u8>, s: &Vec<u8>)
    ensures
        final(out)@ == old(out)@ + enc_str(s@),
{
    out.push(QUOTE);
    push_escaped(out, s);
    out.push(QUOTE);
    proof {
        assert(final(out)@ =~= old(out)@ + enc_str(s@));
    }
}

/// Reversing after one more push puts the new element in front.
proof fn lemma_reverse_push(s: Seq<u8>, b: u8)
    ensures
        s.push(b).reverse() == seq![b] + s.reverse(),
{
    assert(s.push(b).reverse() =~= seq![b] + s.reverse());
}

/// Appends the decimal digits of an unsigned number.
pub fn push_u64(out: &mut Vec<u8>, n: u64)
    ensures
        final(out)@ == old(out)@ + digits(n as nat),
{
    let mut m: u64 = n;
    let mut tmp: Vec<u8> = Vec::new();
    proof {
        assert(tmp@.reverse() =~= Seq::<u8>::empty());
        assert(digits(m as nat) + tmp@.reverse() =~= digits(n as nat));
    }
    while m >= 10
        invariant
            digits(n as nat) == digits(m as nat) + tmp@.reverse(),
        decreases m,
    {
        let d = (m % 10) as u8;
        let ghost pre = tmp@;
        tmp.push(DIGIT_ZERO + d);
        m = m / 10;
        proof {
            lemma_reverse_push(pre, (DIGIT_ZERO + d) as u8);
            assert(digits(m as nat) + tmp@.reverse() =~= (digits(m as nat) + seq![
                (DIGIT_ZERO + d) as u8,
            ]) + pre.reverse());
        }
    }
    out.push(DIGIT_ZERO + (m as u8));
    proof {
        assert(digits(m as nat) =~= seq![(DIGIT_ZERO + m) as u8]);
        assert(out@ =~= old(out)@ + digits(m as nat));
    }
    let ghost base = out@;
    let tl = tmp.len();
    let mut k: usize = 0;
    while k < tl
        invariant
            k <= tl,
            tl == tmp@.len(),
            out@ == base + tmp@.reverse().take(k as int),
        decreases tl - k,
    {
        let b = tmp[tl - 1 - k];
        out.push(b);
        proof {
            assert(tmp@.reverse()[k as int] == b);
            assert(tmp@.reverse().take(k + 1) =~= tmp@.reverse().take(k as int).push(b));
            assert(out@ =~= base + tmp@.reverse().take(k + 1));
        }
        k += 1;
    }
    proof {
        assert(tmp@.reverse().take(tmp@.len() as int) =~= tmp@.reverse());
        assert(base + tmp@.reverse() =~= old(out)@ + (digits(m as nat) + tmp@.reverse()));
    }
}

/// Appends the decimal encoding of a signed number.
pub fn push_i64(out: &mut Vec<u8>, v: i64)
    ensures
        final(out)@ == old(out)@ + enc_i64(v),
{
    if v >= 0 {
        push_u64(out, v as u64);
    } else {
        out.push(MINUS);
        let mag: u64 = if v == i64::MIN {
            0x8000_0000_0000_0000u64
        } else {
            (-v) as u64
        };
        proof {
            assert(mag as nat == (-(v as int)) as nat);
        }
        push_u64(out, mag);
        proof {
            assert(final(out)@ =~= old(out)@ + enc_i64(v));
        }
    }
}

} // verus!
