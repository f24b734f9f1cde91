//! The wire codec: each envelope travels in one text frame as a small JSON
//! object with exactly one field, named by the message kind:
//!
//! - `{"Cmd":"<payload>"}` — payload is a JSON string; `"`, `\` and control
//!   bytes are escaped the way a canonical JSON writer escapes them.
//! - `{"CmdRet":<value>}` — a decimal `i32`.
//! - `{"ID":null}` or `{"ID":<id>}` — a decimal `u64` or `null`.
//!
//! `encode` produces the canonical form (no extra whitespace, shortest
//! decimal, lower-case hex escapes); `decode` accepts exactly the canonical
//! forms, so the two are an exact inverse pair: `lemma_decode_encode` proves
//! that every encoding decodes back to its message, and
//! `lemma_decode_canonical` that nothing else decodes at all.

use vstd::prelude::*;

use crate::messages::{EncoderMessage, EncoderMessageType, MessageView};

verus! {

// Byte values of the ASCII characters the wire format is written in.
pub const LBRACE: u8 = 123;

pub const RBRACE: u8 = 125;

pub const QUOTE: u8 = 34;

pub const BACKSLASH: u8 = 92;

pub const COLON: u8 = 58;

pub const MINUS: u8 = 45;

pub const DIGIT0: u8 = 48;

pub const DIGIT9: u8 = 57;

// ---------------------------------------------------------------------
// Decimal numbers
// ---------------------------------------------------------------------

pub open spec fn is_digit(b: u8) -> bool {
    DIGIT0 <= b <= DIGIT9
}

pub open spec fn digit_val(b: u8) -> nat {
    (b - DIGIT0) as nat
}

/// The canonical decimal digits of `n`, most significant first.
pub open spec fn dec_of(n: nat) -> Seq<u8>
    decreases n,
{
    if n < 10 {
        seq![(DIGIT0 + n) as u8]
    } else {
        dec_of(n / 10).push((DIGIT0 + n % 10) as u8)
    }
}

/// The value of a digit sequence, read in base ten.
pub open spec fn seq_val(s: Seq<u8>) -> nat
    decreases s.len(),
{
    if s.len() == 0 {
        0
    } else {
        seq_val(s.drop_last()) * 10 + digit_val(s.last())
    }
}

pub open spec fn all_digits(s: Seq<u8>) -> bool {
    forall|i: int| 0 <= i < s.len() ==> is_digit(#[trigger] s[i])
}

/// A digit sequence is canonical when it is non-empty and has no leading
/// zero (except the single digit `0` itself).
pub open spec fn canonical_dec(s: Seq<u8>) -> bool {
    &&& s.len() > 0
    &&& all_digits(s)
    &&& (s[0] == DIGIT0 ==> s.len() == 1)
}

pub proof fn lemma_dec_of_canonical(n: nat)
    ensures
        canonical_dec(dec_of(n)),
        n < 10 <==> dec_of(n).len() == 1,
    decreases n,
{
    if n < 10 {
    } else {
        lemma_dec_of_canonical(n / 10);
        let s = dec_of(n);
        let p = dec_of(n / 10);
        assert(s == p.push((DIGIT0 + n % 10) as u8));
        assert(s[0] == p[0]);
        assert(p[0] == DIGIT0 ==> p.len() == 1 && n / 10 < 10);
        assert(n / 10 >= 1);
        assert(n / 10 < 10 ==> p.len() == 1 && p[0] == (DIGIT0 + n / 10) as u8);
    }
}

pub proof fn lemma_seq_val_dec_of(n: nat)
    ensures
        seq_val(dec_of(n)) == n,
    decreases n,
{
    if n < 10 {
        let s = dec_of(n);
        assert(s.drop_last() =~= Seq::<u8>::empty());
        assert(s.last() == (DIGIT0 + n) as u8);
        assert(digit_val((DIGIT0 + n) as u8) == n);
        assert(seq_val(s) == seq_val(s.drop_last()) * 10 + digit_val(s.last()));
        assert(seq_val(Seq::<u8>::empty()) == 0);
    } else {
        lemma_seq_val_dec_of(n / 10);
        let s = dec_of(n);
        let p = dec_of(n / 10);
        assert(s.drop_last() =~= p);
        assert(s.last() == (DIGIT0 + n % 10) as u8);
        assert(digit_val((DIGIT0 + n % 10) as u8) == n % 10);
        assert(seq_val(s) == seq_val(s.drop_last()) * 10 + digit_val(s.last()));
        assert(seq_val(s) == (n / 10) * 10 + n % 10);
        assert((n / 10) * 10 + n % 10 == n);
    }
}

/// A digit sequence with a non-zero leading digit has value at least one.
pub proof fn lemma_seq_val_nonzero(s: Seq<u8>)
    requires
        s.len() > 0,
        all_digits(s),
        s[0] != DIGIT0,
    ensures
        seq_val(s) >= 1,
    decreases s.len(),
{
    if s.len() == 1 {
    } else {
        assert(s.drop_last()[0] == s[0]);
        lemma_seq_val_nonzero(s.drop_last());
    }
}

/// Of two prefixes of one digit run, the longer has the larger value.
pub proof fn lemma_seq_val_prefix_le(s: Seq<u8>, a: int, b: int)
    requires
        0 <= a <= b <= s.len(),
    ensures
        seq_val(s.subrange(0, a)) <= seq_val(s.subrange(0, b)),
    decreases b - a,
{
    if a < b {
        lemma_seq_val_prefix_le(s, a, b - 1);
        let p = s.subrange(0, b);
        assert(p.drop_last() =~= s.subrange(0, b - 1));
        assert(seq_val(p) == seq_val(p.drop_last()) * 10 + digit_val(p.last()));
    }
}

/// A canonical digit sequence is the decimal form of its own value.
pub proof fn lemma_canonical_unique(s: Seq<u8>)
    requires
        canonical_dec(s),
    ensures
        s == dec_of(seq_val(s)),
    decreases s.len(),
{
    if s.len() == 1 {
        assert(s.drop_last() =~= Seq::<u8>::empty());
        assert(seq_val(Seq::<u8>::empty()) == 0);
        assert(s.last() == s[0]);
        assert(seq_val(s) == digit_val(s[0]));
        assert(dec_of(seq_val(s)) =~= s);
    } else {
        let p = s.drop_last();
        let d = digit_val(s.last());
        assert(p[0] == s[0]);
        assert(forall|i: int| 0 <= i < p.len() ==> p[i] == s[i]);
        lemma_canonical_unique(p);
        lemma_seq_val_nonzero(p);
        let n = seq_val(s);
        assert(n == seq_val(p) * 10 + d);
        assert(n / 10 == seq_val(p) && n % 10 == d) by (nonlinear_arith)
            requires
                n == seq_val(p) * 10 + d,
                0 <= d < 10,
                seq_val(p) >= 1,
        {}
        assert(n >= 10) by (nonlinear_arith)
            requires
                n == seq_val(p) * 10 + d,
                0 <= d,
                seq_val(p) >= 1,
        {}
        assert(dec_of(n) == dec_of(n / 10).push((DIGIT0 + n % 10) as u8));
        assert((DIGIT0 + n % 10) as u8 == s.last());
        assert(dec_of(n) =~= s);
    }
}

/// Appends the canonical decimal digits of `n` to `out`.
pub fn fmt_u64(n: u64, out: &mut Vec<u8>)
    ensures
        final(out)@ == old(out)@ + dec_of(n as nat),
    decreases n,
{
    if n < 10 {
        out.push(DIGIT0 + n as u8);
        assert(out@ =~= old(out)@ + dec_of(n as nat));
    } else {
        fmt_u64(n / 10, out);
        out.push(DIGIT0 + (n % 10) as u8);
        assert(out@ =~= old(out)@ + dec_of(n as nat));
    }
}

/// The canonical decimal form of a signed value: a minus sign, when the
/// value is negative, followed by the digits of its magnitude.
pub open spec fn dec_i32(v: i32) -> Seq<u8> {
    if v < 0 {
        seq![MINUS] + dec_of((-(v as int)) as nat)
    } else {
        dec_of(v as nat)
    }
}

/// Appends the canonical decimal form of `v` to `out`.
pub fn fmt_i32(v: i32, out: &mut Vec<u8>)
    ensures
        final(out)@ == old(out)@ + dec_i32(v),
{
    if v < 0 {
        out.push(MINUS);
        let m: u64 = (-(v as i64)) as u64;
        fmt_u64(m, out);
        assert(out@ =~= old(out)@ + dec_i32(v));
    } else {
        fmt_u64(v as u64, out);
    }
}

// ---------------------------------------------------------------------
// String escaping
// ---------------------------------------------------------------------

pub const LOWER_A: u8 = 97;

pub const LOWER_B: u8 = 98;

pub const LOWER_D: u8 = 100;

pub const LOWER_E: u8 = 101;

pub const LOWER_F: u8 = 102;

pub const LOWER_L: u8 = 108;

pub const LOWER_M: u8 = 109;

pub const LOWER_N: u8 = 110;

pub const LOWER_R: u8 = 114;

pub const LOWER_T: u8 = 116;

pub const LOWER_U: u8 = 117;

pub const UPPER_C: u8 = 67;

pub const UPPER_D: u8 = 68;

pub const UPPER_I: u8 = 73;

pub const UPPER_R: u8 = 82;

/// Backspace, horizontal tab, line feed, form feed, carriage return: the
/// five control bytes with a named escape.
pub const CTRL_BS: u8 = 8;

pub const CTRL_TAB: u8 = 9;

pub const CTRL_LF: u8 = 10;

pub const CTRL_FF: u8 = 12;

pub const CTRL_CR: u8 = 13;

/// The first byte that needs no escaping: everything below it is a control
/// byte.
pub const SPACE: u8 = 32;

pub open spec fn hex_digit(n: nat) -> u8 {
    if n < 10 {
        (DIGIT0 + n) as u8
    } else {
        (LOWER_A + (n - 10)) as u8
    }
}

/// How one payload byte appears inside the quoted JSON string.
pub open spec fn esc_byte(b: u8) -> Seq<u8> {
    if b == QUOTE {
        seq![BACKSLASH, QUOTE]
    } else if b == BACKSLASH {
        seq![BACKSLASH, BACKSLASH]
    } else if b == CTRL_BS {
        seq![BACKSLASH, LOWER_B]
    } else if b == CTRL_TAB {
        seq![BACKSLASH, LOWER_T]
    } else if b == CTRL_LF {
        seq![BACKSLASH, LOWER_N]
    } else if b == CTRL_FF {
        seq![BACKSLASH, LOWER_F]
    } else if b == CTRL_CR {
        seq![BACKSLASH, LOWER_R]
    } else if b < SPACE {
        seq![BACKSLASH, LOWER_U, DIGIT0, DIGIT0, hex_digit(b as nat / 16), hex_digit(b as nat % 16)]
    } else {
        seq![b]
    }
}

pub open spec fn esc_bytes(s: Seq<u8>) -> Seq<u8>
    decreases s.len(),
{
    if s.len() == 0 {
        Seq::empty()
    } else {
        esc_byte(s[0]) + esc_bytes(s.subrange(1, s.len() as int))
    }
}

pub proof fn lemma_esc_bytes_push(s: Seq<u8>, b: u8)
    ensures
        esc_bytes(s.push(b)) == esc_bytes(s) + esc_byte(b),
    decreases s.len(),
{
    if s.len() == 0 {
        assert(s.push(b) =~= seq![b]);
        assert(seq![b].subrange(1, 1) =~= Seq::<u8>::empty());
        assert(esc_bytes(seq![b]) == esc_byte(b) + esc_bytes(Seq::<u8>::empty()));
        assert(esc_byte(b) + Seq::<u8>::empty() =~= esc_byte(b));
        assert(esc_bytes(s) + esc_byte(b) =~= esc_byte(b));
    } else {
        let t = s.subrange(1, s.len() as int);
        lemma_esc_bytes_push(t, b);
        assert(s.push(b).subrange(1, s.len() as int + 1) =~= t.push(b));
        assert(esc_bytes(s.push(b)) == esc_byte(s[0]) + (esc_bytes(t) + esc_byte(b)));
        assert(esc_byte(s[0]) + (esc_bytes(t) + esc_byte(b)) =~= (esc_byte(s[0]) + esc_bytes(t))
            + esc_byte(b));
    }
}

/// Appends the escaped form of the payload `p` to `out`.
pub fn escape_into(p: &Vec<u8>, out: &mut Vec<u8>)
    ensures
        final(out)@ == old(out)@ + esc_bytes(p@),
{
    let mut i: usize = 0;
    while i < p.len()
        invariant
            i <= p.len(),
            out@ == old(out)@ + esc_bytes(p@.subrange(0, i as int)),
        decreases p.len() - i,
    {
        let b = p[i];
        if b == QUOTE {
            out.push(BACKSLASH);
            out.push(QUOTE);
        } else if b == BACKSLASH {
            out.push(BACKSLASH);
            out.push(BACKSLASH);
        } else if b == CTRL_BS {
            out.push(BACKSLASH);
            out.push(LOWER_B);
        } else if b == CTRL_TAB {
            out.push(BACKSLASH);
            out.push(LOWER_T);
        } else if b == CTRL_LF {
            out.push(BACKSLASH);
            out.push(LOWER_N);
        } else if b == CTRL_FF {
            out.push(BACKSLASH);
            out.push(LOWER_F);
        } else if b == CTRL_CR {
            out.push(BACKSLASH);
            out.push(LOWER_R);
        } else if b < SPACE {
            out.push(BACKSLASH);
            out.push(LOWER_U);
            out.push(DIGIT0);
            out.push(DIGIT0);
            let hi = b / 16;
            let lo = b % 16;
            out.push(if hi < 10 { DIGIT0 + hi } else { LOWER_A + (hi - 10) });
            out.push(if lo < 10 { DIGIT0 + lo } else { LOWER_A + (lo - 10) });
        } else {
            out.push(b);
        }
        proof {
            lemma_esc_bytes_push(p@.subrange(0, i as int), b);
            assert(p@.subrange(0, i + 1) =~= p@.subrange(0, i as int).push(b));
            assert(out@ =~= old(out)@ + esc_bytes(p@.subrange(0, i + 1)));
        }
        i = i + 1;
    }
    proof {
        assert(p@.subrange(0, p@.len() as int) =~= p@);
    }
}

// ---------------------------------------------------------------------
// Whole messages
// ---------------------------------------------------------------------

/// `{"Cmd":"` — opens a command envelope.
pub open spec fn cmd_prefix() -> Seq<u8> {
    seq![LBRACE, QUOTE, UPPER_C, LOWER_M, LOWER_D, QUOTE, COLON, QUOTE]
}

/// `{"CmdRet":` — opens a reply envelope.
pub open spec fn cmdret_prefix() -> Seq<u8> {
    seq![LBRACE, QUOTE, UPPER_C, LOWER_M, LOWER_D, UPPER_R, LOWER_E, LOWER_T, QUOTE, COLON]
}

/// `{"ID":` — opens an identifier envelope.
pub open spec fn id_prefix() -> Seq<u8> {
    seq![LBRACE, QUOTE, UPPER_I, UPPER_D, QUOTE, COLON]
}

/// `null` — the absent identifier.
pub open spec fn null_lit() -> Seq<u8> {
    seq![LOWER_N, LOWER_U, LOWER_L, LOWER_L]
}

/// The canonical wire form of a message.
pub open spec fn encode_spec(m: MessageView) -> Seq<u8> {
    match m {
        MessageView::Cmd(p) => cmd_prefix() + esc_bytes(p) + seq![QUOTE, RBRACE],
        MessageView::CmdRet(v) => cmdret_prefix() + dec_i32(v) + seq![RBRACE],
        MessageView::ID(Some(n)) => id_prefix() + dec_of(n as nat) + seq![RBRACE],
        MessageView::ID(None) => id_prefix() + null_lit() + seq![RBRACE],
    }
}

/// Serializes a message into the bytes of one text frame.
pub fn encode(msg: &EncoderMessage) -> (out: Vec<u8>)
    ensures
        out@ == encode_spec(msg@),
{
    let mut out: Vec<u8> = Vec::new();
    out.push(LBRACE);
    out.push(QUOTE);
    match &msg.0 {
        EncoderMessageType::Cmd(p) => {
            out.push(UPPER_C);
            out.push(LOWER_M);
            out.push(LOWER_D);
            out.push(QUOTE);
            out.push(COLON);
            out.push(QUOTE);
            assert(out@ =~= cmd_prefix());
            escape_into(p, &mut out);
            out.push(QUOTE);
            out.push(RBRACE);
            assert(out@ =~= encode_spec(msg@));
        },
        EncoderMessageType::CmdRet(v) => {
            out.push(UPPER_C);
            out.push(LOWER_M);
            out.push(LOWER_D);
            out.push(UPPER_R);
            out.push(LOWER_E);
            out.push(LOWER_T);
            out.push(QUOTE);
            out.push(COLON);
            assert(out@ =~= cmdret_prefix());
            fmt_i32(*v, &mut out);
            out.push(RBRACE);
            assert(out@ =~= encode_spec(msg@));
        },
        EncoderMessageType::ID(opt) => {
            out.push(UPPER_I);
            out.push(UPPER_D);
            out.push(QUOTE);
            out.push(COLON);
            assert(out@ =~= id_prefix());
            match opt {
                Some(n) => {
                    fmt_u64(*n, &mut out);
                },
                None => {
                    out.push(LOWER_N);
                    out.push(LOWER_U);
                    out.push(LOWER_L);
                    out.push(LOWER_L);
                },
            }
            out.push(RBRACE);
            assert(out@ =~= encode_spec(msg@));
        },
    }
    out
}

// ---------------------------------------------------------------------
// Parsing, at the specification level
// ---------------------------------------------------------------------

/// The byte a named escape letter stands for, if the letter names one.
pub open spec fn named_unescape(e: u8) -> Option<u8> {
    if e == QUOTE {
        Some(QUOTE)
    } else if e == BACKSLASH {
        Some(BACKSLASH)
    } else if e == LOWER_B {
        Some(CTRL_BS)
    } else if e == LOWER_T {
        Some(CTRL_TAB)
    } else if e == LOWER_N {
        Some(CTRL_LF)
    } else if e == LOWER_F {
        Some(CTRL_FF)
    } else if e == LOWER_R {
        Some(CTRL_CR)
    } else {
        None
    }
}

pub open spec fn is_lower_hex(b: u8) -> bool {
    is_digit(b) || LOWER_A <= b <= LOWER_F
}

pub open spec fn hex_val(b: u8) -> nat {
    if is_digit(b) {
        digit_val(b)
    } else {
        (b - LOWER_A + 10) as nat
    }
}

/// The control bytes that have no named escape: they travel as `\u00XX`.
pub open spec fn needs_hex(b: u8) -> bool {
    b < SPACE && b != CTRL_BS && b != CTRL_TAB && b != CTRL_LF && b != CTRL_FF && b != CTRL_CR
}

/// Parses the body of the quoted payload string: the payload bytes and the
/// index of the closing quote, or `None` when `s` is not an escaped payload
/// followed by a closing quote. Only the escapes that `esc_byte` emits are
/// accepted, so parsing inverts escaping exactly.
pub open spec fn unesc(s: Seq<u8>) -> Option<(Seq<u8>, int)>
    decreases s.len(),
{
    if s.len() == 0 {
        None
    } else if s[0] == QUOTE {
        Some((Seq::empty(), 0))
    } else if s[0] == BACKSLASH {
        if s.len() >= 2 && named_unescape(s[1]) is Some {
            match unesc(s.subrange(2, s.len() as int)) {
                Some(pk) => Some((seq![named_unescape(s[1])->Some_0] + pk.0, 2 + pk.1)),
                None => None,
            }
        } else if s.len() >= 6 && s[1] == LOWER_U && s[2] == DIGIT0 && s[3] == DIGIT0
            && is_lower_hex(s[4]) && is_lower_hex(s[5]) && needs_hex(
            (hex_val(s[4]) * 16 + hex_val(s[5])) as u8,
        ) {
            match unesc(s.subrange(6, s.len() as int)) {
                Some(pk) => Some(
                    (seq![(hex_val(s[4]) * 16 + hex_val(s[5])) as u8] + pk.0, 6 + pk.1),
                ),
                None => None,
            }
        } else {
            None
        }
    } else if s[0] >= SPACE {
        match unesc(s.subrange(1, s.len() as int)) {
            Some(pk) => Some((seq![s[0]] + pk.0, 1 + pk.1)),
            None => None,
        }
    } else {
        None
    }
}

/// Unescaping inverts escaping: an escaped payload followed by its closing
/// quote parses back to the payload, whatever follows the quote.
pub proof fn lemma_unesc_esc(p: Seq<u8>, t: Seq<u8>)
    requires
        t.len() >= 1,
        t[0] == QUOTE,
    ensures
        unesc(esc_bytes(p) + t) == Some((p, esc_bytes(p).len() as int)),
    decreases p.len(),
{
    let s = esc_bytes(p) + t;
    if p.len() == 0 {
        assert(esc_bytes(p) =~= Seq::<u8>::empty());
        assert(s =~= t);
        assert(p =~= Seq::<u8>::empty());
    } else {
        let b = p[0];
        let p1 = p.subrange(1, p.len() as int);
        lemma_unesc_esc(p1, t);
        let s1 = esc_bytes(p1) + t;
        assert(esc_bytes(p) == esc_byte(b) + esc_bytes(p1));
        assert(s =~= esc_byte(b) + s1);
        assert(seq![b] + p1 =~= p);
        if b == QUOTE || b == BACKSLASH || b == CTRL_BS || b == CTRL_TAB || b == CTRL_LF || b
            == CTRL_FF || b == CTRL_CR {
            let e = esc_byte(b)[1];
            assert(named_unescape(e) == Some(b));
            assert(s[0] == BACKSLASH && s[1] == e);
            assert(s.subrange(2, s.len() as int) =~= s1);
            assert(unesc(s) == Some((seq![b] + p1, 2 + esc_bytes(p1).len() as int)));
        } else if b < SPACE {
            assert(needs_hex(b));
            let h1 = hex_digit(b as nat / 16);
            let h2 = hex_digit(b as nat % 16);
            assert(s[0] == BACKSLASH && s[1] == LOWER_U && s[2] == DIGIT0 && s[3] == DIGIT0);
            assert(s[4] == h1 && s[5] == h2);
            assert(named_unescape(LOWER_U) is None);
            assert(b as nat / 16 < 2);
            assert(is_lower_hex(h1) && hex_val(h1) == b as nat / 16);
            assert(is_lower_hex(h2) && hex_val(h2) == b as nat % 16);
            assert((hex_val(h1) * 16 + hex_val(h2)) as u8 == b);
            assert(s.subrange(6, s.len() as int) =~= s1);
            assert(unesc(s) == Some((seq![b] + p1, 6 + esc_bytes(p1).len() as int)));
        } else {
            assert(esc_byte(b) =~= seq![b]);
            assert(s[0] == b && b != QUOTE && b != BACKSLASH && b >= SPACE);
            assert(s.subrange(1, s.len() as int) =~= s1);
            assert(unesc(s) == Some((seq![b] + p1, 1 + esc_bytes(p1).len() as int)));
        }
    }
}

/// The length of the digit run at the head of `s`.
pub open spec fn digits_len(s: Seq<u8>) -> int
    decreases s.len(),
{
    if s.len() == 0 || !is_digit(s[0]) {
        0
    } else {
        1 + digits_len(s.subrange(1, s.len() as int))
    }
}

/// `digits_len` is exactly the index of the first non-digit.
pub proof fn lemma_digits_len_char(s: Seq<u8>, k: int)
    requires
        0 <= k <= s.len(),
        forall|i: int| 0 <= i < k ==> is_digit(#[trigger] s[i]),
        k == s.len() || !is_digit(s[k]),
    ensures
        digits_len(s) == k,
    decreases s.len(),
{
    if k == 0 {
    } else {
        let t = s.subrange(1, s.len() as int);
        assert(forall|i: int| 0 <= i < k - 1 ==> #[trigger] t[i] == s[i + 1]);
        lemma_digits_len_char(t, k - 1);
    }
}

/// The digit run is a part of `s`, and made of digits.
pub proof fn lemma_digits_len_bounds(s: Seq<u8>)
    ensures
        0 <= digits_len(s) <= s.len(),
        forall|i: int| 0 <= i < digits_len(s) ==> is_digit(#[trigger] s[i]),
    decreases s.len(),
{
    if s.len() != 0 && is_digit(s[0]) {
        let t = s.subrange(1, s.len() as int);
        lemma_digits_len_bounds(t);
        assert forall|i: int| 0 <= i < digits_len(s) implies is_digit(#[trigger] s[i]) by {
            if i > 0 {
                assert(is_digit(t[i - 1]));
                assert(t[i - 1] == s[i]);
            }
        }
    }
}

/// A digit run at least `m` long puts `digits_len` at `m` or more.
pub proof fn lemma_digits_len_ge(s: Seq<u8>, m: int)
    requires
        0 <= m <= s.len(),
        forall|i: int| 0 <= i < m ==> is_digit(#[trigger] s[i]),
    ensures
        digits_len(s) >= m,
    decreases m,
{
    lemma_digits_len_bounds(s);
    if m > 0 {
        assert(is_digit(s[0]));
        let t = s.subrange(1, s.len() as int);
        assert(forall|i: int| 0 <= i < m - 1 ==> is_digit(#[trigger] t[i])) by {
            assert(forall|i: int| 0 <= i < m - 1 ==> #[trigger] t[i] == s[i + 1]);
        }
        lemma_digits_len_ge(t, m - 1);
        assert(digits_len(s) == 1 + digits_len(t));
    }
}

/// Parses a canonical decimal `u64` at the head of `s`: the value and the
/// length of the digit run. `None` when there is no digit, on a leading
/// zero, or when the run's value does not fit.
pub open spec fn parse_u64_spec(s: Seq<u8>) -> Option<(u64, int)> {
    let k = digits_len(s);
    if k >= 1 && (s[0] == DIGIT0 ==> k == 1) && seq_val(s.subrange(0, k)) <= u64::MAX {
        Some((seq_val(s.subrange(0, k)) as u64, k))
    } else {
        None
    }
}

/// Parses a canonical decimal `i32` at the head of `s`.
pub open spec fn parse_i32_spec(s: Seq<u8>) -> Option<(i32, int)> {
    if s.len() >= 1 && s[0] == MINUS {
        match parse_u64_spec(s.subrange(1, s.len() as int)) {
            Some(mk) => if 1 <= mk.0 <= 0x8000_0000u64 {
                Some(((-(mk.0 as int)) as i32, 1 + mk.1))
            } else {
                None
            },
            None => None,
        }
    } else {
        match parse_u64_spec(s) {
            Some(mk) => if mk.0 <= 0x7fff_ffffu64 {
                Some((mk.0 as i32, mk.1))
            } else {
                None
            },
            None => None,
        }
    }
}

/// Number parsing inverts decimal formatting, whatever non-digit follows.
pub proof fn lemma_parse_u64_dec(n: u64, t: Seq<u8>)
    requires
        t.len() == 0 || !is_digit(t[0]),
    ensures
        parse_u64_spec(dec_of(n as nat) + t) == Some((n, dec_of(n as nat).len() as int)),
{
    let d = dec_of(n as nat);
    let s = d + t;
    lemma_dec_of_canonical(n as nat);
    lemma_seq_val_dec_of(n as nat);
    assert(forall|i: int| 0 <= i < d.len() ==> s[i] == d[i]);
    assert(d.len() == s.len() || !is_digit(s[d.len() as int]));
    lemma_digits_len_char(s, d.len() as int);
    assert(s.subrange(0, d.len() as int) =~= d);
    assert(s[0] == d[0]);
}

/// Signed parsing inverts signed formatting.
pub proof fn lemma_parse_i32_dec(v: i32, t: Seq<u8>)
    requires
        t.len() == 0 || (!is_digit(t[0]) && t[0] != MINUS),
    ensures
        parse_i32_spec(dec_i32(v) + t) == Some((v, dec_i32(v).len() as int)),
{
    let s = dec_i32(v) + t;
    if v < 0 {
        let m = (-(v as int)) as u64;
        let d = dec_of(m as nat);
        lemma_parse_u64_dec(m, t);
        assert(s[0] == MINUS);
        assert(s.subrange(1, s.len() as int) =~= d + t);
        lemma_dec_of_canonical(m as nat);
        assert(1 <= m <= 0x8000_0000u64) by {
            lemma_seq_val_dec_of(m as nat);
        }
        assert((-(m as int)) as i32 == v);
        assert(dec_i32(v).len() == 1 + d.len());
    } else {
        let d = dec_of(v as nat);
        lemma_parse_u64_dec(v as u64, t);
        assert(s =~= d + t);
        lemma_dec_of_canonical(v as nat);
        assert(s[0] == d[0]);
        assert(is_digit(d[0]));
        assert(s[0] != MINUS);
        assert(v as u64 <= 0x7fff_ffffu64);
    }
}

/// `p` opens `s`: `s` is at least as long and starts with `p`.
pub open spec fn has_prefix(s: Seq<u8>, p: Seq<u8>) -> bool {
    s.len() >= p.len() && s.subrange(0, p.len() as int) == p
}

/// The mathematical decoder: `Some` exactly on the canonical encodings.
pub open spec fn decode_spec(s: Seq<u8>) -> Option<MessageView> {
    if has_prefix(s, cmd_prefix()) {
        match unesc(s.subrange(8, s.len() as int)) {
            Some(pk) => if s.len() == 8 + pk.1 + 2 && s[8 + pk.1 + 1] == RBRACE {
                Some(MessageView::Cmd(pk.0))
            } else {
                None
            },
            None => None,
        }
    } else if has_prefix(s, cmdret_prefix()) {
        match parse_i32_spec(s.subrange(10, s.len() as int)) {
            Some(vk) => if s.len() == 10 + vk.1 + 1 && s[10 + vk.1] == RBRACE {
                Some(MessageView::CmdRet(vk.0))
            } else {
                None
            },
            None => None,
        }
    } else if has_prefix(s, id_prefix()) {
        if s == id_prefix() + null_lit() + seq![RBRACE] {
            Some(MessageView::ID(None))
        } else {
            match parse_u64_spec(s.subrange(6, s.len() as int)) {
                Some(nk) => if s.len() == 6 + nk.1 + 1 && s[6 + nk.1] == RBRACE {
                    Some(MessageView::ID(Some(nk.0)))
                } else {
                    None
                },
                None => None,
            }
        }
    } else {
        None
    }
}

/// Round trip: decoding a canonical encoding yields the encoded message.
pub proof fn lemma_decode_encode(m: MessageView)
    ensures
        decode_spec(encode_spec(m)) == Some(m),
{
    let s = encode_spec(m);
    match m {
        MessageView::Cmd(p) => {
            assert(s.subrange(0, 8) =~= cmd_prefix());
            let tail = seq![QUOTE, RBRACE];
            assert(s.subrange(8, s.len() as int) =~= esc_bytes(p) + tail);
            lemma_unesc_esc(p, tail);
            let k = esc_bytes(p).len() as int;
            assert(s.len() == 8 + k + 2);
            assert(s[8 + k + 1] == RBRACE);
        },
        MessageView::CmdRet(v) => {
            assert(s[5] == UPPER_R);
            assert(!has_prefix(s, cmd_prefix())) by {
                if has_prefix(s, cmd_prefix()) {
                    assert(s.subrange(0, 8)[5] == cmd_prefix()[5]);
                }
            }
            assert(s.subrange(0, 10) =~= cmdret_prefix());
            let tail = seq![RBRACE];
            assert(s.subrange(10, s.len() as int) =~= dec_i32(v) + tail);
            lemma_parse_i32_dec(v, tail);
            let k = dec_i32(v).len() as int;
            assert(s.len() == 10 + k + 1);
            assert(s[10 + k] == RBRACE);
        },
        MessageView::ID(opt) => {
            assert(s[2] == UPPER_I);
            assert(!has_prefix(s, cmd_prefix())) by {
                if has_prefix(s, cmd_prefix()) {
                    assert(s.subrange(0, 8)[2] == cmd_prefix()[2]);
                }
            }
            assert(!has_prefix(s, cmdret_prefix())) by {
                if has_prefix(s, cmdret_prefix()) {
                    assert(s.subrange(0, 10)[2] == cmdret_prefix()[2]);
                }
            }
            assert(s.subrange(0, 6) =~= id_prefix());
            match opt {
                None => {
                    assert(s =~= id_prefix() + null_lit() + seq![RBRACE]);
                },
                Some(n) => {
                    let d = dec_of(n as nat);
                    lemma_dec_of_canonical(n as nat);
                    assert(s[6] == d[0]);
                    assert(is_digit(d[0]));
                    assert((id_prefix() + null_lit() + seq![RBRACE])[6] == LOWER_N);
                    assert(s != id_prefix() + null_lit() + seq![RBRACE]);
                    let tail = seq![RBRACE];
                    assert(s.subrange(6, s.len() as int) =~= d + tail);
                    lemma_parse_u64_dec(n, tail);
                    let k = d.len() as int;
                    assert(s.len() == 6 + k + 1);
                    assert(s[6 + k] == RBRACE);
                },
            }
        },
    }
}

/// A parsed payload string is exactly the escaped form of its payload: the
/// bytes before the closing quote are `esc_bytes` of what came out.
pub proof fn lemma_unesc_sound(s: Seq<u8>)
    requires
        unesc(s) is Some,
    ensures
        ({
            let pk = unesc(s)->Some_0;
            &&& 0 <= pk.1 < s.len()
            &&& s[pk.1] == QUOTE
            &&& s.subrange(0, pk.1) == esc_bytes(pk.0)
        }),
    decreases s.len(),
{
    let pk = unesc(s)->Some_0;
    if s[0] == QUOTE {
        assert(s.subrange(0, 0) =~= esc_bytes(Seq::<u8>::empty()));
    } else if s[0] == BACKSLASH {
        if s.len() >= 2 && named_unescape(s[1]) is Some {
            let c = named_unescape(s[1])->Some_0;
            let s2 = s.subrange(2, s.len() as int);
            lemma_unesc_sound(s2);
            let qk = unesc(s2)->Some_0;
            assert(esc_byte(c) =~= seq![BACKSLASH, s[1]]);
            assert((seq![c] + qk.0).subrange(1, (seq![c] + qk.0).len() as int) =~= qk.0);
            assert(esc_bytes(seq![c] + qk.0) == esc_byte(c) + esc_bytes(qk.0));
            assert(s[pk.1] == s2[qk.1]);
            assert(s.subrange(0, pk.1) =~= esc_byte(c) + s2.subrange(0, qk.1));
        } else {
            let c = (hex_val(s[4]) * 16 + hex_val(s[5])) as u8;
            let s2 = s.subrange(6, s.len() as int);
            lemma_unesc_sound(s2);
            let qk = unesc(s2)->Some_0;
            assert(c as nat / 16 == hex_val(s[4]) && c as nat % 16 == hex_val(s[5]));
            assert(hex_digit(hex_val(s[4])) == s[4]);
            assert(hex_digit(hex_val(s[5])) == s[5]);
            assert(esc_byte(c) =~= seq![BACKSLASH, LOWER_U, DIGIT0, DIGIT0, s[4], s[5]]);
            assert((seq![c] + qk.0).subrange(1, (seq![c] + qk.0).len() as int) =~= qk.0);
            assert(esc_bytes(seq![c] + qk.0) == esc_byte(c) + esc_bytes(qk.0));
            assert(s[pk.1] == s2[qk.1]);
            assert(s.subrange(0, pk.1) =~= esc_byte(c) + s2.subrange(0, qk.1));
        }
    } else {
        let s2 = s.subrange(1, s.len() as int);
        lemma_unesc_sound(s2);
        let qk = unesc(s2)->Some_0;
        assert(esc_byte(s[0]) =~= seq![s[0]]);
        assert((seq![s[0]] + qk.0).subrange(1, (seq![s[0]] + qk.0).len() as int) =~= qk.0);
        assert(esc_bytes(seq![s[0]] + qk.0) == esc_byte(s[0]) + esc_bytes(qk.0));
        assert(s[pk.1] == s2[qk.1]);
        assert(s.subrange(0, pk.1) =~= esc_byte(s[0]) + s2.subrange(0, qk.1));
    }
}

/// A parsed number is exactly the canonical decimal of its value.
pub proof fn lemma_parse_u64_sound(s: Seq<u8>)
    requires
        parse_u64_spec(s) is Some,
    ensures
        ({
            let nk = parse_u64_spec(s)->Some_0;
            &&& 0 < nk.1 <= s.len()
            &&& s.subrange(0, nk.1) == dec_of(nk.0 as nat)
        }),
{
    let nk = parse_u64_spec(s)->Some_0;
    let k = digits_len(s);
    lemma_digits_len_bounds(s);
    let d = s.subrange(0, k);
    assert(forall|i: int| 0 <= i < d.len() ==> is_digit(#[trigger] d[i]));
    assert(canonical_dec(d));
    lemma_canonical_unique(d);
}

/// A parsed signed number is exactly the canonical decimal of its value.
pub proof fn lemma_parse_i32_sound(s: Seq<u8>)
    requires
        parse_i32_spec(s) is Some,
    ensures
        ({
            let vk = parse_i32_spec(s)->Some_0;
            &&& 0 < vk.1 <= s.len()
            &&& s.subrange(0, vk.1) == dec_i32(vk.0)
        }),
{
    let vk = parse_i32_spec(s)->Some_0;
    if s.len() >= 1 && s[0] == MINUS {
        let s1 = s.subrange(1, s.len() as int);
        lemma_parse_u64_sound(s1);
        let mk = parse_u64_spec(s1)->Some_0;
        assert((-(vk.0 as int)) as nat == mk.0 as nat);
        assert(s.subrange(0, vk.1) =~= seq![MINUS] + s1.subrange(0, mk.1));
    } else {
        lemma_parse_u64_sound(s);
        let mk = parse_u64_spec(s)->Some_0;
        assert(vk.0 as nat == mk.0 as nat);
    }
}

/// The converse round trip: whatever decodes was a canonical encoding, so
/// together with `lemma_decode_encode` the codec is an exact inverse pair.
pub proof fn lemma_decode_canonical(s: Seq<u8>, m: MessageView)
    requires
        decode_spec(s) == Some(m),
    ensures
        s == encode_spec(m),
{
    if has_prefix(s, cmd_prefix()) {
        let pk = unesc(s.subrange(8, s.len() as int))->Some_0;
        lemma_unesc_sound(s.subrange(8, s.len() as int));
        assert(s.subrange(8, s.len() as int).subrange(0, pk.1) =~= s.subrange(8, 8 + pk.1));
        assert(s[8 + pk.1] == s.subrange(8, s.len() as int)[pk.1]);
        assert(s =~= cmd_prefix() + esc_bytes(pk.0) + seq![QUOTE, RBRACE]) by {
            assert(forall|i: int| 0 <= i < 8 ==> #[trigger] s[i] == s.subrange(0, 8)[i]);
            assert(forall|i: int|
                0 <= i < pk.1 ==> #[trigger] esc_bytes(pk.0)[i] == s.subrange(8, 8 + pk.1)[i]);
        }
    } else if has_prefix(s, cmdret_prefix()) {
        let vk = parse_i32_spec(s.subrange(10, s.len() as int))->Some_0;
        lemma_parse_i32_sound(s.subrange(10, s.len() as int));
        assert(s.subrange(10, s.len() as int).subrange(0, vk.1) =~= s.subrange(10, 10 + vk.1));
        assert(s =~= cmdret_prefix() + dec_i32(vk.0) + seq![RBRACE]) by {
            assert(forall|i: int| 0 <= i < 10 ==> #[trigger] s[i] == s.subrange(0, 10)[i]);
            assert(forall|i: int|
                0 <= i < vk.1 ==> #[trigger] dec_i32(vk.0)[i] == s.subrange(10, 10 + vk.1)[i]);
        }
    } else {
        if s == id_prefix() + null_lit() + seq![RBRACE] {
        } else {
            let nk = parse_u64_spec(s.subrange(6, s.len() as int))->Some_0;
            lemma_parse_u64_sound(s.subrange(6, s.len() as int));
            assert(s.subrange(6, s.len() as int).subrange(0, nk.1) =~= s.subrange(6, 6 + nk.1));
            assert(s =~= id_prefix() + dec_of(nk.0 as nat) + seq![RBRACE]) by {
                assert(forall|i: int| 0 <= i < 6 ==> #[trigger] s[i] == s.subrange(0, 6)[i]);
                assert(forall|i: int|
                    0 <= i < nk.1 ==> #[trigger] dec_of(nk.0 as nat)[i] == s.subrange(
                        6,
                        6 + nk.1,
                    )[i]);
            }
        }
    }
}

// ---------------------------------------------------------------------
// Parsing, executable
// ---------------------------------------------------------------------

/// Scans the quoted payload string that starts at `start`: the payload and
/// the absolute index of the closing quote.
fn unescape_from(bytes: &Vec<u8>, start: usize) -> (r: Option<(Vec<u8>, usize)>)
    requires
        start <= bytes@.len(),
    ensures
        match r {
            Some(pe) => start <= pe.1 < bytes@.len() && unesc(
                bytes@.subrange(start as int, bytes@.len() as int),
            ) == Some((pe.0@, pe.1 - start)),
            None => unesc(bytes@.subrange(start as int, bytes@.len() as int)) is None,
        },
{
    let ghost whole = bytes@.subrange(start as int, bytes@.len() as int);
    let len = bytes.len();
    let mut i: usize = start;
    let mut p: Vec<u8> = Vec::new();
    loop
        invariant
            start <= i <= len,
            len == bytes@.len(),
            whole == bytes@.subrange(start as int, len as int),
            unesc(whole) == match unesc(bytes@.subrange(i as int, len as int)) {
                Some(qk) => Some::<(Seq<u8>, int)>((p@ + qk.0, (i - start) + qk.1)),
                None => None::<(Seq<u8>, int)>,
            },
        decreases len - i,
    {
        let ghost rest = bytes@.subrange(i as int, len as int);
        if i >= len {
            assert(rest.len() == 0);
            return None;
        }
        let b = bytes[i];
        assert(rest[0] == b);
        if b == QUOTE {
            assert(unesc(rest) == Some((Seq::<u8>::empty(), 0int)));
            assert(p@ + Seq::<u8>::empty() =~= p@);
            return Some((p, i));
        } else if b == BACKSLASH {
            if len - i < 2 {
                assert(rest.len() < 2);
                assert(unesc(rest) is None);
                return None;
            }
            let e = bytes[i + 1];
            assert(rest[1] == e);
            let c: u8;
            let step: usize;
            if e == QUOTE {
                c = QUOTE;
                step = 2;
            } else if e == BACKSLASH {
                c = BACKSLASH;
                step = 2;
            } else if e == LOWER_B {
                c = CTRL_BS;
                step = 2;
            } else if e == LOWER_T {
                c = CTRL_TAB;
                step = 2;
            } else if e == LOWER_N {
                c = CTRL_LF;
                step = 2;
            } else if e == LOWER_F {
                c = CTRL_FF;
                step = 2;
            } else if e == LOWER_R {
                c = CTRL_CR;
                step = 2;
            } else if e == LOWER_U {
                if len - i < 6 {
                    assert(rest.len() < 6);
                    assert(named_unescape(rest[1]) is None);
                    assert(unesc(rest) is None);
                    return None;
                }
                if bytes[i + 2] != DIGIT0 || bytes[i + 3] != DIGIT0 {
                    assert(rest[2] == bytes@[i + 2] && rest[3] == bytes@[i + 3]);
                    assert(named_unescape(rest[1]) is None);
                    assert(unesc(rest) is None);
                    return None;
                }
                let h1 = bytes[i + 4];
                let h2 = bytes[i + 5];
                assert(rest[4] == h1 && rest[5] == h2);
                let v1: u8;
                let v2: u8;
                if DIGIT0 <= h1 && h1 <= DIGIT9 {
                    v1 = h1 - DIGIT0;
                } else if LOWER_A <= h1 && h1 <= LOWER_F {
                    v1 = h1 - LOWER_A + 10;
                } else {
                    assert(!is_lower_hex(rest[4]));
                    assert(named_unescape(rest[1]) is None);
                    assert(unesc(rest) is None);
                    return None;
                }
                if DIGIT0 <= h2 && h2 <= DIGIT9 {
                    v2 = h2 - DIGIT0;
                } else if LOWER_A <= h2 && h2 <= LOWER_F {
                    v2 = h2 - LOWER_A + 10;
                } else {
                    assert(!is_lower_hex(rest[5]));
                    assert(named_unescape(rest[1]) is None);
                    assert(unesc(rest) is None);
                    return None;
                }
                assert(v1 == hex_val(rest[4]) && v2 == hex_val(rest[5]));
                let v = v1 * 16 + v2;
                assert(v == (hex_val(rest[4]) * 16 + hex_val(rest[5])) as u8);
                if !(v < SPACE && v != CTRL_BS && v != CTRL_TAB && v != CTRL_LF && v != CTRL_FF
                    && v != CTRL_CR) {
                    assert(!needs_hex(v));
                    assert(named_unescape(rest[1]) is None);
                    assert(unesc(rest) is None);
                    return None;
                }
                c = v;
                step = 6;
            } else {
                assert(named_unescape(rest[1]) is None);
                assert(rest[1] != LOWER_U);
                assert(unesc(rest) is None);
                return None;
            }
            proof {
                let next = bytes@.subrange(i + step, len as int);
                assert(rest.subrange(step as int, rest.len() as int) =~= next);
                if step == 2 {
                    assert(named_unescape(rest[1]) == Some(c));
                    assert(unesc(rest) == match unesc(next) {
                        Some(qk) => Some::<(Seq<u8>, int)>((seq![c] + qk.0, 2 + qk.1)),
                        None => None::<(Seq<u8>, int)>,
                    });
                } else {
                    assert(named_unescape(rest[1]) is None);
                    assert(rest.len() >= 6 && rest[1] == LOWER_U && rest[2] == DIGIT0 && rest[3]
                        == DIGIT0 && is_lower_hex(rest[4]) && is_lower_hex(rest[5]) && needs_hex(
                        (hex_val(rest[4]) * 16 + hex_val(rest[5])) as u8,
                    ));
                    assert(c == (hex_val(rest[4]) * 16 + hex_val(rest[5])) as u8);
                    assert(unesc(rest) == match unesc(next) {
                        Some(qk) => Some::<(Seq<u8>, int)>((seq![c] + qk.0, 6 + qk.1)),
                        None => None::<(Seq<u8>, int)>,
                    });
                }
            }
            let ghost p_old = p@;
            p.push(c);
            proof {
                assert forall|q: Seq<u8>| #[trigger] (p@ + q) == p_old + (seq![c] + q) by {
                    assert((p@ + q) =~= p_old + (seq![c] + q));
                }
            }
            i = i + step;
        } else if b >= SPACE {
            proof {
                let next = bytes@.subrange(i + 1, len as int);
                assert(rest.subrange(1, rest.len() as int) =~= next);
                assert(unesc(rest) == match unesc(next) {
                    Some(qk) => Some::<(Seq<u8>, int)>((seq![b] + qk.0, 1 + qk.1)),
                    None => None::<(Seq<u8>, int)>,
                });
            }
            let ghost p_old = p@;
            p.push(b);
            proof {
                assert forall|q: Seq<u8>| #[trigger] (p@ + q) == p_old + (seq![b] + q) by {
                    assert((p@ + q) =~= p_old + (seq![b] + q));
                }
            }
            i = i + 1;
        } else {
            assert(unesc(rest) is None);
            return None;
        }
    }
}


/// Parses the canonical decimal `u64` that starts at `start`: the value and
/// the index just past the digit run.
fn parse_u64_from(bytes: &Vec<u8>, start: usize) -> (r: Option<(u64, usize)>)
    requires
        start <= bytes@.len(),
    ensures
        match r {
            Some(ne) => start < ne.1 <= bytes@.len() && parse_u64_spec(
                bytes@.subrange(start as int, bytes@.len() as int),
            ) == Some((ne.0, ne.1 - start)),
            None => parse_u64_spec(bytes@.subrange(start as int, bytes@.len() as int)) is None,
        },
{
    let ghost s = bytes@.subrange(start as int, bytes@.len() as int);
    let len = bytes.len();
    if start >= len || bytes[start] < DIGIT0 || bytes[start] > DIGIT9 {
        proof {
            if s.len() > 0 {
                assert(s[0] == bytes@[start as int]);
            }
            assert(digits_len(s) == 0);
        }
        return None;
    }
    assert(s[0] == bytes@[start as int]);
    if bytes[start] == DIGIT0 {
        // canonical: a leading zero stands alone
        if start + 1 < len && DIGIT0 <= bytes[start + 1] && bytes[start + 1] <= DIGIT9 {
            proof {
                assert(s[1] == bytes@[start + 1]);
                lemma_digits_len_ge(s, 2);
            }
            return None;
        }
        proof {
            assert(forall|i: int| 0 <= i < 1 ==> is_digit(#[trigger] s[i]));
            assert(1 == s.len() || !is_digit(s[1]));
            lemma_digits_len_char(s, 1);
            assert(s.subrange(0, 1) =~= seq![s[0]]);
            assert(seq![s[0]].drop_last() =~= Seq::<u8>::empty());
            assert(seq_val(Seq::<u8>::empty()) == 0);
            assert(seq![s[0]].last() == s[0]);
            assert(digit_val(s[0]) == 0);
            assert(seq_val(s.subrange(0, 1)) == 0);
        }
        return Some((0, start + 1));
    }
    let mut i: usize = start;
    let mut acc: u64 = 0;
    loop
        invariant
            start <= i <= len,
            len == bytes@.len(),
            s == bytes@.subrange(start as int, len as int),
            s.len() > 0 && is_digit(s[0]) && s[0] != DIGIT0,
            forall|j: int| 0 <= j < i - start ==> is_digit(#[trigger] s[j]),
            acc == seq_val(s.subrange(0, i - start)),
        decreases len - i,
    {
        if i >= len || bytes[i] < DIGIT0 || bytes[i] > DIGIT9 {
            proof {
                if i < len {
                    assert(s[i - start] == bytes@[i as int]);
                    assert(!is_digit(s[i - start]));
                }
                lemma_digits_len_char(s, i - start);
            }
            if i == start {
                // unreachable: the first byte is a digit
                assert(false);
                return None;
            }
            return Some((acc, i));
        }
        let d = bytes[i] - DIGIT0;
        assert(s[i - start] == bytes@[i as int]);
        assert(is_digit(s[i - start]) && digit_val(s[i - start]) == d);
        proof {
            assert(s.subrange(0, i - start + 1).drop_last() =~= s.subrange(0, i - start));
            assert(s.subrange(0, i - start + 1).last() == s[i - start]);
            assert(seq_val(s.subrange(0, i - start + 1)) == acc * 10 + d);
        }
        if acc > (u64::MAX - d as u64) / 10 {
            proof {
                let over = seq_val(s.subrange(0, i - start + 1));
                assert(over > u64::MAX) by (nonlinear_arith)
                    requires
                        over == acc * 10 + d,
                        acc > (u64::MAX - d as u64) / 10,
                        0 <= d < 10,
                {}
                lemma_digits_len_ge(s, i - start + 1);
                lemma_digits_len_bounds(s);
                lemma_seq_val_prefix_le(s, i - start + 1, digits_len(s));
                assert(seq_val(s.subrange(0, digits_len(s))) > u64::MAX);
            }
            return None;
        }
        assert(acc * 10 + d <= u64::MAX) by (nonlinear_arith)
            requires
                acc <= (u64::MAX - d as u64) / 10,
                0 <= d < 10,
        {}
        acc = acc * 10 + (d as u64);
        i = i + 1;
    }
}

/// Parses the canonical decimal `i32` that starts at `start`.
fn parse_i32_from(bytes: &Vec<u8>, start: usize) -> (r: Option<(i32, usize)>)
    requires
        start <= bytes@.len(),
    ensures
        match r {
            Some(ne) => start < ne.1 <= bytes@.len() && parse_i32_spec(
                bytes@.subrange(start as int, bytes@.len() as int),
            ) == Some((ne.0, ne.1 - start)),
            None => parse_i32_spec(bytes@.subrange(start as int, bytes@.len() as int)) is None,
        },
{
    let ghost s = bytes@.subrange(start as int, bytes@.len() as int);
    let len = bytes.len();
    if start < len && bytes[start] == MINUS {
        assert(s[0] == MINUS);
        proof {
            assert(s.subrange(1, s.len() as int) =~= bytes@.subrange(
                start + 1,
                bytes@.len() as int,
            ));
        }
        match parse_u64_from(bytes, start + 1) {
            Some((m, end)) => {
                if 1 <= m && m <= 0x8000_0000u64 {
                    let v: i32 = if m == 0x8000_0000u64 {
                        i32::MIN
                    } else {
                        -(m as i32)
                    };
                    assert(v == (-(m as int)) as i32);
                    Some((v, end))
                } else {
                    None
                }
            },
            None => None,
        }
    } else {
        proof {
            if s.len() >= 1 {
                assert(s[0] == bytes@[start as int]);
            }
        }
        match parse_u64_from(bytes, start) {
            Some((m, end)) => {
                if m <= 0x7fff_ffffu64 {
                    Some((m as i32, end))
                } else {
                    None
                }
            },
            None => None,
        }
    }
}

/// Deserializes the bytes of one text frame. Returns the message when the
/// frame is a canonical encoding, and `None` otherwise.
pub fn decode(bytes: &Vec<u8>) -> (r: Option<EncoderMessage>)
    ensures
        match r {
            Some(m) => decode_spec(bytes@) == Some(m@),
            None => decode_spec(bytes@) is None,
        },
{
    let n = bytes.len();
    let is_cmd = n >= 8 && bytes[0] == LBRACE && bytes[1] == QUOTE && bytes[2] == UPPER_C
        && bytes[3] == LOWER_M && bytes[4] == LOWER_D && bytes[5] == QUOTE && bytes[6] == COLON
        && bytes[7] == QUOTE;
    proof {
        if is_cmd {
            assert(bytes@.subrange(0, 8) =~= cmd_prefix());
        } else {
            if has_prefix(bytes@, cmd_prefix()) {
                assert(forall|i: int|
                    0 <= i < 8 ==> #[trigger] bytes@[i] == bytes@.subrange(0, 8)[i]);
                assert(false);
            }
        }
    }
    if is_cmd {
        match unescape_from(bytes, 8) {
            Some((p, end)) => {
                if n - end == 2 && bytes[end + 1] == RBRACE {
                    return Some(EncoderMessage(EncoderMessageType::Cmd(p)));
                }
                return None;
            },
            None => {
                return None;
            },
        }
    }
    let is_cmdret = n >= 10 && bytes[0] == LBRACE && bytes[1] == QUOTE && bytes[2] == UPPER_C
        && bytes[3] == LOWER_M && bytes[4] == LOWER_D && bytes[5] == UPPER_R && bytes[6] == LOWER_E
        && bytes[7] == LOWER_T && bytes[8] == QUOTE && bytes[9] == COLON;
    proof {
        if is_cmdret {
            assert(bytes@.subrange(0, 10) =~= cmdret_prefix());
        } else {
            if has_prefix(bytes@, cmdret_prefix()) {
                assert(forall|i: int|
                    0 <= i < 10 ==> #[trigger] bytes@[i] == bytes@.subrange(0, 10)[i]);
                assert(false);
            }
        }
    }
    if is_cmdret {
        match parse_i32_from(bytes, 10) {
            Some((v, end)) => {
                if end < n && n - end == 1 && bytes[end] == RBRACE {
                    return Some(EncoderMessage(EncoderMessageType::CmdRet(v)));
                }
                return None;
            },
            None => {
                return None;
            },
        }
    }
    let is_id = n >= 6 && bytes[0] == LBRACE && bytes[1] == QUOTE && bytes[2] == UPPER_I
        && bytes[3] == UPPER_D && bytes[4] == QUOTE && bytes[5] == COLON;
    proof {
        if is_id {
            assert(bytes@.subrange(0, 6) =~= id_prefix());
        } else {
            if has_prefix(bytes@, id_prefix()) {
                assert(forall|i: int|
                    0 <= i < 6 ==> #[trigger] bytes@[i] == bytes@.subrange(0, 6)[i]);
                assert(false);
            }
        }
    }
    if !is_id {
        return None;
    }
    let is_null = n == 11 && bytes[6] == LOWER_N && bytes[7] == LOWER_U && bytes[8] == LOWER_L
        && bytes[9] == LOWER_L && bytes[10] == RBRACE;
    let ghost null_form = id_prefix() + null_lit() + seq![RBRACE];
    proof {
        if is_null {
            assert(bytes@ =~= null_form);
        } else {
            if bytes@ == null_form {
                assert(bytes@.len() == 11);
                assert(forall|i: int| 0 <= i < 11 ==> bytes@[i] == null_form[i]);
                assert(false);
            }
        }
    }
    if is_null {
        return Some(EncoderMessage(EncoderMessageType::ID(None)));
    }
    match parse_u64_from(bytes, 6) {
        Some((id, end)) => {
            if end < n && n - end == 1 && bytes[end] == RBRACE {
                return Some(EncoderMessage(EncoderMessageType::ID(Some(id))));
            }
            None
        },
        None => None,
    }
}

} // verus!
