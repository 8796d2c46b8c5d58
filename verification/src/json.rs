//! Canonical JSON building blocks at the byte level.
//!
//! Every value the daemon writes on a stream or socket is canonical: object
//! keys in a fixed order, numbers in decimal without sign or leading zeros,
//! binary data as lowercase hexadecimal. Two string forms exist: the peer
//! envelope escapes minimally (only the quote and the backslash), while the
//! lines exchanged with the UI escape every control character as ordinary
//! JSON does. The spec functions here define those canonical byte forms; the
//! exec functions produce and consume them exactly.

use vstd::prelude::*;

verus! {

/// `"` — delimits JSON strings.
pub const QUOTE: u8 = 34;

/// `\` — starts an escape pair inside a JSON string.
pub const BACKSLASH: u8 = 92;

/// `{`
pub const LBRACE: u8 = 123;

/// `}`
pub const RBRACE: u8 = 125;

/// `[`
pub const LBRACKET: u8 = 91;

/// `]`
pub const RBRACKET: u8 = 93;

/// `:`
pub const COLON: u8 = 58;

/// `,`
pub const COMMA: u8 = 44;

/// Line feed — terminates every reply and broadcast line.
pub const NEWLINE: u8 = 10;

/// `0`
pub const DIGIT_ZERO: u8 = 48;

/// Numbers in canonical form stay below ten to the eighteenth, so they always
/// fit in a signed 64-bit integer and never need more than 18 digits.
pub const DEC_LIMIT: u64 = 1000000000000000000;

// --- String escaping ---

/// Escape of a single byte: quote and backslash take a leading backslash,
/// every other byte stands for itself.
pub open spec fn esc1(b: u8) -> Seq<u8> {
    if b == QUOTE || b == BACKSLASH {
        seq![BACKSLASH, b]
    } else {
        seq![b]
    }
}

/// Escape of a byte sequence, one byte at a time.
pub open spec fn escape(s: Seq<u8>) -> Seq<u8>
    decreases s.len(),
{
    if s.len() == 0 {
        Seq::empty()
    } else {
        esc1(s[0]) + escape(s.drop_first())
    }
}

/// A canonical JSON string: quote, escaped body, quote.
pub open spec fn spec_json_string(s: Seq<u8>) -> Seq<u8> {
    seq![QUOTE] + escape(s) + seq![QUOTE]
}

pub proof fn lemma_escape_append(a: Seq<u8>, b: Seq<u8>)
    ensures
        escape(a + b) == escape(a) + escape(b),
    decreases a.len(),
{
    if a.len() == 0 {
        assert(a + b =~= b);
        assert(escape(a) + escape(b) =~= escape(b));
    } else {
        assert((a + b).drop_first() =~= a.drop_first() + b);
        lemma_escape_append(a.drop_first(), b);
        assert(escape(a + b) =~= escape(a) + escape(b));
    }
}

/// Escaping a sequence without special bytes leaves it unchanged.
pub proof fn lemma_escape_plain(s: Seq<u8>)
    requires
        forall|i: int| 0 <= i < s.len() ==> s[i] != QUOTE && s[i] != BACKSLASH,
    ensures
        escape(s) == s,
    decreases s.len(),
{
    if s.len() > 0 {
        lemma_escape_plain(s.drop_first());
        assert(escape(s) =~= s);
    }
}

// --- Decimal numbers ---

pub open spec fn is_digit(b: u8) -> bool {
    48 <= b <= 57
}

/// Canonical decimal digits of a natural number, most significant first.
pub open spec fn dec(v: nat) -> Seq<u8>
    decreases v,
{
    if v < 10 {
        seq![(48 + v) as u8]
    } else {
        dec(v / 10) + seq![(48 + v % 10) as u8]
    }
}

pub proof fn lemma_dec_shape(v: nat)
    ensures
        dec(v).len() >= 1,
        forall|i: int| 0 <= i < dec(v).len() ==> is_digit(#[trigger] dec(v)[i]),
        v >= 1 ==> dec(v)[0] != DIGIT_ZERO,
        v == 0 ==> dec(v) == seq![DIGIT_ZERO],
    decreases v,
{
    if v >= 10 {
        lemma_dec_shape(v / 10);
    }
}

/// Ten to the `k`.
pub open spec fn pow10(k: nat) -> nat
    decreases k,
{
    if k == 0 {
        1
    } else {
        10 * pow10((k - 1) as nat)
    }
}

pub proof fn lemma_dec_len(v: nat, k: nat)
    requires
        k >= 1,
        v < pow10(k),
    ensures
        dec(v).len() <= k,
    decreases k,
{
    if v >= 10 {
        assert(v / 10 < pow10((k - 1) as nat)) by (nonlinear_arith)
            requires
                v < pow10(k),
                pow10(k) == 10 * pow10((k - 1) as nat),
                v >= 10,
        ;
        lemma_dec_len(v / 10, (k - 1) as nat);
    }
}

pub proof fn lemma_pow10_18()
    ensures
        pow10(18) == DEC_LIMIT,
{
    reveal_with_fuel(pow10, 19);
    assert(pow10(18) == DEC_LIMIT);
}

/// Appending one more digit to a nonzero number extends its decimal form.
pub proof fn lemma_dec_step(w: nat, d: nat)
    requires
        w >= 1,
        d < 10,
    ensures
        dec(w * 10 + d) == dec(w) + seq![(48 + d) as u8],
{
    assert((w * 10 + d) / 10 == w && (w * 10 + d) % 10 == d) by (nonlinear_arith)
        requires
            w >= 1,
            d < 10,
    ;
    assert(w * 10 + d >= 10) by (nonlinear_arith)
        requires
            w >= 1,
            d < 10,
    ;
}

// --- Lowercase hexadecimal ---

/// Lowercase hex digit of a value below 16.
pub open spec fn hex_digit(n: nat) -> u8 {
    if n < 10 {
        (48 + n) as u8
    } else {
        (87 + n) as u8
    }
}

/// Lowercase hex form of a byte sequence, two digits per byte.
pub open spec fn hex_of(b: Seq<u8>) -> Seq<u8>
    decreases b.len(),
{
    if b.len() == 0 {
        Seq::empty()
    } else {
        seq![hex_digit(b[0] as nat / 16), hex_digit(b[0] as nat % 16)] + hex_of(b.drop_first())
    }
}

pub proof fn lemma_hex_of_append(a: Seq<u8>, b: Seq<u8>)
    ensures
        hex_of(a + b) == hex_of(a) + hex_of(b),
    decreases a.len(),
{
    if a.len() == 0 {
        assert(a + b =~= b);
        assert(hex_of(a) + hex_of(b) =~= hex_of(b));
    } else {
        assert((a + b).drop_first() =~= a.drop_first() + b);
        lemma_hex_of_append(a.drop_first(), b);
        assert(hex_of(a + b) =~= hex_of(a) + hex_of(b));
    }
}

pub proof fn lemma_hex_of_shape(b: Seq<u8>)
    ensures
        hex_of(b).len() == 2 * b.len(),
        forall|i: int|
            0 <= i < hex_of(b).len() ==> is_hex_digit_lower(#[trigger] hex_of(b)[i]),
    decreases b.len(),
{
    if b.len() > 0 {
        lemma_hex_of_shape(b.drop_first());
    }
}

/// A lowercase hexadecimal digit byte.
pub open spec fn is_hex_digit_lower(c: u8) -> bool {
    (48 <= c <= 57) || (97 <= c <= 102)
}

/// A hexadecimal digit byte of either case.
pub open spec fn is_hex_digit(c: u8) -> bool {
    is_hex_digit_lower(c) || (65 <= c <= 70)
}

/// Numeric value of a hexadecimal digit byte of either case.
pub open spec fn hex_val(c: u8) -> nat {
    if 48 <= c <= 57 {
        (c - 48) as nat
    } else if 97 <= c <= 102 {
        (c - 87) as nat
    } else if 65 <= c <= 70 {
        (c - 55) as nat
    } else {
        0
    }
}

// --- Verified encoders ---

/// Append every byte of `s` to `out`.
pub fn push_all(out: &mut Vec<u8>, s: &[u8])
    ensures
        final(out)@ == old(out)@ + s@,
{
    let mut i: usize = 0;
    while i < s.len()
        invariant
            i <= s.len(),
            out@ == old(out)@ + s@.subrange(0, i as int),
        decreases s.len() - i,
    {
        out.push(s[i]);
        i = i + 1;
        proof {
            assert(out@ =~= old(out)@ + s@.subrange(0, i as int));
        }
    }
    proof {
        assert(out@ =~= old(out)@ + s@);
    }
}

/// Append the canonical JSON string form of `s` to `out`.
pub fn push_json_string(out: &mut Vec<u8>, s: &[u8])
    ensures
        final(out)@ == old(out)@ + spec_json_string(s@),
{
    out.push(QUOTE);
    let mut i: usize = 0;
    while i < s.len()
        invariant
            i <= s.len(),
            out@ == old(out)@ + seq![QUOTE] + escape(s@.subrange(0, i as int)),
        decreases s.len() - i,
    {
        let b = s[i];
        if b == QUOTE || b == BACKSLASH {
            out.push(BACKSLASH);
            out.push(b);
        } else {
            out.push(b);
        }
        proof {
            let pre = s@.subrange(0, i as int);
            lemma_escape_append(pre, seq![s@[i as int]]);
            assert(pre + seq![s@[i as int]] =~= s@.subrange(0, i as int + 1));
            assert(seq![s@[i as int]].drop_first() =~= Seq::<u8>::empty());
            assert(escape(Seq::<u8>::empty()) =~= Seq::<u8>::empty());
            assert(escape(seq![s@[i as int]]) =~= esc1(s@[i as int]));
            assert(out@ =~= old(out)@ + seq![QUOTE] + escape(s@.subrange(0, i as int + 1)));
        }
        i = i + 1;
    }
    proof {
        assert(s@.subrange(0, s@.len() as int) =~= s@);
    }
    out.push(QUOTE);
    proof {
        assert(out@ =~= old(out)@ + spec_json_string(s@));
    }
}

/// Append the canonical decimal form of `v` to `out`.
pub fn push_dec_u64(out: &mut Vec<u8>, v: u64)
    ensures
        final(out)@ == old(out)@ + dec(v as nat),
    decreases v,
{
    if v < 10 {
        out.push(48 + (v as u8));
    } else {
        push_dec_u64(out, v / 10);
        out.push(48 + ((v % 10) as u8));
        proof {
            assert(out@ =~= old(out)@ + dec(v as nat));
        }
    }
}

/// Append the lowercase hex form of `bytes` to `out`.
pub fn push_hex(out: &mut Vec<u8>, bytes: &[u8])
    ensures
        final(out)@ == old(out)@ + hex_of(bytes@),
{
    let mut i: usize = 0;
    while i < bytes.len()
        invariant
            i <= bytes.len(),
            out@ == old(out)@ + hex_of(bytes@.subrange(0, i as int)),
        decreases bytes.len() - i,
    {
        let b = bytes[i];
        let hi = b / 16;
        let lo = b % 16;
        out.push(if hi < 10 {
            48 + hi
        } else {
            87 + hi
        });
        out.push(if lo < 10 {
            48 + lo
        } else {
            87 + lo
        });
        proof {
            let pre = bytes@.subrange(0, i as int);
            lemma_hex_of_append(pre, seq![bytes@[i as int]]);
            assert(pre + seq![bytes@[i as int]] =~= bytes@.subrange(0, i as int + 1));
            assert(seq![bytes@[i as int]].drop_first() =~= Seq::<u8>::empty());
            assert(hex_of(Seq::<u8>::empty()) =~= Seq::<u8>::empty());
            assert(hex_of(seq![bytes@[i as int]]) =~= seq![
                hex_digit(bytes@[i as int] as nat / 16),
                hex_digit(bytes@[i as int] as nat % 16),
            ]);
            assert(out@ =~= old(out)@ + hex_of(bytes@.subrange(0, i as int + 1)));
        }
        i = i + 1;
    }
    proof {
        assert(bytes@.subrange(0, bytes@.len() as int) =~= bytes@);
    }
}

// --- Structure of escaped strings ---

/// No escape token begins with a quote, so a quote after `escape(out)` ends
/// the string; this lemma drives both parsing and uniqueness arguments.
/// Given that the input continues as `escape(s) + QUOTE + t`, with `escape(out)`
/// already consumed and `rest` still ahead, the first byte of `rest` decides
/// the next move uniquely.
#[verifier::rlimit(100)]
pub proof fn lemma_escape_step(s: Seq<u8>, out: Seq<u8>, rest: Seq<u8>, t: Seq<u8>)
    requires
        escape(s) + seq![QUOTE] + t == escape(out) + rest,
    ensures
        rest.len() >= 1,
        rest[0] == QUOTE ==> s == out && t == rest.drop_first(),
        rest[0] != QUOTE && rest[0] != BACKSLASH ==> out.len() < s.len() && escape(s) + seq![QUOTE]
            + t == escape(out.push(rest[0])) + rest.drop_first(),
        rest[0] == BACKSLASH ==> rest.len() >= 2 && (rest[1] == QUOTE || rest[1] == BACKSLASH)
            && out.len() < s.len() && escape(s) + seq![QUOTE] + t == escape(out.push(rest[1]))
            + rest.skip(2),
    decreases out.len(),
{
    let lhs = escape(s) + seq![QUOTE] + t;
    if out.len() == 0 {
        assert(escape(out) =~= Seq::<u8>::empty());
        assert(rest =~= lhs);
        if s.len() == 0 {
            assert(escape(s) =~= Seq::<u8>::empty());
            assert(rest[0] == QUOTE);
            assert(t =~= rest.drop_first());
        } else {
            let c = s[0];
            let s1 = s.drop_first();
            assert(escape(s) == esc1(c) + escape(s1));
            assert(escape(Seq::<u8>::empty()) =~= Seq::<u8>::empty());
            assert(out.push(c) =~= seq![c]);
            assert(seq![c].drop_first() =~= Seq::<u8>::empty());
            assert(escape(seq![c]) =~= esc1(c));
            if c == QUOTE || c == BACKSLASH {
                assert(rest[0] == BACKSLASH);
                assert(rest[1] == c);
                assert(escape(out.push(c)) + rest.skip(2) =~= lhs);
            } else {
                assert(rest[0] == c);
                assert(escape(out.push(c)) + rest.drop_first() =~= lhs);
            }
        }
    } else {
        let o0 = out[0];
        let out1 = out.drop_first();
        assert(escape(out) == esc1(o0) + escape(out1));
        if s.len() == 0 {
            // the left side would put a quote where an escape token begins
            assert(escape(s) =~= Seq::<u8>::empty());
            assert(lhs[0] == QUOTE);
            assert((escape(out) + rest)[0] == esc1(o0)[0]);
            assert(esc1(o0)[0] != QUOTE);
            assert(false);
        }
        let c = s[0];
        let s1 = s.drop_first();
        assert(escape(s) == esc1(c) + escape(s1));
        // token heads coincide, so the first raw bytes coincide
        if c == QUOTE || c == BACKSLASH {
            assert(lhs[0] == BACKSLASH);
            if !(o0 == QUOTE || o0 == BACKSLASH) {
                assert((escape(out) + rest)[0] == o0);
                assert(false);
            }
            assert(lhs[1] == c);
            assert((escape(out) + rest)[1] == o0);
            assert(c == o0);
        } else {
            assert(lhs[0] == c);
            if o0 == QUOTE || o0 == BACKSLASH {
                assert((escape(out) + rest)[0] == BACKSLASH);
                assert(false);
            }
            assert((escape(out) + rest)[0] == o0);
            assert(c == o0);
        }
        // cancel the shared token
        let w = esc1(c).len() as int;
        assert(esc1(c) =~= esc1(o0));
        let lhs1 = escape(s1) + seq![QUOTE] + t;
        assert(lhs1 =~= lhs.skip(w));
        assert(escape(out1) + rest =~= (escape(out) + rest).skip(w));
        lemma_escape_step(s1, out1, rest, t);
        if rest[0] != QUOTE && rest[0] != BACKSLASH {
            let b = rest[0];
            assert(out.push(b).drop_first() =~= out1.push(b));
            assert(out.push(b)[0] == o0);
            assert(escape(out.push(b)) == esc1(o0) + escape(out1.push(b)));
            assert(lhs1 == escape(out1.push(b)) + rest.drop_first());
            assert(lhs =~= esc1(o0) + lhs1);
            assert(esc1(o0) + (escape(out1.push(b)) + rest.drop_first()) =~= escape(out.push(b))
                + rest.drop_first());
            assert(escape(s) + seq![QUOTE] + t == escape(out.push(b)) + rest.drop_first());
        }
        if rest[0] == BACKSLASH {
            let b = rest[1];
            assert(out.push(b).drop_first() =~= out1.push(b));
            assert(out.push(b)[0] == o0);
            assert(escape(out.push(b)) == esc1(o0) + escape(out1.push(b)));
            assert(lhs1 == escape(out1.push(b)) + rest.skip(2));
            assert(lhs =~= esc1(o0) + lhs1);
            assert(esc1(o0) + (escape(out1.push(b)) + rest.skip(2)) =~= escape(out.push(b))
                + rest.skip(2));
            assert(escape(s) + seq![QUOTE] + t == escape(out.push(b)) + rest.skip(2));
        }
        if rest[0] == QUOTE {
            assert(s1 == out1);
            assert(s =~= seq![s[0]] + s1);
            assert(out =~= seq![out[0]] + out1);
            assert(s =~= out);
        }
    }
}

/// A canonical string with its terminating quote reads back in exactly one
/// way: equal encodings force equal bodies and equal remainders.
pub proof fn lemma_escape_unique(s1: Seq<u8>, t1: Seq<u8>, s2: Seq<u8>, t2: Seq<u8>)
    requires
        escape(s1) + seq![QUOTE] + t1 == escape(s2) + seq![QUOTE] + t2,
    ensures
        s1 == s2,
        t1 == t2,
{
    let rest = seq![QUOTE] + t2;
    assert(escape(s1) + seq![QUOTE] + t1 =~= escape(s2) + rest);
    lemma_escape_step(s1, s2, rest, t1);
    assert(t1 =~= rest.drop_first());
}

/// Where a canonical JSON string (body escaped, closing quote) spans
/// `data[pos..j]`.
pub open spec fn json_string_at(data: Seq<u8>, pos: int, s: Seq<u8>, j: int) -> bool {
    pos <= j <= data.len() && data.subrange(pos, j) == escape(s) + seq![QUOTE]
}

/// Read one canonical JSON string body that starts right after its opening
/// quote at `pos`; returns the raw bytes and the index after the closing
/// quote. Fails exactly when no canonical string starts there.
pub fn parse_json_string(data: &Vec<u8>, pos: usize) -> (r: Option<(Vec<u8>, usize)>)
    requires
        pos <= data@.len(),
    ensures
        match r {
            Some(p) => json_string_at(data@, pos as int, p.0@, p.1 as int),
            None => forall|s: Seq<u8>, j: int| !json_string_at(data@, pos as int, s, j),
        },
{
    let ghost all = data@.subrange(pos as int, data@.len() as int);
    let mut out: Vec<u8> = Vec::new();
    let mut i: usize = pos;
    loop
        invariant
            pos <= i <= data@.len(),
            data@.subrange(pos as int, i as int) == escape(out@),
        decreases data@.len() - i,
    {
        let ghost rest = data@.subrange(i as int, data@.len() as int);
        proof {
            assert(data@.subrange(pos as int, data@.len() as int) =~= escape(out@) + rest);
        }
        if i == data.len() {
            proof {
                assert forall|s: Seq<u8>, j: int| !json_string_at(data@, pos as int, s, j) by {
                    if json_string_at(data@, pos as int, s, j) {
                        let t = data@.subrange(j, data@.len() as int);
                        assert(escape(s) + seq![QUOTE] + t =~= escape(out@) + rest);
                        lemma_escape_step(s, out@, rest, t);
                        assert(rest.len() == 0);
                    }
                }
            }
            return None;
        }
        let b = data[i];
        if b == QUOTE {
            proof {
                assert(data@.subrange(pos as int, i as int + 1) =~= escape(out@) + seq![QUOTE]);
            }
            return Some((out, i + 1));
        }
        if b == BACKSLASH {
            if i + 1 < data.len() && (data[i + 1] == QUOTE || data[i + 1] == BACKSLASH) {
                let c = data[i + 1];
                proof {
                    lemma_escape_append(out@, seq![c]);
                    assert(seq![c].drop_first() =~= Seq::<u8>::empty());
                    assert(escape(Seq::<u8>::empty()) =~= Seq::<u8>::empty());
                    assert(escape(seq![c]) =~= esc1(c));
                    assert(out@ + seq![c] =~= out@.push(c));
                    assert(data@.subrange(pos as int, i as int + 2) =~= escape(out@)
                        + seq![BACKSLASH, c]);
                    assert(data@.subrange(pos as int, i as int + 2) =~= escape(out@.push(c)));
                }
                out.push(c);
                i = i + 2;
            } else {
                proof {
                    assert forall|s: Seq<u8>, j: int| !json_string_at(data@, pos as int, s, j) by {
                        if json_string_at(data@, pos as int, s, j) {
                            let t = data@.subrange(j, data@.len() as int);
                            assert(escape(s) + seq![QUOTE] + t =~= escape(out@) + rest);
                            lemma_escape_step(s, out@, rest, t);
                            assert(rest[0] == BACKSLASH);
                            assert(rest.len() >= 2 && (rest[1] == QUOTE || rest[1] == BACKSLASH));
                            assert(data@[i + 1] == rest[1]);
                        }
                    }
                }
                return None;
            }
        } else {
            proof {
                lemma_escape_append(out@, seq![b]);
                assert(seq![b].drop_first() =~= Seq::<u8>::empty());
                assert(escape(Seq::<u8>::empty()) =~= Seq::<u8>::empty());
                assert(escape(seq![b]) =~= esc1(b));
                assert(out@ + seq![b] =~= out@.push(b));
                assert(data@.subrange(pos as int, i as int + 1) =~= escape(out@) + seq![b]);
                assert(data@.subrange(pos as int, i as int + 1) =~= escape(out@.push(b)));
            }
            out.push(b);
            i = i + 1;
        }
    }
}

/// Match the exact bytes of `lit` at `pos`; succeeds with the index after the
/// match, exactly when the bytes are there.
pub fn match_lit(data: &Vec<u8>, pos: usize, lit: &[u8]) -> (r: Option<usize>)
    requires
        pos <= data@.len(),
    ensures
        match r {
            Some(j) => j == pos + lit@.len() && j <= data@.len() && data@.subrange(
                pos as int,
                j as int,
            ) == lit@,
            None => !(pos + lit@.len() <= data@.len() && data@.subrange(
                pos as int,
                pos + lit@.len(),
            ) == lit@),
        },
{
    let dlen: usize = data.len();
    if lit.len() > dlen - pos {
        return None;
    }
    let mut k: usize = 0;
    while k < lit.len()
        invariant
            k <= lit@.len(),
            dlen == data@.len(),
            pos + lit@.len() <= data@.len(),
            forall|m: int| 0 <= m < k ==> data@[pos + m] == lit@[m],
        decreases lit@.len() - k,
    {
        if data[pos + k] != lit[k] {
            proof {
                assert(data@.subrange(pos as int, pos + lit@.len())[k as int] != lit@[k as int]);
            }
            return None;
        }
        k = k + 1;
    }
    proof {
        assert(data@.subrange(pos as int, pos + lit@.len()) =~= lit@);
    }
    Some(pos + lit.len())
}

// --- Decimal parsing ---

/// Where the canonical decimal form of `v` spans `data[pos..j]` and is not
/// followed by a further digit.
pub open spec fn dec_at(data: Seq<u8>, pos: int, v: nat, j: int) -> bool {
    &&& pos <= j <= data.len()
    &&& v < DEC_LIMIT
    &&& data.subrange(pos, j) == dec(v)
    &&& (j == data.len() || !is_digit(data[j]))
}

pub proof fn lemma_dec_injective(a: nat, b: nat)
    requires
        dec(a) == dec(b),
    ensures
        a == b,
    decreases a,
{
    lemma_dec_shape(a);
    lemma_dec_shape(b);
    if a >= 10 && b >= 10 {
        assert(dec(a).last() == (48 + a % 10) as u8);
        assert(dec(b).last() == (48 + b % 10) as u8);
        assert(dec(a).drop_last() =~= dec(a / 10));
        assert(dec(b).drop_last() =~= dec(b / 10));
        lemma_dec_injective(a / 10, b / 10);
    } else if a < 10 && b < 10 {
        assert(dec(a)[0] == (48 + a) as u8);
    } else if a < 10 && b >= 10 {
        assert(dec(b).len() == dec(b / 10).len() + 1);
        assert(dec(b / 10).len() >= 1);
        assert(dec(a).len() == 1);
    } else {
        assert(dec(a).len() == dec(a / 10).len() + 1);
        assert(dec(a / 10).len() >= 1);
        assert(dec(b).len() == 1);
    }
}

/// The canonical number at a position, with its end, is unique.
pub proof fn lemma_dec_at_unique(data: Seq<u8>, pos: int, v1: nat, j1: int, v2: nat, j2: int)
    requires
        0 <= pos,
        dec_at(data, pos, v1, j1),
        dec_at(data, pos, v2, j2),
    ensures
        v1 == v2,
        j1 == j2,
{
    lemma_dec_shape(v1);
    lemma_dec_shape(v2);
    assert(data.subrange(pos, j1).len() == j1 - pos);
    assert(data.subrange(pos, j2).len() == j2 - pos);
    if j1 < j2 {
        assert(is_digit(dec(v2)[j1 - pos]));
        assert(data.subrange(pos, j2)[j1 - pos] == data[j1]);
        assert(false);
    }
    if j2 < j1 {
        assert(is_digit(dec(v1)[j2 - pos]));
        assert(data.subrange(pos, j1)[j2 - pos] == data[j2]);
        assert(false);
    }
    lemma_dec_injective(v1, v2);
}

pub proof fn lemma_pow10_monotone(a: nat, b: nat)
    requires
        a <= b,
    ensures
        pow10(a) <= pow10(b),
    decreases b,
{
    if a < b {
        lemma_pow10_monotone(a, (b - 1) as nat);
        assert(pow10(b) == 10 * pow10((b - 1) as nat));
    }
}

/// Read one canonical decimal number starting at `pos`; returns its value and
/// the index after its digits. Fails exactly when no canonical number below
/// [`DEC_LIMIT`] stands there.
pub fn parse_dec_u64(data: &Vec<u8>, pos: usize) -> (r: Option<(u64, usize)>)
    requires
        pos <= data@.len(),
    ensures
        match r {
            Some(p) => dec_at(data@, pos as int, p.0 as nat, p.1 as int),
            None => forall|v: nat, j: int| !dec_at(data@, pos as int, v, j),
        },
{
    proof {
        lemma_pow10_18();
    }
    if pos == data.len() || !(48 <= data[pos] && data[pos] <= 57) {
        proof {
            assert forall|v: nat, j: int| !dec_at(data@, pos as int, v, j) by {
                if dec_at(data@, pos as int, v, j) {
                    lemma_dec_shape(v);
                    assert(data@.subrange(pos as int, j)[0] == data@[pos as int]);
                }
            }
        }
        return None;
    }
    if data[pos] == DIGIT_ZERO {
        if pos + 1 < data.len() && 48 <= data[pos + 1] && data[pos + 1] <= 57 {
            proof {
                assert forall|v: nat, j: int| !dec_at(data@, pos as int, v, j) by {
                    if dec_at(data@, pos as int, v, j) {
                        lemma_dec_shape(v);
                        assert(data@.subrange(pos as int, j)[0] == data@[pos as int]);
                        assert(dec(v)[0] == DIGIT_ZERO);
                        assert(v == 0);
                        assert(dec(v).len() == 1);
                        assert(j == pos + 1);
                    }
                }
            }
            return None;
        }
        proof {
            assert(data@.subrange(pos as int, pos as int + 1) =~= dec(0));
        }
        return Some((0, pos + 1));
    }
    let mut w: u64 = (data[pos] - 48) as u64;
    let mut i: usize = pos + 1;
    proof {
        assert(data@.subrange(pos as int, pos as int + 1) =~= dec(w as nat));
        lemma_pow10_monotone(1, 18);
        assert(pow10(1) == 10 * pow10(0));
    }
    loop
        invariant
            pos < i <= data@.len(),
            i - pos <= 18,
            1 <= w,
            (w as nat) < pow10((i - pos) as nat),
            pow10((i - pos) as nat) <= DEC_LIMIT,
            DEC_LIMIT == pow10(18),
            data@.subrange(pos as int, i as int) == dec(w as nat),
            forall|m: int| pos <= m < i ==> is_digit(data@[m]),
        decreases data@.len() - i,
    {
        if i == data.len() || !(48 <= data[i] && data[i] <= 57) {
            return Some((w, i));
        }
        if i - pos == 18 {
            proof {
                assert forall|v: nat, j: int| !dec_at(data@, pos as int, v, j) by {
                    if dec_at(data@, pos as int, v, j) {
                        lemma_dec_len(v, 18);
                        assert(j - pos == dec(v).len());
                        assert(j <= pos + 18);
                        assert(is_digit(data@[j]));
                    }
                }
            }
            return None;
        }
        let d = data[i] - 48;
        proof {
            lemma_dec_step(w as nat, d as nat);
            assert(pow10(((i + 1) - pos) as nat) == 10 * pow10((i - pos) as nat));
            assert((w as nat) * 10 + d < pow10(((i + 1) - pos) as nat)) by (nonlinear_arith)
                requires
                    (w as nat) < pow10((i - pos) as nat),
                    d < 10,
                    pow10(((i + 1) - pos) as nat) == 10 * pow10((i - pos) as nat),
            ;
            lemma_pow10_monotone(((i + 1) - pos) as nat, 18);
            assert(data@.subrange(pos as int, i as int + 1) =~= dec(w as nat) + seq![
                (48 + d) as u8,
            ]);
        }
        w = w * 10 + (d as u64);
        i = i + 1;
    }
}

// --- Hexadecimal parsing ---

/// Decode a strict lowercase hex sequence; succeeds exactly when the whole
/// input is the canonical hex form of some byte sequence.
pub fn hex_decode_lower(h: &[u8]) -> (r: Option<Vec<u8>>)
    ensures
        match r {
            Some(b) => h@ == hex_of(b@),
            None => forall|b: Seq<u8>| h@ != hex_of(b),
        },
{
    if h.len() % 2 != 0 {
        proof {
            assert forall|b: Seq<u8>| h@ != hex_of(b) by {
                lemma_hex_of_shape(b);
            }
        }
        return None;
    }
    let mut out: Vec<u8> = Vec::new();
    let mut i: usize = 0;
    while i < h.len()
        invariant
            i <= h@.len(),
            i % 2 == 0,
            h@.len() % 2 == 0,
            out@.len() * 2 == i,
            h@.subrange(0, i as int) == hex_of(out@),
        decreases h@.len() - i,
    {
        let c1 = h[i];
        let c2 = h[i + 1];
        let v1 = if 48 <= c1 && c1 <= 57 {
            c1 - 48
        } else if 97 <= c1 && c1 <= 102 {
            c1 - 87
        } else {
            proof {
                assert forall|b: Seq<u8>| h@ != hex_of(b) by {
                    if h@ == hex_of(b) {
                        lemma_hex_of_shape(b);
                        assert(is_hex_digit_lower(hex_of(b)[i as int]));
                    }
                }
            }
            return None;
        };
        let v2 = if 48 <= c2 && c2 <= 57 {
            c2 - 48
        } else if 97 <= c2 && c2 <= 102 {
            c2 - 87
        } else {
            proof {
                assert forall|b: Seq<u8>| h@ != hex_of(b) by {
                    if h@ == hex_of(b) {
                        lemma_hex_of_shape(b);
                        assert(is_hex_digit_lower(hex_of(b)[i as int + 1]));
                    }
                }
            }
            return None;
        };
        let x = v1 * 16 + v2;
        proof {
            let pre = out@;
            lemma_hex_of_append(pre, seq![x]);
            assert(seq![x].drop_first() =~= Seq::<u8>::empty());
            assert(hex_of(Seq::<u8>::empty()) =~= Seq::<u8>::empty());
            assert(x as nat / 16 == v1 as nat && x as nat % 16 == v2 as nat) by (nonlinear_arith)
                requires
                    x == v1 * 16 + v2,
                    v1 < 16,
                    v2 < 16,
            ;
            assert(hex_of(seq![x]) =~= seq![hex_digit(v1 as nat), hex_digit(v2 as nat)]);
            assert(hex_digit(v1 as nat) == c1);
            assert(hex_digit(v2 as nat) == c2);
            assert(h@.subrange(0, i as int + 2) =~= hex_of(pre) + seq![c1, c2]);
            assert(pre + seq![x] =~= pre.push(x));
            assert(h@.subrange(0, i as int + 2) =~= hex_of(pre.push(x)));
        }
        out.push(x);
        i = i + 2;
    }
    proof {
        assert(h@.subrange(0, h@.len() as int) =~= h@);
    }
    Some(out)
}

/// Two byte sequences with the same hex form are the same.
pub proof fn lemma_hex_of_injective(a: Seq<u8>, b: Seq<u8>)
    requires
        hex_of(a) == hex_of(b),
    ensures
        a == b,
    decreases a.len(),
{
    lemma_hex_of_shape(a);
    lemma_hex_of_shape(b);
    if a.len() == 0 {
        assert(b.len() == 0);
        assert(a =~= b);
    } else {
        assert(hex_of(a)[0] == hex_digit(a[0] as nat / 16));
        assert(hex_of(b)[0] == hex_digit(b[0] as nat / 16));
        assert(hex_of(a)[1] == hex_digit(a[0] as nat % 16));
        assert(hex_of(b)[1] == hex_digit(b[0] as nat % 16));
        assert(a[0] as nat / 16 == b[0] as nat / 16 && a[0] as nat % 16 == b[0] as nat % 16);
        assert(a[0] == b[0]);
        assert(hex_of(a.drop_first()) =~= hex_of(a).skip(2));
        assert(hex_of(b.drop_first()) =~= hex_of(b).skip(2));
        lemma_hex_of_injective(a.drop_first(), b.drop_first());
        assert forall|i: int| 0 <= i < a.len() implies a[i] == b[i] by {
            if i > 0 {
                assert(a.drop_first()[i - 1] == b.drop_first()[i - 1]);
            }
        }
        assert(a =~= b);
    }
}

/// The byte sequence a hex sequence of either case stands for, two digits
/// per byte.
pub open spec fn hex_decoded(h: Seq<u8>) -> Seq<u8> {
    Seq::new((h.len() / 2) as nat, |k: int| (16 * hex_val(h[2 * k]) + hex_val(h[2 * k + 1])) as u8)
}

/// Decoding the lowercase hex form of a byte sequence gives it back.
pub proof fn lemma_hex_decoded_of(b: Seq<u8>)
    ensures
        hex_decoded(hex_of(b)) == b,
        forall|i: int| 0 <= i < hex_of(b).len() ==> is_hex_digit(#[trigger] hex_of(b)[i]),
        hex_of(b).len() % 2 == 0,
{
    lemma_hex_of_shape(b);
    lemma_hex_decoded_of_rec(b);
}

proof fn lemma_hex_decoded_of_rec(b: Seq<u8>)
    ensures
        hex_decoded(hex_of(b)) == b,
    decreases b.len(),
{
    lemma_hex_of_shape(b);
    let h = hex_of(b);
    assert forall|k: int| 0 <= k < b.len() implies hex_decoded(h)[k] == b[k] by {
        lemma_hex_pair(b, k);
    }
    assert(hex_decoded(h) =~= b);
}

proof fn lemma_hex_pair(b: Seq<u8>, k: int)
    requires
        0 <= k < b.len(),
    ensures
        hex_of(b)[2 * k] == hex_digit(b[k] as nat / 16),
        hex_of(b)[2 * k + 1] == hex_digit(b[k] as nat % 16),
        16 * hex_val(hex_digit(b[k] as nat / 16)) + hex_val(hex_digit(b[k] as nat % 16)) == b[k],
    decreases b.len(),
{
    lemma_hex_of_shape(b.drop_first());
    if k == 0 {
    } else {
        lemma_hex_pair(b.drop_first(), k - 1);
        assert(b.drop_first()[k - 1] == b[k]);
        assert(hex_of(b)[2 * k] == hex_of(b.drop_first())[2 * (k - 1)]);
        assert(hex_of(b)[2 * k + 1] == hex_of(b.drop_first())[2 * (k - 1) + 1]);
    }
}

/// Decode hex digits of either case, two per byte; succeeds exactly when the
/// length is even and every byte is a hex digit.
pub fn hex_decode(h: &[u8]) -> (r: Option<Vec<u8>>)
    ensures
        r is Some <==> h@.len() % 2 == 0 && (forall|i: int|
            0 <= i < h@.len() ==> is_hex_digit(#[trigger] h@[i])),
        r is Some ==> {
            let b = r->0@;
            &&& b.len() * 2 == h@.len()
            &&& forall|k: int|
                0 <= k < b.len() ==> b[k] as nat == 16 * hex_val(h@[2 * k]) + hex_val(
                    h@[2 * k + 1],
                )
        },
{
    if h.len() % 2 != 0 {
        return None;
    }
    let mut out: Vec<u8> = Vec::new();
    let mut i: usize = 0;
    while i < h.len()
        invariant
            i <= h@.len(),
            i % 2 == 0,
            h@.len() % 2 == 0,
            out@.len() * 2 == i,
            forall|m: int| 0 <= m < i ==> is_hex_digit(#[trigger] h@[m]),
            forall|k: int|
                0 <= k < out@.len() ==> out@[k] as nat == 16 * hex_val(h@[2 * k]) + hex_val(
                    h@[2 * k + 1],
                ),
        decreases h@.len() - i,
    {
        let c1 = h[i];
        let c2 = h[i + 1];
        let v1 = if 48 <= c1 && c1 <= 57 {
            c1 - 48
        } else if 97 <= c1 && c1 <= 102 {
            c1 - 87
        } else if 65 <= c1 && c1 <= 70 {
            c1 - 55
        } else {
            return None;
        };
        let v2 = if 48 <= c2 && c2 <= 57 {
            c2 - 48
        } else if 97 <= c2 && c2 <= 102 {
            c2 - 87
        } else if 65 <= c2 && c2 <= 70 {
            c2 - 55
        } else {
            return None;
        };
        out.push(v1 * 16 + v2);
        i = i + 2;
    }
    Some(out)
}

// --- JSON-proper strings for the IPC surface ---
//
// Lines exchanged with the UI are ordinary JSON: control bytes inside
// strings are escaped the way serde-style serializers write them — the five
// named escapes for backspace, tab, newline, form feed and carriage return,
// and `\u00XX` for the remaining control bytes. The peer envelope keeps its
// own minimal canonical form above; these functions govern requests,
// replies and broadcast lines.

/// A control byte with a named short escape.
pub open spec fn is_short_escaped(b: u8) -> bool {
    b == 34 || b == 92 || b == 8 || b == 9 || b == 10 || b == 12 || b == 13
}

/// The letter of a named escape: `\"`, `\\`, `\b`, `\t`, `\n`, `\f`, `\r`.
pub open spec fn short_code(b: u8) -> u8 {
    if b == 34 {
        34
    } else if b == 92 {
        92
    } else if b == 8 {
        98
    } else if b == 9 {
        116
    } else if b == 10 {
        110
    } else if b == 12 {
        102
    } else {
        114
    }
}

/// JSON escape of a single byte.
pub open spec fn jesc1(b: u8) -> Seq<u8> {
    if is_short_escaped(b) {
        seq![92u8, short_code(b)]
    } else if b < 32 {
        seq![92u8, 117, 48, 48, hex_digit(b as nat / 16), hex_digit(b as nat % 16)]
    } else {
        seq![b]
    }
}

/// JSON escape of a byte sequence, one byte at a time.
pub open spec fn jescape(s: Seq<u8>) -> Seq<u8>
    decreases s.len(),
{
    if s.len() == 0 {
        Seq::empty()
    } else {
        jesc1(s[0]) + jescape(s.drop_first())
    }
}

/// A JSON string: quote, escaped body, quote.
pub open spec fn spec_jstring(s: Seq<u8>) -> Seq<u8> {
    seq![34u8] + jescape(s) + seq![34u8]
}

pub proof fn lemma_jescape_append(a: Seq<u8>, b: Seq<u8>)
    ensures
        jescape(a + b) == jescape(a) + jescape(b),
    decreases a.len(),
{
    if a.len() == 0 {
        assert(a + b =~= b);
        assert(jescape(a) + jescape(b) =~= jescape(b));
    } else {
        assert((a + b).drop_first() =~= a.drop_first() + b);
        lemma_jescape_append(a.drop_first(), b);
        assert(jescape(a + b) =~= jescape(a) + jescape(b));
    }
}

/// Append the JSON string form of `s` to `out`.
pub fn push_jstring(out: &mut Vec<u8>, s: &[u8])
    ensures
        final(out)@ == old(out)@ + spec_jstring(s@),
{
    out.push(34);
    let mut i: usize = 0;
    while i < s.len()
        invariant
            i <= s.len(),
            out@ == old(out)@ + seq![34u8] + jescape(s@.subrange(0, i as int)),
        decreases s.len() - i,
    {
        let b = s[i];
        if b == 34 {
            out.push(92);
            out.push(34);
        } else if b == 92 {
            out.push(92);
            out.push(92);
        } else if b == 8 {
            out.push(92);
            out.push(98);
        } else if b == 9 {
            out.push(92);
            out.push(116);
        } else if b == 10 {
            out.push(92);
            out.push(110);
        } else if b == 12 {
            out.push(92);
            out.push(102);
        } else if b == 13 {
            out.push(92);
            out.push(114);
        } else if b < 32 {
            out.push(92);
            out.push(117);
            out.push(48);
            out.push(48);
            out.push(if b / 16 < 10 {
                48 + b / 16
            } else {
                87 + b / 16
            });
            out.push(if b % 16 < 10 {
                48 + b % 16
            } else {
                87 + b % 16
            });
        } else {
            out.push(b);
        }
        proof {
            let pre = s@.subrange(0, i as int);
            lemma_jescape_append(pre, seq![s@[i as int]]);
            assert(pre + seq![s@[i as int]] =~= s@.subrange(0, i as int + 1));
            assert(seq![s@[i as int]].drop_first() =~= Seq::<u8>::empty());
            assert(jescape(Seq::<u8>::empty()) =~= Seq::<u8>::empty());
            assert(jescape(seq![s@[i as int]]) =~= jesc1(s@[i as int]));
            assert(out@ =~= old(out)@ + seq![34u8] + jescape(s@.subrange(0, i as int + 1)));
        }
        i = i + 1;
    }
    proof {
        assert(s@.subrange(0, s@.len() as int) =~= s@);
    }
    out.push(34);
    proof {
        assert(out@ =~= old(out)@ + spec_jstring(s@));
    }
}

/// No JSON escape token begins with a quote, so the first byte of the
/// remainder decides the next move uniquely, as with the canonical form.
#[verifier::rlimit(100)]
pub proof fn lemma_jescape_step(s: Seq<u8>, out: Seq<u8>, rest: Seq<u8>, t: Seq<u8>)
    requires
        jescape(s) + seq![34u8] + t == jescape(out) + rest,
    ensures
        rest.len() >= 1,
        rest[0] == 34 ==> s == out && t == rest.drop_first(),
        rest[0] != 34 && rest[0] != 92 ==> rest[0] >= 32 && out.len() < s.len() && jescape(s)
            + seq![34u8] + t == jescape(out.push(rest[0])) + rest.drop_first(),
        rest[0] == 92 ==> rest.len() >= 2 && ((rest[1] != 117 && is_short_escaped(decode_short(
            rest[1],
        )) && short_code(decode_short(rest[1])) == rest[1] && out.len() < s.len() && jescape(s)
            + seq![34u8] + t == jescape(out.push(decode_short(rest[1]))) + rest.skip(2)) || (
        rest[1] == 117 && rest.len() >= 6 && rest[2] == 48 && rest[3] == 48 && ({
            let v = (16 * hex_val(rest[4]) + hex_val(rest[5])) as u8;
            &&& rest[4] == hex_digit(v as nat / 16)
            &&& rest[5] == hex_digit(v as nat % 16)
            &&& v < 32
            &&& !is_short_escaped(v)
            &&& out.len() < s.len()
            &&& jescape(s) + seq![34u8] + t == jescape(out.push(v)) + rest.skip(6)
        }))),
    decreases out.len(),
{
    let lhs = jescape(s) + seq![34u8] + t;
    if out.len() == 0 {
        assert(jescape(out) =~= Seq::<u8>::empty());
        assert(rest =~= lhs);
        if s.len() == 0 {
            assert(jescape(s) =~= Seq::<u8>::empty());
            assert(rest[0] == 34);
            assert(t =~= rest.drop_first());
        } else {
            let c = s[0];
            let s1 = s.drop_first();
            assert(jescape(s) == jesc1(c) + jescape(s1));
            assert(jescape(Seq::<u8>::empty()) =~= Seq::<u8>::empty());
            assert(out.push(c) =~= seq![c]);
            assert(seq![c].drop_first() =~= Seq::<u8>::empty());
            assert(jescape(seq![c]) =~= jesc1(c));
            if is_short_escaped(c) {
                assert(rest[0] == 92 && rest[1] == short_code(c));
                assert(rest[1] != 117);
                assert(decode_short(rest[1]) == c);
                assert(jescape(out.push(c)) + rest.skip(2) =~= lhs);
            } else if c < 32 {
                assert(rest[0] == 92 && rest[1] == 117 && rest[2] == 48 && rest[3] == 48);
                assert(rest[4] == hex_digit(c as nat / 16) && rest[5] == hex_digit(c as nat % 16));
                assert(hex_val(hex_digit(c as nat / 16)) == c as nat / 16);
                assert(hex_val(hex_digit(c as nat % 16)) == c as nat % 16);
                assert((16 * hex_val(rest[4]) + hex_val(rest[5])) as u8 == c);
                assert(jescape(out.push(c)) + rest.skip(6) =~= lhs);
            } else {
                assert(rest[0] == c);
                assert(jescape(out.push(c)) + rest.drop_first() =~= lhs);
            }
        }
    } else {
        let o0 = out[0];
        let out1 = out.drop_first();
        assert(jescape(out) == jesc1(o0) + jescape(out1));
        if s.len() == 0 {
            assert(jescape(s) =~= Seq::<u8>::empty());
            assert(lhs[0] == 34);
            assert((jescape(out) + rest)[0] == jesc1(o0)[0]);
            assert(jesc1(o0)[0] != 34);
            assert(false);
        }
        let c = s[0];
        let s1 = s.drop_first();
        assert(jescape(s) == jesc1(c) + jescape(s1));
        // the first tokens read the same bytes, so they are the same token
        assert(lhs[0] == jesc1(c)[0]);
        assert((jescape(out) + rest)[0] == jesc1(o0)[0]);
        if is_short_escaped(c) || c < 32 {
            assert(lhs[0] == 92);
            if !(is_short_escaped(o0) || o0 < 32) {
                assert((jescape(out) + rest)[0] == o0);
                assert(false);
            }
        } else {
            assert(lhs[0] == c && c != 92);
            if is_short_escaped(o0) || o0 < 32 {
                assert((jescape(out) + rest)[0] == 92);
                assert(false);
            }
        }
        if is_short_escaped(c) && o0 < 32 && !is_short_escaped(o0) {
            assert(lhs[1] == short_code(c));
            assert((jescape(out) + rest)[1] == 117);
            assert(short_code(c) != 117);
            assert(false);
        }
        if c < 32 && !is_short_escaped(c) && is_short_escaped(o0) {
            assert(lhs[1] == 117);
            assert((jescape(out) + rest)[1] == short_code(o0));
            assert(short_code(o0) != 117);
            assert(false);
        }
        if is_short_escaped(c) && is_short_escaped(o0) {
            assert(lhs[1] == short_code(c));
            assert((jescape(out) + rest)[1] == short_code(o0));
            assert(short_code(c) == short_code(o0));
            assert(c == o0);
        } else if c < 32 && !is_short_escaped(c) && o0 < 32 && !is_short_escaped(o0) {
            assert(lhs[4] == hex_digit(c as nat / 16) && lhs[5] == hex_digit(c as nat % 16));
            assert((jescape(out) + rest)[4] == hex_digit(o0 as nat / 16));
            assert((jescape(out) + rest)[5] == hex_digit(o0 as nat % 16));
            assert(hex_val(hex_digit(c as nat / 16)) == c as nat / 16);
            assert(hex_val(hex_digit(o0 as nat / 16)) == o0 as nat / 16);
            assert(hex_val(hex_digit(c as nat % 16)) == c as nat % 16);
            assert(hex_val(hex_digit(o0 as nat % 16)) == o0 as nat % 16);
            assert(c == o0);
        } else {
            assert(c == o0);
        }
        let w = jesc1(c).len() as int;
        assert(jesc1(c) =~= jesc1(o0));
        let lhs1 = jescape(s1) + seq![34u8] + t;
        assert(lhs1 =~= lhs.skip(w));
        assert(jescape(out1) + rest =~= (jescape(out) + rest).skip(w));
        lemma_jescape_step(s1, out1, rest, t);
        if rest[0] != 34 && rest[0] != 92 {
            let b = rest[0];
            assert(out.push(b).drop_first() =~= out1.push(b));
            assert(out.push(b)[0] == o0);
            assert(jescape(out.push(b)) == jesc1(o0) + jescape(out1.push(b)));
            assert(lhs1 == jescape(out1.push(b)) + rest.drop_first());
            assert(lhs =~= jesc1(o0) + lhs1);
            assert(jesc1(o0) + (jescape(out1.push(b)) + rest.drop_first()) =~= jescape(out.push(b))
                + rest.drop_first());
            assert(jescape(s) + seq![34u8] + t == jescape(out.push(b)) + rest.drop_first());
        }
        if rest[0] == 92 && rest[1] != 117 {
            let b = decode_short(rest[1]);
            assert(out.push(b).drop_first() =~= out1.push(b));
            assert(out.push(b)[0] == o0);
            assert(jescape(out.push(b)) == jesc1(o0) + jescape(out1.push(b)));
            assert(lhs1 == jescape(out1.push(b)) + rest.skip(2));
            assert(lhs =~= jesc1(o0) + lhs1);
            assert(jesc1(o0) + (jescape(out1.push(b)) + rest.skip(2)) =~= jescape(out.push(b))
                + rest.skip(2));
            assert(jescape(s) + seq![34u8] + t == jescape(out.push(b)) + rest.skip(2));
        }
        if rest[0] == 92 && rest[1] == 117 {
            let v = (16 * hex_val(rest[4]) + hex_val(rest[5])) as u8;
            assert(out.push(v).drop_first() =~= out1.push(v));
            assert(out.push(v)[0] == o0);
            assert(jescape(out.push(v)) == jesc1(o0) + jescape(out1.push(v)));
            assert(lhs1 == jescape(out1.push(v)) + rest.skip(6));
            assert(lhs =~= jesc1(o0) + lhs1);
            assert(jesc1(o0) + (jescape(out1.push(v)) + rest.skip(6)) =~= jescape(out.push(v))
                + rest.skip(6));
            assert(jescape(s) + seq![34u8] + t == jescape(out.push(v)) + rest.skip(6));
        }
        if rest[0] == 34 {
            assert(s1 == out1);
            assert(s =~= seq![s[0]] + s1);
            assert(out =~= seq![out[0]] + out1);
            assert(s =~= out);
        }
    }
}

/// The byte a named escape letter stands for.
pub open spec fn decode_short(c: u8) -> u8 {
    if c == 34 {
        34
    } else if c == 92 {
        92
    } else if c == 98 {
        8
    } else if c == 116 {
        9
    } else if c == 110 {
        10
    } else if c == 102 {
        12
    } else if c == 114 {
        13
    } else {
        0
    }
}

/// A JSON string with its terminating quote reads back in exactly one way.
pub proof fn lemma_jescape_unique(s1: Seq<u8>, t1: Seq<u8>, s2: Seq<u8>, t2: Seq<u8>)
    requires
        jescape(s1) + seq![34u8] + t1 == jescape(s2) + seq![34u8] + t2,
    ensures
        s1 == s2,
        t1 == t2,
{
    let rest = seq![34u8] + t2;
    assert(jescape(s1) + seq![34u8] + t1 =~= jescape(s2) + rest);
    lemma_jescape_step(s1, s2, rest, t1);
    assert(t1 =~= rest.drop_first());
}

/// Where a JSON string (body escaped, closing quote) spans `data[pos..j]`.
pub open spec fn jstring_at(data: Seq<u8>, pos: int, s: Seq<u8>, j: int) -> bool {
    pos <= j <= data.len() && data.subrange(pos, j) == jescape(s) + seq![34u8]
}

/// Read one JSON string body that starts right after its opening quote at
/// `pos`. Fails exactly when no JSON string in serde's escape repertoire
/// starts there.
#[verifier::rlimit(100)]
pub fn parse_jstring(data: &Vec<u8>, pos: usize) -> (r: Option<(Vec<u8>, usize)>)
    requires
        pos <= data@.len(),
    ensures
        match r {
            Some(p) => jstring_at(data@, pos as int, p.0@, p.1 as int),
            None => forall|s: Seq<u8>, j: int| !jstring_at(data@, pos as int, s, j),
        },
{
    let mut out: Vec<u8> = Vec::new();
    let mut i: usize = pos;
    loop
        invariant
            pos <= i <= data@.len(),
            data@.subrange(pos as int, i as int) == jescape(out@),
        decreases data@.len() - i,
    {
        let ghost rest = data@.subrange(i as int, data@.len() as int);
        proof {
            assert(data@.subrange(pos as int, data@.len() as int) =~= jescape(out@) + rest);
        }
        if i == data.len() {
            proof {
                assert forall|s: Seq<u8>, j: int| !jstring_at(data@, pos as int, s, j) by {
                    if jstring_at(data@, pos as int, s, j) {
                        let t = data@.subrange(j, data@.len() as int);
                        assert(jescape(s) + seq![34u8] + t =~= jescape(out@) + rest);
                        lemma_jescape_step(s, out@, rest, t);
                        assert(rest.len() == 0);
                    }
                }
            }
            return None;
        }
        let b = data[i];
        if b == 34 {
            proof {
                assert(data@.subrange(pos as int, i as int + 1) =~= jescape(out@) + seq![34u8]);
            }
            return Some((out, i + 1));
        }
        if b == 92 {
            let ok = if i + 1 < data.len() {
                let c = data[i + 1];
                if c == 34 || c == 92 || c == 98 || c == 116 || c == 110 || c == 102 || c == 114 {
                    let v = if c == 34 {
                        34u8
                    } else if c == 92 {
                        92
                    } else if c == 98 {
                        8
                    } else if c == 116 {
                        9
                    } else if c == 110 {
                        10
                    } else if c == 102 {
                        12
                    } else {
                        13
                    };
                    proof {
                        lemma_jescape_append(out@, seq![v]);
                        assert(seq![v].drop_first() =~= Seq::<u8>::empty());
                        assert(jescape(Seq::<u8>::empty()) =~= Seq::<u8>::empty());
                        assert(jescape(seq![v]) =~= jesc1(v));
                        assert(out@ + seq![v] =~= out@.push(v));
                        assert(data@.subrange(pos as int, i as int + 2) =~= jescape(out@) + seq![
                            92u8,
                            c,
                        ]);
                        assert(data@.subrange(pos as int, i as int + 2) =~= jescape(out@.push(v)));
                    }
                    out.push(v);
                    i = i + 2;
                    true
                } else if c == 117 && data.len() - i > 5 && data[i + 2] == 48 && data[i + 3] == 48 {
                    let h1 = data[i + 4];
                    let h2 = data[i + 5];
                    let v1 = if 48 <= h1 && h1 <= 57 {
                        h1 - 48
                    } else if 97 <= h1 && h1 <= 102 {
                        h1 - 87
                    } else {
                        16
                    };
                    let v2 = if 48 <= h2 && h2 <= 57 {
                        h2 - 48
                    } else if 97 <= h2 && h2 <= 102 {
                        h2 - 87
                    } else {
                        16
                    };
                    if v1 < 16 && v2 < 16 {
                        let v = v1 * 16 + v2;
                        if v < 32 && !(v == 8 || v == 9 || v == 10 || v == 12 || v == 13) {
                            proof {
                                lemma_jescape_append(out@, seq![v]);
                                assert(seq![v].drop_first() =~= Seq::<u8>::empty());
                                assert(jescape(Seq::<u8>::empty()) =~= Seq::<u8>::empty());
                                assert(hex_digit(v as nat / 16) == h1 && hex_digit(v as nat % 16)
                                    == h2) by {
                                    assert(v as nat / 16 == v1 as nat && v as nat % 16 == v2 as nat)
                                        by (nonlinear_arith)
                                        requires
                                            v == v1 * 16 + v2,
                                            v1 < 16,
                                            v2 < 16,
                                    ;
                                }
                                assert(jescape(seq![v]) =~= jesc1(v));
                                assert(out@ + seq![v] =~= out@.push(v));
                                assert(data@.subrange(pos as int, i as int + 6) =~= jescape(out@)
                                    + seq![92u8, 117, 48, 48, h1, h2]);
                                assert(data@.subrange(pos as int, i as int + 6) =~= jescape(
                                    out@.push(v),
                                ));
                            }
                            out.push(v);
                            i = i + 6;
                            true
                        } else {
                            false
                        }
                    } else {
                        false
                    }
                } else {
                    false
                }
            } else {
                false
            };
            if !ok {
                proof {
                    assert forall|s: Seq<u8>, j: int| !jstring_at(data@, pos as int, s, j) by {
                        if jstring_at(data@, pos as int, s, j) {
                            let t = data@.subrange(j, data@.len() as int);
                            assert(jescape(s) + seq![34u8] + t =~= jescape(out@) + rest);
                            lemma_jescape_step(s, out@, rest, t);
                        }
                    }
                }
                return None;
            }
        } else if b < 32 {
            proof {
                assert forall|s: Seq<u8>, j: int| !jstring_at(data@, pos as int, s, j) by {
                    if jstring_at(data@, pos as int, s, j) {
                        let t = data@.subrange(j, data@.len() as int);
                        assert(jescape(s) + seq![34u8] + t =~= jescape(out@) + rest);
                        lemma_jescape_step(s, out@, rest, t);
                    }
                }
            }
            return None;
        } else {
            proof {
                lemma_jescape_append(out@, seq![b]);
                assert(seq![b].drop_first() =~= Seq::<u8>::empty());
                assert(jescape(Seq::<u8>::empty()) =~= Seq::<u8>::empty());
                assert(jescape(seq![b]) =~= jesc1(b));
                assert(out@ + seq![b] =~= out@.push(b));
                assert(data@.subrange(pos as int, i as int + 1) =~= jescape(out@) + seq![b]);
                assert(data@.subrange(pos as int, i as int + 1) =~= jescape(out@.push(b)));
            }
            out.push(b);
            i = i + 1;
        }
    }
}

} // verus!
