use vstd::arithmetic::power::{lemma_pow_adds, lemma_pow_positive, pow};
use vstd::prelude::*;

use crate::radix::{
    all_symbols, bytes_num, digits, is_symbol, lemma_bytes_num_bound, lemma_bytes_num_push,
    lemma_num_append, lemma_num_zeros, pow2_128, pow2_160, symbol_code, text_num,
};

verus! {

/// Number of zero bytes at the front of `b`.
pub open spec fn leading_zeros(b: Seq<u8>) -> nat
    decreases b.len(),
{
    if b.len() > 0 && b[0] == 0 {
        1 + leading_zeros(b.drop_first())
    } else {
        0
    }
}

/// Number of base-62 digits of `v`, with no leading zero (zero has one digit).
pub open spec fn digit_count(v: nat) -> nat
    decreases v,
{
    if v < 62 {
        1
    } else {
        1 + digit_count(v / 62)
    }
}

proof fn lemma_leading_zeros(b: Seq<u8>)
    ensures
        leading_zeros(b) <= b.len(),
        forall|i: int| 0 <= i < leading_zeros(b) ==> b[i] == 0,
    decreases b.len(),
{
    if b.len() > 0 && b[0] == 0 {
        lemma_leading_zeros(b.drop_first());
        assert forall|i: int| 0 <= i < leading_zeros(b) implies b[i] == 0 by {
            if i > 0 {
                assert(b[i] == b.drop_first()[i - 1]);
            }
        }
    }
}

proof fn lemma_digit_count(v: nat, k: nat)
    requires
        k >= 1,
        v < pow(62, k),
    ensures
        digit_count(v) <= k,
    decreases k,
{
    reveal(pow);
    if v >= 62 {
        let p = pow(62, (k - 1) as nat);
        if k == 1 {
            assert(pow(62, 0) == 1);
        } else {
            assert(v / 62 < p) by (nonlinear_arith)
                requires
                    v < 62 * p,
            ;
            lemma_digit_count(v / 62, (k - 1) as nat);
        }
    }
}

proof fn lemma_pow_base_le(e: nat)
    ensures
        0 < pow(62, e) <= pow(256, e),
    decreases e,
{
    reveal(pow);
    if e > 0 {
        lemma_pow_base_le((e - 1) as nat);
        let a = pow(62, (e - 1) as nat);
        let b = pow(256, (e - 1) as nat);
        assert(0 < 62 * a <= 256 * b) by (nonlinear_arith)
            requires
                0 < a <= b,
        ;
    }
}

/// Twenty bytes, written in base 62 with one extra `0` per leading zero byte,
/// take at most 27 symbols.
proof fn lemma_encoded_len(b: Seq<u8>)
    requires
        b.len() == 20,
    ensures
        leading_zeros(b) + digit_count(bytes_num(b) as nat) <= 27,
{
    let z = leading_zeros(b);
    lemma_leading_zeros(b);
    let f = |x: u8| x as int;
    let head = b.subrange(0, z as int);
    let rest = b.subrange(z as int, 20);
    assert(b.map_values(f) =~= head.map_values(f) + rest.map_values(f));
    lemma_num_append(head.map_values(f), rest.map_values(f), 256);
    lemma_num_zeros(head.map_values(f), 256);
    lemma_bytes_num_bound(rest);
    let v = bytes_num(b);
    assert(v == bytes_num(rest));
    if z == 20 {
        reveal(pow);
        assert(v == 0);
    } else {
        let e = (20 - z) as nat;
        lemma_pow_adds(256, e, z);
        lemma_pow_adds(62, (27 - z) as nat, z);
        lemma_pow_base_le(z);
        lemma_pow_positive(62, (27 - z) as nat);
        assert(pow(256, 20) < pow(62, 27)) by {
            reveal_with_fuel(pow, 28);
        }
        let p256 = pow(256, e);
        let q256 = pow(256, z);
        let p62 = pow(62, (27 - z) as nat);
        let q62 = pow(62, z);
        assert(v < p62) by (nonlinear_arith)
            requires
                0 <= v < p256,
                0 < q62 <= q256,
                p256 * q256 < p62 * q62,
        ;
        lemma_digit_count(v as nat, (27 - z) as nat);
    }
}

/// Whether `t` holds, at each digit value `d`, the ASCII code of its symbol.
pub open spec fn is_symbol_table(t: Seq<u8>) -> bool {
    &&& t.len() == 62
    &&& forall|d: int| 0 <= d < 62 ==> #[trigger] t[d] as int == symbol_code(d)
}

/// The 62 symbols `0-9A-Za-z` as ASCII bytes, in digit order.
pub fn symbol_table() -> (r: Vec<u8>)
    ensures
        is_symbol_table(r@),
{
    let mut r: Vec<u8> = Vec::new();
    let mut d: u8 = 0;
    while d < 62
        invariant
            d <= 62,
            r@.len() == d,
            forall|i: int| 0 <= i < d ==> #[trigger] r@[i] as int == symbol_code(i),
        decreases 62 - d,
    {
        let c: u8 = if d < 10 {
            d + 48
        } else if d < 36 {
            d + 55
        } else {
            d + 61
        };
        r.push(c);
        d = d + 1;
    }
    r
}

/// Appends the `n` low bytes of `x` to `out`, most significant first.
pub fn push_be(out: &mut Vec<u8>, x: u128, n: usize)
    requires
        1 <= n <= 16,
        x < pow(256, n as nat),
    ensures
        final(out)@.len() == old(out)@.len() + n,
        bytes_num(final(out)@) == bytes_num(old(out)@) * pow(256, n as nat) + x,
{
    let ghost start = out@;
    let mut d: u128 = 1;
    let mut k: usize = 1;
    proof {
        reveal(pow);
    }
    while k < n
        invariant
            1 <= k <= n <= 16,
            d == pow(256, (k - 1) as nat),
        decreases n - k,
    {
        proof {
            reveal(pow);
            lemma_pow_adds(256, (k - 1) as nat, 1);
            assert(pow(256, k as nat) <= pow(256, 15)) by {
                vstd::arithmetic::power::lemma_pow_increases(256, k as nat, 15);
            }
            assert(pow(256, 15) == 0x1_00_0000_0000_0000_0000_0000_0000_0000) by {
                reveal_with_fuel(pow, 16);
            }
        }
        d = d * 256;
        k = k + 1;
    }
    let mut i: usize = 0;
    proof {
        reveal(pow);
        let p = pow(256, n as nat);
        assert(x as int / p == 0) by (nonlinear_arith)
            requires
                0 <= x < p,
        ;
    }
    while i < n
        invariant
            0 <= i <= n <= 16,
            x < pow(256, n as nat),
            d == pow(256, (n - 1 - i) as nat) || (i == n && d == 0),
            out@.len() == start.len() + i,
            bytes_num(out@) == bytes_num(start) * pow(256, i as nat) + x as int / pow(256, (n - i) as nat),
        decreases n - i,
    {
        let ghost e = (n - 1 - i) as nat;
        let ghost before = out@;
        proof {
            reveal(pow);
            lemma_pow_positive(256, e);
            assert(pow(256, (n - i) as nat) == pow(256, e) * 256);
            vstd::arithmetic::div_mod::lemma_div_denominator(x as int, pow(256, e), 256);
            vstd::arithmetic::div_mod::lemma_fundamental_div_mod(x as int / d as int, 256);
        }
        let b: u8 = ((x / d) % 256) as u8;
        out.push(b);
        proof {
            lemma_bytes_num_push(before, b);
            let q = x as int / d as int;
            let t = bytes_num(start) * pow(256, i as nat);
            assert(pow(256, (i + 1) as nat) == pow(256, i as nat) * 256);
            assert((t + q / 256) * 256 + q % 256 == bytes_num(start) * pow(256, (i + 1) as nat)
                + q) by (nonlinear_arith)
                requires
                    t == bytes_num(start) * pow(256, i as nat),
                    pow(256, (i + 1) as nat) == pow(256, i as nat) * 256,
                    q == 256 * (q / 256) + q % 256,
            ;
        }
        d = d / 256;
        i = i + 1;
        proof {
            if i < n {
                lemma_pow_adds(256, (n - 1 - i) as nat, 1);
            }
        }
    }
    proof {
        reveal(pow);
        assert(x as int / pow(256, 0) == x);
    }
}

/// Relies on base_encode::to_string, base 62, with the symbol table: it writes the
/// big-endian number in `buf` as base-62 digits with no leading zero (zero is
/// the one digit `0`), puts one more `0` in front for each leading zero byte,
/// and writes digit `d` as the table's byte at `d`, so that no lookup fails.
#[verifier::external_body]
fn base62_digits(buf: &Vec<u8>, table: &Vec<u8>) -> (r: Option<String>)
    requires
        buf@.len() == 20,
        is_symbol_table(table@),
    ensures
        r is Some,
        all_symbols(r->0@),
        text_num(r->0@) == bytes_num(buf@),
        r->0@.len() == leading_zeros(buf@) + digit_count(bytes_num(buf@) as nat),
{
    base_encode::to_string(buf.as_slice(), 62, table.as_slice())
}

/// Writes twenty bytes, read as one big-endian number, as exactly 27 base-62
/// symbols, zero-padded on the left.
pub fn encode_fixed(buf: &Vec<u8>) -> (r: String)
    requires
        buf@.len() == 20,
    ensures
        r@.len() == 27,
        all_symbols(r@),
        text_num(r@) == bytes_num(buf@),
{
    let table = symbol_table();
    let s = base62_digits(buf, &table).unwrap();
    let body: &str = s.as_str();
    proof {
        lemma_encoded_len(buf@);
        assert(vstd::utf8::is_ascii_chars(s@)) by {
            assert forall|i: int| 0 <= i < s@.len() implies '\0' <= #[trigger] s@[i] <= '\u{7f}' by {
                assert(is_symbol(s@[i]));
            }
        }
        vstd::string::is_ascii_spec_bytes(body);
    }
    let n: usize = body.len();
    let mut out = String::new();
    let mut i: usize = n;
    while i < 27
        invariant
            n <= i <= 27,
            out@.len() == i - n,
            forall|j: int| 0 <= j < out@.len() ==> #[trigger] out@[j] == '0',
        decreases 27 - i,
    {
        proof {
            reveal_strlit("0");
        }
        out.append("0");
        i = i + 1;
    }
    let ghost pad = out@;
    out.append(body);
    proof {
        assert(out@ =~= pad + s@);
        assert(digits(out@) =~= digits(pad) + digits(s@));
        lemma_num_append(digits(pad), digits(s@), 62);
        lemma_num_zeros(digits(pad), 62);
        assert forall|j: int| 0 <= j < out@.len() implies is_symbol(#[trigger] out@[j]) by {
            if j >= pad.len() {
                assert(out@[j] == s@[j - pad.len()]);
            }
        }
    }
    out
}

/// Relies on base_encode::from_str, base 62, with the symbol table: each symbol
/// is found in the table, and the text, read as one base-62 number with the
/// most significant digit first, comes back as big-endian bytes of it.
#[verifier::external_body]
fn base62_bytes(text: &str, table: &Vec<u8>) -> (r: Option<Vec<u8>>)
    requires
        all_symbols(text@),
        is_symbol_table(table@),
    ensures
        r is Some,
        bytes_num(r->0@) == text_num(text@),
{
    base_encode::from_str(text, 62, table.as_slice())
}

/// Reads a text of base-62 symbols as big-endian bytes of its number.
pub fn decode_symbols(text: &str) -> (r: Vec<u8>)
    requires
        all_symbols(text@),
    ensures
        bytes_num(r@) == text_num(text@),
{
    let table = symbol_table();
    base62_bytes(text, &table).unwrap()
}

proof fn lemma_bytes_num_prefix(b: Seq<u8>, i: int)
    requires
        0 <= i <= b.len(),
    ensures
        bytes_num(b.subrange(0, i)) <= bytes_num(b),
{
    let f = |x: u8| x as int;
    let head = b.subrange(0, i);
    let tail = b.subrange(i, b.len() as int);
    assert(b.map_values(f) =~= head.map_values(f) + tail.map_values(f));
    lemma_num_append(head.map_values(f), tail.map_values(f), 256);
    lemma_bytes_num_bound(head);
    lemma_bytes_num_bound(tail);
    lemma_pow_positive(256, tail.len());
    let h = bytes_num(head);
    let p = pow(256, tail.len());
    assert(h <= h * p) by (nonlinear_arith)
        requires
            h >= 0,
            p >= 1,
    ;
}

/// Splits the number of a big-endian byte string into its high 32 bits and low
/// 128 bits, or gives `None` where it does not fit in 160 bits.
pub fn split_fields(bytes: &Vec<u8>) -> (r: Option<(u32, u128)>)
    ensures
        r is Some <==> bytes_num(bytes@) < pow2_160(),
        r matches Some(f) ==> f.0 * pow2_128() + f.1 == bytes_num(bytes@),
{
    let mut hi: u32 = 0;
    let mut lo: u128 = 0;
    let mut i: usize = 0;
    proof {
        assert(bytes@.subrange(0, 0).map_values(|x: u8| x as int) =~= Seq::<int>::empty());
    }
    while i < bytes.len()
        invariant
            0 <= i <= bytes@.len(),
            bytes_num(bytes@.subrange(0, i as int)) == hi * pow2_128() + lo,
        decreases bytes@.len() - i,
    {
        let b: u8 = bytes[i];
        let top: u128 = lo / 0x1_00_0000_0000_0000_0000_0000_0000_0000;
        let rest: u128 = lo % 0x1_00_0000_0000_0000_0000_0000_0000_0000;
        proof {
            assert(bytes@.subrange(0, i + 1) =~= bytes@.subrange(0, i as int).push(b));
            lemma_bytes_num_push(bytes@.subrange(0, i as int), b);
        }
        if hi >= 0x100_0000 {
            proof {
                lemma_bytes_num_prefix(bytes@, i + 1);
                let v = hi * pow2_128() + lo;
                assert(v * 256 + b >= pow2_160()) by (nonlinear_arith)
                    requires
                        hi >= 0x100_0000,
                        lo >= 0,
                        b >= 0,
                        v == hi * pow2_128() + lo,
                ;
            }
            return None;
        }
        proof {
            assert(top < 256);
            assert((hi * pow2_128() + lo) * 256 + b == (hi * 256 + top) * pow2_128() + (rest * 256
                + b)) by (nonlinear_arith)
                requires
                    lo == top * 0x1_00_0000_0000_0000_0000_0000_0000_0000 + rest,
            ;
        }
        hi = hi * 256 + top as u32;
        lo = rest * 256 + b as u128;
        i = i + 1;
    }
    proof {
        assert(bytes@.subrange(0, bytes@.len() as int) =~= bytes@);
        assert(hi * pow2_128() + lo < pow2_160()) by (nonlinear_arith)
            requires
                0 <= hi < 0x1_0000_0000,
                0 <= lo < pow2_128(),
        ;
    }
    Some((hi, lo))
}

} // verus!
