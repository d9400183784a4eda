use vstd::arithmetic::power::pow;
use vstd::prelude::*;

verus! {

/// The value of a sequence of digits in the given base, most significant first.
pub open spec fn num(s: Seq<int>, base: int) -> int
    decreases s.len(),
{
    if s.len() == 0 {
        0
    } else {
        num(s.drop_last(), base) * base + s.last()
    }
}

/// The number that a big-endian byte string stands for.
pub open spec fn bytes_num(b: Seq<u8>) -> int {
    num(b.map_values(|x: u8| x as int), 256)
}

/// Whether `c` is one of the 62 symbols `0-9`, `A-Z`, `a-z`.
pub open spec fn is_symbol(c: char) -> bool {
    ('0' <= c && c <= '9') || ('A' <= c && c <= 'Z') || ('a' <= c && c <= 'z')
}

/// The digit value of a symbol: `0-9` are 0 to 9, `A-Z` 10 to 35, `a-z` 36 to 61.
pub open spec fn digit_of(c: char) -> int {
    if '0' <= c && c <= '9' {
        c as int - 48
    } else if 'A' <= c && c <= 'Z' {
        c as int - 55
    } else {
        c as int - 61
    }
}

/// The ASCII code of the symbol whose digit value is `d`.
pub open spec fn symbol_code(d: int) -> int {
    if d < 10 {
        d + 48
    } else if d < 36 {
        d + 55
    } else {
        d + 61
    }
}

/// The digit values of a text, one per character.
pub open spec fn digits(t: Seq<char>) -> Seq<int> {
    t.map_values(|c: char| digit_of(c))
}

/// The number that a base-62 text stands for.
pub open spec fn text_num(t: Seq<char>) -> int {
    num(digits(t), 62)
}

/// `2^128`, the span of the payload.
pub open spec fn pow2_128() -> int {
    0x1_0000_0000_0000_0000_0000_0000_0000_0000int
}

/// `2^160`, one past the largest number that twenty bytes hold.
pub open spec fn pow2_160() -> int {
    0x1_0000_0000_0000_0000_0000_0000_0000_0000_0000_0000int
}

pub open spec fn all_symbols(t: Seq<char>) -> bool {
    forall|i: int| 0 <= i < t.len() ==> is_symbol(#[trigger] t[i])
}

/// Splitting a digit string: the high part counts `base^|b|` times.
pub proof fn lemma_num_append(a: Seq<int>, b: Seq<int>, base: int)
    ensures
        num(a + b, base) == num(a, base) * pow(base, b.len()) + num(b, base),
    decreases b.len(),
{
    if b.len() == 0 {
        assert(a + b =~= a);
        reveal(pow);
    } else {
        let b0 = b.drop_last();
        assert((a + b).drop_last() =~= a + b0);
        lemma_num_append(a, b0, base);
        reveal(pow);
        assert(pow(base, b.len()) == base * pow(base, b0.len()));
        assert(num(a + b, base) == (num(a, base) * pow(base, b0.len()) + num(b0, base)) * base
            + b.last());
        assert((num(a, base) * pow(base, b0.len()) + num(b0, base)) * base == num(a, base) * (
        base * pow(base, b0.len())) + num(b0, base) * base) by (nonlinear_arith);
    }
}

/// A string of digits below `base` stands for a number below `base^|s|`.
pub proof fn lemma_num_bound(s: Seq<int>, base: int)
    requires
        base > 0,
        forall|i: int| 0 <= i < s.len() ==> 0 <= #[trigger] s[i] < base,
    ensures
        0 <= num(s, base) < pow(base, s.len()),
    decreases s.len(),
{
    reveal(pow);
    if s.len() > 0 {
        let s0 = s.drop_last();
        assert forall|i: int| 0 <= i < s0.len() implies 0 <= #[trigger] s0[i] < base by {
            assert(s0[i] == s[i]);
        }
        lemma_num_bound(s0, base);
        let h = num(s0, base);
        let p = pow(base, s0.len());
        let d = s[s.len() - 1];
        assert(0 <= h * base + d < p * base) by (nonlinear_arith)
            requires
                0 <= h < p,
                0 <= d < base,
        ;
        assert(pow(base, s.len()) == base * p);
    }
}

/// A string of zero digits stands for zero.
pub proof fn lemma_num_zeros(s: Seq<int>, base: int)
    requires
        forall|i: int| 0 <= i < s.len() ==> #[trigger] s[i] == 0,
    ensures
        num(s, base) == 0,
    decreases s.len(),
{
    if s.len() > 0 {
        lemma_num_zeros(s.drop_last(), base);
    }
}

pub proof fn lemma_bytes_num_push(b: Seq<u8>, x: u8)
    ensures
        bytes_num(b.push(x)) == bytes_num(b) * 256 + x,
{
    let f = |x: u8| x as int;
    assert(b.push(x).map_values(f).drop_last() =~= b.map_values(f));
}

pub proof fn lemma_bytes_num_bound(b: Seq<u8>)
    ensures
        0 <= bytes_num(b) < pow(256, b.len()),
{
    lemma_num_bound(b.map_values(|x: u8| x as int), 256);
}

/// Whether every character of `text` is a base-62 symbol.
pub fn check_symbols(text: &str) -> (r: bool)
    ensures
        r == all_symbols(text@),
{
    if !text.is_ascii() {
        proof {
            assert(!vstd::utf8::is_ascii_chars(text@));
        }
        return false;
    }
    proof {
        vstd::string::is_ascii_spec_bytes(text);
    }
    let bytes: &[u8] = text.as_bytes();
    let mut i: usize = 0;
    while i < bytes.len()
        invariant
            0 <= i <= bytes@.len(),
            bytes@.len() == text@.len(),
            forall|j: int| 0 <= j < text@.len() ==> #[trigger] bytes@[j] == text@[j] as u8,
            vstd::utf8::is_ascii_chars(text@),
            forall|j: int| 0 <= j < i ==> is_symbol(#[trigger] text@[j]),
        decreases bytes@.len() - i,
    {
        let b: u8 = bytes[i];
        let ok = (48 <= b && b <= 57) || (65 <= b && b <= 90) || (97 <= b && b <= 122);
        proof {
            let c = text@[i as int];
            assert('\0' <= c <= '\u{7f}');
            assert(b == c as u8);
            assert(ok == is_symbol(c));
        }
        if !ok {
            return false;
        }
        i = i + 1;
    }
    true
}

} // verus!
