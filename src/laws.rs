use vstd::arithmetic::power::{lemma_pow_positive, pow};
use vstd::prelude::*;

use crate::ksuid::{decoded, timestamp_at, DecodeError, Ksuid, EPOCH_UNIX_SECONDS};
use crate::radix::{
    all_symbols, digit_of, digits, is_symbol, lemma_num_append, lemma_num_bound, num, pow2_128, text_num,
};

verus! {

/// Lexicographic order of texts, character by character, as `<` on `String`.
pub open spec fn lex_less(s: Seq<char>, t: Seq<char>) -> bool
    decreases s.len(),
{
    if s.len() == 0 {
        t.len() > 0
    } else if t.len() == 0 {
        false
    } else if s[0] != t[0] {
        s[0] < t[0]
    } else {
        lex_less(s.drop_first(), t.drop_first())
    }
}

/// Reading back the text form of an identifier gives that identifier.
pub proof fn lemma_round_trip(k: Ksuid, text: Seq<char>)
    requires
        k.is_text_of(text),
    ensures
        decoded(text) == Ok::<Ksuid, DecodeError>(k),
{
    let v = k.value();
    assert(v < crate::radix::pow2_160()) by (nonlinear_arith)
        requires
            v == k.timestamp * pow2_128() + k.payload,
            0 <= k.timestamp < 0x1_0000_0000,
            0 <= k.payload < pow2_128(),
            pow2_128() == 0x1_0000_0000_0000_0000_0000_0000_0000_0000int,
    ;
    vstd::arithmetic::div_mod::lemma_fundamental_div_mod_converse(
        v,
        pow2_128(),
        k.timestamp as int,
        k.payload as int,
    );
}

proof fn lemma_digit_order(c: char, d: char)
    requires
        is_symbol(c),
        is_symbol(d),
    ensures
        0 <= digit_of(c) < 62,
        (c < d) <==> (digit_of(c) < digit_of(d)),
        (c == d) <==> (digit_of(c) == digit_of(d)),
{
}

proof fn lemma_symbol_digits(s: Seq<char>)
    requires
        all_symbols(s),
    ensures
        forall|i: int|
            0 <= i < s.len() ==> 0 <= #[trigger] digits(s)[i] < 62,
{
    assert forall|i: int| 0 <= i < s.len() implies 0 <= #[trigger] digits(s)[i] < 62 by {
        lemma_digit_order(s[i], s[i]);
    }
}

proof fn lemma_text_num_first(s: Seq<char>)
    requires
        s.len() > 0,
    ensures
        text_num(s) == digit_of(s[0]) * pow(62, (s.len() - 1) as nat) + text_num(s.drop_first()),
{
    let head = seq![digit_of(s[0])];
    assert(digits(s) =~= head + digits(s.drop_first()));
    lemma_num_append(head, digits(s.drop_first()), 62);
    assert(head.drop_last() =~= Seq::<int>::empty());
    assert(num(Seq::<int>::empty(), 62) == 0);
    assert(head.last() == digit_of(s[0]));
    assert(num(head, 62) == digit_of(s[0]));
}

/// For two texts of symbols of one length, text order is number order.
proof fn lemma_lex_is_num_order(s: Seq<char>, t: Seq<char>)
    requires
        s.len() == t.len(),
        all_symbols(s),
        all_symbols(t),
    ensures
        lex_less(s, t) <==> text_num(s) < text_num(t),
    decreases s.len(),
{
    if s.len() == 0 {
        assert(digits(s).len() == 0);
        assert(digits(t).len() == 0);
    } else {
        let s1 = s.drop_first();
        let t1 = t.drop_first();
        assert(all_symbols(s1)) by {
            assert forall|i: int| 0 <= i < s1.len() implies is_symbol(#[trigger] s1[i]) by {
                assert(s1[i] == s[i + 1]);
            }
        }
        assert(all_symbols(t1)) by {
            assert forall|i: int| 0 <= i < t1.len() implies is_symbol(#[trigger] t1[i]) by {
                assert(t1[i] == t[i + 1]);
            }
        }
        lemma_lex_is_num_order(s1, t1);
        lemma_text_num_first(s);
        lemma_text_num_first(t);
        lemma_digit_order(s[0], t[0]);
        lemma_symbol_digits(s1);
        lemma_symbol_digits(t1);
        lemma_num_bound(digits(s1), 62);
        lemma_num_bound(digits(t1), 62);
        let p = pow(62, (s.len() - 1) as nat);
        lemma_pow_positive(62, (s.len() - 1) as nat);
        let a = digit_of(s[0]);
        let b = digit_of(t[0]);
        let x = text_num(s1);
        let y = text_num(t1);
        if a < b {
            assert(a * p + x < b * p + y) by (nonlinear_arith)
                requires
                    a < b,
                    0 <= x < p,
                    0 <= y,
            ;
        } else if b < a {
            assert(b * p + y < a * p + x) by (nonlinear_arith)
                requires
                    b < a,
                    0 <= y < p,
                    0 <= x,
            ;
        }
    }
}

/// Identifiers compare field-wise exactly as their text forms compare.
pub proof fn lemma_sort_order(a: Ksuid, b: Ksuid, ta: Seq<char>, tb: Seq<char>)
    requires
        a.is_text_of(ta),
        b.is_text_of(tb),
    ensures
        a.precedes(b) <==> lex_less(ta, tb),
{
    lemma_lex_is_num_order(ta, tb);
    let (x1, y1, x2, y2) = (a.timestamp as int, a.payload as int, b.timestamp as int, b.payload as int);
    let m = pow2_128();
    assert(a.precedes(b) <==> x1 * m + y1 < x2 * m + y2) by (nonlinear_arith)
        requires
            m > 0,
            0 <= y1 < m,
            0 <= y2 < m,
            a.precedes(b) <==> (x1 < x2 || (x1 == x2 && y1 < y2)),
    ;
}

/// A text with any character outside the 62 symbols is refused as such.
pub proof fn lemma_rejects_foreign_character(text: Seq<char>, i: int)
    requires
        0 <= i < text.len(),
        !is_symbol(text[i]),
    ensures
        decoded(text) == Err::<Ksuid, DecodeError>(DecodeError::InvalidCharacter),
{
}

/// Two moments at least a second apart, both within the 2^32 seconds after the
/// custom epoch, give different timestamps.
pub proof fn lemma_distinct_seconds(earlier: int, later: int)
    requires
        EPOCH_UNIX_SECONDS <= earlier,
        earlier + 1 <= later,
        later < EPOCH_UNIX_SECONDS + 0x1_0000_0000,
    ensures
        timestamp_at(earlier) != timestamp_at(later),
{
}

} // verus!
