use vstd::prelude::*;
use crate::alphabet::{alphabet, lemma_digit_of_symbol};
use crate::error::Base62Error;
use crate::numeral::{
    decode_spec, encode_spec, is_base62, lemma_decode_success, lemma_encode_of_value,
    lemma_encode_value, lemma_overflow_stays, lemma_symbol_prefix, lemma_symbol_prefix_full,
    strip_leading_zeros, symbol_prefix_len, value_of,
};

verus! {

/// Writing a number and reading the text back gives the number, for every
/// `usize`, zero included.
pub proof fn law_decode_after_encode(n: usize)
    ensures
        decode_spec(encode_spec(n as nat)) == Ok::<usize, Base62Error>(n),
{
    lemma_encode_value(n as nat);
    lemma_symbol_prefix_full(encode_spec(n as nat));
}

/// Zero is written as the empty text, and the empty text reads as zero.
pub proof fn law_zero_is_empty()
    ensures
        encode_spec(0) == Seq::<char>::empty(),
        decode_spec(Seq::<char>::empty()) == Ok::<usize, Base62Error>(0),
{
    law_decode_after_encode(0);
}

/// Reading a text of digits whose value fits and writing the value again
/// gives the text without its leading zero digits; a text that has none
/// comes back unchanged.
pub proof fn law_encode_after_decode(s: Seq<char>)
    requires
        is_base62(s),
        value_of(s) <= usize::MAX,
    ensures
        decode_spec(s) is Ok,
        encode_spec(decode_spec(s)->Ok_0 as nat) == strip_leading_zeros(s),
        s.len() == 0 || s[0] != 'A' ==> encode_spec(decode_spec(s)->Ok_0 as nat) == s,
{
    lemma_decode_success(s);
    lemma_encode_of_value(s);
}

/// A text that holds a character outside the alphabet is refused as
/// `NonAlphanumeric`, provided the digits before the first such character
/// do not already exceed `usize::MAX`.
pub proof fn law_foreign_character_refused(s: Seq<char>)
    requires
        !is_base62(s),
        value_of(s.take(symbol_prefix_len(s) as int)) <= usize::MAX,
    ensures
        decode_spec(s) == Err::<usize, Base62Error>(Base62Error::NonAlphanumeric),
{
    lemma_symbol_prefix(s);
    let n = symbol_prefix_len(s) as int;
    if n == s.len() {
        assert(s.take(n) =~= s);
    }
}

/// A text of digits whose value exceeds `usize::MAX` is refused as
/// `Overflow`.
pub proof fn law_overflow_refused(s: Seq<char>)
    requires
        is_base62(s),
        value_of(s) > usize::MAX,
    ensures
        decode_spec(s) == Err::<usize, Base62Error>(Base62Error::Overflow),
{
    lemma_symbol_prefix_full(s);
    lemma_overflow_stays(s, s.len() as int);
}

/// Of two numbers, the smaller is never written with more digits.
pub proof fn law_length_monotone(a: nat, b: nat)
    requires
        a <= b,
    ensures
        encode_spec(a).len() <= encode_spec(b).len(),
    decreases a,
{
    if a > 0 {
        law_length_monotone(a / 62, b / 62);
    }
}

/// Each symbol of the alphabet, alone, reads as its own index.
pub proof fn law_alphabet_complete(d: usize)
    requires
        d < 62,
    ensures
        decode_spec(seq![alphabet()[d as int]]) == Ok::<usize, Base62Error>(d),
{
    let s = seq![alphabet()[d as int]];
    lemma_digit_of_symbol(d as int);
    assert(is_base62(s));
    assert(s.drop_last() =~= Seq::<char>::empty());
    assert(value_of(s.drop_last()) == 0);
    assert(value_of(s) == d);
    lemma_symbol_prefix_full(s);
}

} // verus!
