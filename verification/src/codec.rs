use vstd::prelude::*;
use crate::alphabet::{is_symbol, to_char, to_num, BASE};
use crate::error::Base62Error;
use crate::laws::law_decode_after_encode;
use crate::numeral::{
    decode_spec, encode_spec, is_base62, lemma_decode_success, lemma_encode_value,
    lemma_overflow_stays, lemma_symbol_prefix_unique, lemma_value_step, value_of,
};

verus! {

/// `String::push` of the standard library: the character is appended at the
/// end of the text and nothing else changes. This is taken from the
/// documentation of the method, not proved.
pub assume_specification[ String::push ](text: &mut String, ch: char)
    ensures
        final(text)@ == old(text)@.push(ch),
;

/// Writes `num` in radix 62, most significant digit first, with no zero
/// digit in front. Zero is written as the empty text.
pub fn encode(num: usize) -> (text: String)
    ensures
        text@ == encode_spec(num as nat),
        is_base62(text@),
        value_of(text@) == num,
        text@.len() > 0 ==> text@[0] != 'A',
        decode_spec(text@) == Ok::<usize, Base62Error>(num),
{
    let mut digits: Vec<char> = Vec::new();
    let mut n: usize = num;
    while n > 0
        invariant
            encode_spec(num as nat) == encode_spec(n as nat) + digits@.reverse(),
        decreases n,
    {
        let rem: usize = n % BASE;
        let symbol = match to_char(rem) {
            Some(c) => c,
            None => unreached(),
        };
        proof {
            let rest = encode_spec((n / 62) as nat);
            let longer = digits@.push(symbol);
            assert(encode_spec(n as nat) == rest.push(symbol));
            assert(rest.push(symbol) + digits@.reverse() =~= rest + longer.reverse());
        }
        n = (n - rem) / BASE;
        digits.push(symbol);
    }
    let mut text = String::new();
    let mut i: usize = digits.len();
    while i > 0
        invariant
            i <= digits.len(),
            text@ == digits@.reverse().take(digits.len() - i),
        decreases i,
    {
        i = i - 1;
        text.push(digits[i]);
        assert(text@ =~= digits@.reverse().take(digits.len() - i));
    }
    proof {
        assert(text@ =~= encode_spec(0) + digits@.reverse());
        lemma_encode_value(num as nat);
        law_decode_after_encode(num);
    }
    text
}

/// Reads `input` as a number in radix 62, from the left. The first
/// character that is no digit ends the reading with `NonAlphanumeric`; the
/// first digit that takes the value beyond `usize::MAX` ends it with
/// `Overflow`. The largest text that can be read is therefore that of
/// `usize::MAX`, which depends on the width of the machine word. The empty
/// text reads as zero.
pub fn decode(input: &str) -> (number: Result<usize, Base62Error>)
    ensures
        number == decode_spec(input@),
        number is Ok <==> is_base62(input@) && value_of(input@) <= usize::MAX,
        number is Ok ==> number->Ok_0 == value_of(input@),
{
    let mut acc: usize = 0;
    for c in it: input.chars()
        invariant
            it.seq() == input@,
            is_base62(input@.take(it.index() as int)),
            acc == value_of(input@.take(it.index() as int)),
    {
        let ghost k = it.index() as int;
        proof {
            lemma_value_step(input@, k);
        }
        let digit = match to_num(c) {
            Ok(d) => d,
            Err(e) => {
                proof {
                    lemma_symbol_prefix_unique(input@, k);
                    lemma_decode_success(input@);
                }
                return Err(e);
            },
        };
        let next = match acc.checked_mul(BASE) {
            Some(scaled) => scaled.checked_add(digit),
            None => None,
        };
        proof {
            assert forall|i: int| 0 <= i < k + 1 implies is_symbol(
                #[trigger] input@.take(k + 1)[i],
            ) by {
                if i < k {
                    assert(input@.take(k + 1)[i] == input@.take(k)[i]);
                }
            }
        }
        match next {
            Some(sum) => {
                acc = sum;
            },
            None => {
                proof {
                    lemma_overflow_stays(input@, k + 1);
                    lemma_decode_success(input@);
                }
                return Err(Base62Error::Overflow);
            },
        }
    }
    proof {
        assert(input@.take(input@.len() as int) =~= input@);
        lemma_symbol_prefix_unique(input@, input@.len() as int);
        lemma_decode_success(input@);
    }
    Ok(acc)
}

} // verus!
