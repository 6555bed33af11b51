use vstd::prelude::*;
use crate::alphabet::{alphabet, digit_of, is_symbol, lemma_alphabet_layout, lemma_digit_of_symbol, lemma_symbol_ranges};
use crate::error::Base62Error;

verus! {

/// Whether every character of `s` is a digit of the alphabet.
pub open spec fn is_base62(s: Seq<char>) -> bool {
    forall|i: int| 0 <= i < s.len() ==> is_symbol(#[trigger] s[i])
}

/// The number that `s` denotes, read most significant digit first.
pub open spec fn value_of(s: Seq<char>) -> nat
    decreases s.len(),
{
    if s.len() == 0 {
        0
    } else {
        value_of(s.drop_last()) * 62 + digit_of(s.last())
    }
}

/// The digits of `n`, most significant first. Zero has no digits.
pub open spec fn encode_spec(n: nat) -> Seq<char>
    decreases n,
{
    if n == 0 {
        Seq::empty()
    } else {
        encode_spec(n / 62).push(alphabet()[(n % 62) as int])
    }
}

/// How many characters at the start of `s` are digits, up to the first one
/// that is not.
pub open spec fn symbol_prefix_len(s: Seq<char>) -> nat
    decreases s.len(),
{
    if s.len() == 0 || !is_symbol(s[0]) {
        0
    } else {
        1 + symbol_prefix_len(s.drop_first())
    }
}

/// What reading `s` from the left yields. The digits before the first
/// foreign character decide first: if their value exceeds `usize::MAX` the
/// reading overflows before the foreign character is reached. Otherwise a
/// foreign character is refused, and a text of digits alone gives its value.
pub open spec fn decode_spec(s: Seq<char>) -> Result<usize, Base62Error> {
    let digits = s.take(symbol_prefix_len(s) as int);
    if value_of(digits) > usize::MAX {
        Err(Base62Error::Overflow)
    } else if digits.len() < s.len() {
        Err(Base62Error::NonAlphanumeric)
    } else {
        Ok(value_of(s) as usize)
    }
}

/// `s` without the zero digits at its start.
pub open spec fn strip_leading_zeros(s: Seq<char>) -> Seq<char>
    decreases s.len(),
{
    if s.len() > 0 && s[0] == 'A' {
        strip_leading_zeros(s.drop_first())
    } else {
        s
    }
}

/// The symbol prefix ends at the first foreign character, or at the end.
pub proof fn lemma_symbol_prefix(s: Seq<char>)
    ensures
        symbol_prefix_len(s) <= s.len(),
        is_base62(s.take(symbol_prefix_len(s) as int)),
        symbol_prefix_len(s) < s.len() ==> !is_symbol(s[symbol_prefix_len(s) as int]),
    decreases s.len(),
{
    if s.len() == 0 || !is_symbol(s[0]) {
    } else {
        let t = s.drop_first();
        lemma_symbol_prefix(t);
        let n = symbol_prefix_len(t) as int;
        assert forall|i: int| 0 <= i < n + 1 implies is_symbol(#[trigger] s.take(n + 1)[i]) by {
            if i > 0 {
                assert(s.take(n + 1)[i] == t.take(n)[i - 1]);
            }
        }
    }
}

/// A position reached through digits alone, at which the text ends or a
/// foreign character stands, is the end of the symbol prefix.
pub proof fn lemma_symbol_prefix_unique(s: Seq<char>, k: int)
    requires
        0 <= k <= s.len(),
        is_base62(s.take(k)),
        k < s.len() ==> !is_symbol(s[k]),
    ensures
        symbol_prefix_len(s) == k,
    decreases s.len(),
{
    if k == 0 {
    } else {
        assert(s[0] == s.take(k)[0]);
        let t = s.drop_first();
        assert forall|i: int| 0 <= i < k - 1 implies is_symbol(#[trigger] t.take(k - 1)[i]) by {
            assert(t.take(k - 1)[i] == s.take(k)[i + 1]);
        }
        lemma_symbol_prefix_unique(t, k - 1);
    }
}

/// A text of digits alone is its own symbol prefix.
pub proof fn lemma_symbol_prefix_full(s: Seq<char>)
    requires
        is_base62(s),
    ensures
        symbol_prefix_len(s) == s.len(),
        s.take(s.len() as int) == s,
{
    assert(s.take(s.len() as int) =~= s);
    lemma_symbol_prefix_unique(s, s.len() as int);
}

/// Reading succeeds exactly on a text of digits whose value fits a `usize`,
/// and then gives that value.
pub proof fn lemma_decode_success(s: Seq<char>)
    ensures
        decode_spec(s) is Ok <==> is_base62(s) && value_of(s) <= usize::MAX,
        decode_spec(s) is Ok ==> decode_spec(s)->Ok_0 == value_of(s),
{
    lemma_symbol_prefix(s);
    if is_base62(s) {
        lemma_symbol_prefix_full(s);
    } else {
        let n = symbol_prefix_len(s) as int;
        if n == s.len() {
            assert(s.take(n) =~= s);
        }
    }
}

/// Reading more characters never lowers the value.
pub proof fn lemma_value_prefix_monotone(s: Seq<char>, i: int, j: int)
    requires
        0 <= i <= j <= s.len(),
    ensures
        value_of(s.take(i)) <= value_of(s.take(j)),
    decreases j - i,
{
    if i < j {
        lemma_value_prefix_monotone(s, i, j - 1);
        assert(s.take(j).drop_last() =~= s.take(j - 1));
    }
}

/// One more digit at the end: the value so far times 62, plus the digit.
pub proof fn lemma_value_step(s: Seq<char>, i: int)
    requires
        0 <= i < s.len(),
    ensures
        value_of(s.take(i + 1)) == value_of(s.take(i)) * 62 + digit_of(s[i]),
{
    assert(s.take(i + 1).drop_last() =~= s.take(i));
}

/// The digits of a number are digits of the alphabet and denote that number.
pub proof fn lemma_encode_value(n: nat)
    ensures
        is_base62(encode_spec(n)),
        value_of(encode_spec(n)) == n,
        n > 0 ==> encode_spec(n).len() > 0 && encode_spec(n)[0] != 'A',
        n == 0 ==> encode_spec(n).len() == 0,
    decreases n,
{
    if n > 0 {
        let head = encode_spec(n / 62);
        let d = (n % 62) as int;
        lemma_encode_value(n / 62);
        lemma_digit_of_symbol(d);
        lemma_alphabet_layout();
        assert(encode_spec(n).drop_last() =~= head);
        assert(encode_spec(n).last() == alphabet()[d]);
        assert forall|i: int| 0 <= i < encode_spec(n).len() implies is_symbol(
            #[trigger] encode_spec(n)[i],
        ) by {
            if i < head.len() {
                assert(encode_spec(n)[i] == head[i]);
            }
        }
        if n / 62 == 0 {
            assert(d > 0);
            assert(encode_spec(n)[0] == alphabet()[d]);
        } else {
            assert(encode_spec(n)[0] == head[0]);
        }
    }
}

/// Once the digits read so far exceed `usize::MAX`, the reading overflows,
/// whatever follows.
pub proof fn lemma_overflow_stays(s: Seq<char>, k: int)
    requires
        0 <= k <= s.len(),
        is_base62(s.take(k)),
        value_of(s.take(k)) > usize::MAX,
    ensures
        decode_spec(s) == Err::<usize, Base62Error>(Base62Error::Overflow),
{
    lemma_symbol_prefix(s);
    let n = symbol_prefix_len(s) as int;
    if n < k {
        assert(s.take(k)[n] == s[n]);
    }
    lemma_value_prefix_monotone(s, k, n);
}

/// Stripping after one more character at the end: the character joins what
/// is left of the text before it, unless that is nothing and the character
/// is itself a zero digit.
pub proof fn lemma_strip_push(s: Seq<char>, c: char)
    ensures
        strip_leading_zeros(s.push(c)) == if strip_leading_zeros(s).len() == 0 && c == 'A' {
            Seq::<char>::empty()
        } else {
            strip_leading_zeros(s).push(c)
        },
    decreases s.len(),
{
    if s.len() == 0 {
        assert(s.push(c).drop_first() =~= Seq::<char>::empty());
        assert(strip_leading_zeros(Seq::<char>::empty()) =~= Seq::<char>::empty());
        assert(strip_leading_zeros(s) =~= Seq::<char>::empty());
    } else if s[0] == 'A' {
        assert(s.push(c).drop_first() =~= s.drop_first().push(c));
        lemma_strip_push(s.drop_first(), c);
    } else {
        assert(s.push(c)[0] == s[0]);
    }
}

/// The digits of the value of a text of digits are that text without its
/// leading zero digits.
pub proof fn lemma_encode_of_value(s: Seq<char>)
    requires
        is_base62(s),
    ensures
        encode_spec(value_of(s)) == strip_leading_zeros(s),
    decreases s.len(),
{
    if s.len() > 0 {
        let t = s.drop_last();
        let c = s.last();
        assert(s =~= t.push(c));
        assert forall|i: int| 0 <= i < t.len() implies is_symbol(#[trigger] t[i]) by {
            assert(t[i] == s[i]);
        }
        lemma_encode_of_value(t);
        lemma_strip_push(t, c);
        lemma_symbol_ranges(c);
        lemma_encode_value(value_of(t));
        let v = value_of(s);
        assert(v == value_of(t) * 62 + digit_of(c));
        if v > 0 {
            assert(v / 62 == value_of(t));
            assert(v % 62 == digit_of(c));
        }
    }
}

} // verus!
