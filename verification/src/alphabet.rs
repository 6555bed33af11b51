use vstd::prelude::*;
use vstd::string::StrSliceExecFns;
use crate::error::Base62Error;

verus! {

/// The radix: the number of distinct digits.
pub const BASE: usize = 62;

/// The digits in order: the character at index `d` stands for the digit `d`.
pub open spec fn alphabet() -> Seq<char> {
    "ABCDEFGHIJKLMNOPQRSTUVWXYZabcdefghijklmnopqrstuvwxyz0123456789"@
}

/// Whether `c` is one of the digits.
pub open spec fn is_symbol(c: char) -> bool {
    alphabet().contains(c)
}

/// The digit that `c` stands for: its index in the alphabet. A character
/// outside the alphabet counts as zero.
pub open spec fn digit_of(c: char) -> nat {
    if is_symbol(c) {
        alphabet().index_of(c) as nat
    } else {
        0
    }
}

/// The alphabet laid out by ranges: 26 capitals, 26 small letters, 10 figures.
pub open spec fn symbol_at(d: int) -> char {
    if d < 26 {
        ('A' as int + d) as char
    } else if d < 52 {
        ('a' as int + (d - 26)) as char
    } else {
        ('0' as int + (d - 52)) as char
    }
}

/// The alphabet has 62 entries and follows the three ranges.
pub proof fn lemma_alphabet_layout()
    ensures
        alphabet().len() == 62,
        forall|d: int| 0 <= d < 62 ==> #[trigger] alphabet()[d] == symbol_at(d),
{
    reveal_strlit("ABCDEFGHIJKLMNOPQRSTUVWXYZabcdefghijklmnopqrstuvwxyz0123456789");
}

/// Membership in the alphabet is membership in one of the three ranges, and
/// the digit of a symbol is its offset within its range.
pub proof fn lemma_symbol_ranges(c: char)
    ensures
        is_symbol(c) <==> ('A' <= c <= 'Z' || 'a' <= c <= 'z' || '0' <= c <= '9'),
        'A' <= c <= 'Z' ==> digit_of(c) == c as int - 'A' as int,
        'a' <= c <= 'z' ==> digit_of(c) == c as int - 'a' as int + 26,
        '0' <= c <= '9' ==> digit_of(c) == c as int - '0' as int + 52,
        digit_of(c) < 62,
        is_symbol(c) ==> alphabet()[digit_of(c) as int] == c,
{
    lemma_alphabet_layout();
    let d: int = if 'A' <= c <= 'Z' {
        c as int - 'A' as int
    } else if 'a' <= c <= 'z' {
        c as int - 'a' as int + 26
    } else {
        c as int - '0' as int + 52
    };
    if 'A' <= c <= 'Z' || 'a' <= c <= 'z' || '0' <= c <= '9' {
        assert(alphabet()[d] == c);
    }
    if is_symbol(c) {
        let k = alphabet().index_of(c);
        assert(alphabet()[k] == c);
        assert(symbol_at(k) == c);
        assert(k == d);
    }
}

/// No symbol occurs twice: each digit is the digit of its own symbol.
pub proof fn lemma_digit_of_symbol(d: int)
    requires
        0 <= d < 62,
    ensures
        is_symbol(alphabet()[d]),
        digit_of(alphabet()[d]) == d,
{
    lemma_alphabet_layout();
    assert(alphabet().contains(alphabet()[d]));
    lemma_symbol_ranges(alphabet()[d]);
}

/// The symbol that stands for the digit `num`, if `num` is a digit.
pub fn to_char(num: usize) -> (symbol: Option<char>)
    ensures
        symbol == if num < 62 {
            Some(alphabet()[num as int])
        } else {
            None
        },
{
    let table = "ABCDEFGHIJKLMNOPQRSTUVWXYZabcdefghijklmnopqrstuvwxyz0123456789";
    proof {
        lemma_alphabet_layout();
    }
    if num < BASE {
        Some(table.get_char(num))
    } else {
        None
    }
}

/// The digit that the symbol `c` stands for; a character outside the
/// alphabet is refused.
pub fn to_num(c: char) -> (digit: Result<usize, Base62Error>)
    ensures
        match digit {
            Ok(d) => is_symbol(c) && d == digit_of(c),
            Err(e) => !is_symbol(c) && e == Base62Error::NonAlphanumeric,
        },
{
    proof {
        lemma_symbol_ranges(c);
    }
    let code: u32 = c as u32;
    if 'A' <= c && c <= 'Z' {
        Ok((code - 'A' as u32) as usize)
    } else if 'a' <= c && c <= 'z' {
        Ok((code - 'a' as u32 + 26) as usize)
    } else if '0' <= c && c <= '9' {
        Ok((code - '0' as u32 + 52) as usize)
    } else {
        Err(Base62Error::NonAlphanumeric)
    }
}

} // verus!
