//! Unsigned integers as decimal text, written and read.

use vstd::prelude::*;

verus! {

/// The decimal digits of `n`, in ASCII, the most significant first.
pub open spec fn digits(n: nat) -> Seq<u8>
    decreases n,
{
    if n < 10 {
        seq![(48 + n) as u8]
    } else {
        digits(n / 10).push((48 + n % 10) as u8)
    }
}

/// The number that the decimal digits `text` stand for.
pub open spec fn number_of(text: Seq<u8>) -> nat
    decreases text.len(),
{
    if text.len() == 0 {
        0
    } else {
        number_of(text.drop_last()) * 10 + (text.last() - 48) as nat
    }
}

/// Whether every byte of `text` is an ASCII digit.
pub open spec fn all_digits(text: Seq<u8>) -> bool {
    forall|i: int| 0 <= i < text.len() ==> 48 <= #[trigger] text[i] <= 57
}

/// `text` without the plus sign that may stand in front of its digits.
pub open spec fn unsigned_part(text: Seq<u8>) -> Seq<u8> {
    if text.len() > 0 && text[0] == 43 {
        text.subrange(1, text.len() as int)
    } else {
        text
    }
}

/// Whether `text` is an unsigned 32-bit integer in decimal: one digit or
/// more, a plus sign in front or none, and a value that fits.
pub open spec fn is_decimal(text: Seq<u8>) -> bool {
    &&& unsigned_part(text).len() > 0
    &&& all_digits(unsigned_part(text))
    &&& number_of(unsigned_part(text)) <= u32::MAX
}

/// Writes `val` in decimal.
pub fn decimal(val: u32) -> (text: Vec<u8>)
    ensures
        text@ == digits(val as nat),
{
    let mut text: Vec<u8> = Vec::new();
    let mut rest: u32 = val;
    while rest >= 10
        invariant
            digits(val as nat) == digits(rest as nat) + text@,
        decreases rest,
    {
        let ghost lower = text@;
        let digit: u8 = 48 + (rest % 10) as u8;
        text.insert(0, digit);
        assert(digits(rest as nat / 10).push(digit) + lower =~= digits(rest as nat / 10) + text@);
        rest = rest / 10;
    }
    let ghost lower = text@;
    text.insert(0, 48 + rest as u8);
    assert(digits(rest as nat) + lower =~= text@);
    text
}

/// Digits that are added to a text do not lower its number.
proof fn lemma_number_grows(text: Seq<u8>, k: int)
    requires
        all_digits(text),
        0 <= k <= text.len(),
    ensures
        number_of(text.take(k)) <= number_of(text),
    decreases text.len() - k,
{
    if k < text.len() {
        lemma_number_grows(text, k + 1);
        assert(text.take(k + 1).drop_last() =~= text.take(k));
        assert(text.take(k + 1).last() == text[k]);
    } else {
        assert(text.take(k) =~= text);
    }
}

/// Reads an unsigned 32-bit integer in decimal. Text that is no such
/// integer, or whose value does not fit, gives nothing.
pub fn parse_decimal(text: &Vec<u8>) -> (val: Option<u32>)
    ensures
        val.is_some() == is_decimal(text@),
        val matches Some(v) ==> v == number_of(unsigned_part(text@)),
{
    let start: usize = if text.len() > 0 && text[0] == 43 {
        1
    } else {
        0
    };
    let ghost body = unsigned_part(text@);
    assert(body.len() == text@.len() - start);
    if start == text.len() {
        return None;
    }
    let mut acc: u32 = 0;
    let mut k: usize = start;
    assert(body.take(0) =~= Seq::<u8>::empty());
    while k < text.len()
        invariant
            start <= k <= text.len(),
            body == unsigned_part(text@),
            body.len() == text@.len() - start,
            forall|j: int| 0 <= j < body.len() ==> body[j] == text@[j + start],
            all_digits(body.take(k - start)),
            acc == number_of(body.take(k - start)),
        decreases text.len() - k,
    {
        let c: u8 = text[k];
        let ghost upto = body.take(k - start + 1);
        proof {
            assert(upto.drop_last() =~= body.take(k - start));
            assert(upto.last() == c);
        }
        if c < 48 || c > 57 {
            assert(!(48 <= body[k - start] <= 57));
            return None;
        }
        let digit: u32 = (c - 48) as u32;
        if acc > (u32::MAX - digit) / 10 {
            proof {
                assert(number_of(upto) > u32::MAX);
                if all_digits(body) {
                    lemma_number_grows(body, k - start + 1);
                }
            }
            return None;
        }
        acc = acc * 10 + digit;
        proof {
            assert forall|j: int| 0 <= j < upto.len() implies 48 <= #[trigger] upto[j] <= 57 by {
                if j < k - start {
                    assert(body.take(k - start)[j] == upto[j]);
                }
            }
        }
        k += 1;
    }
    assert(body.take(k - start) =~= body);
    Some(acc)
}

/// What `decimal` writes, `parse_decimal` reads back: the digits of a
/// number are decimal text, and stand for that number.
pub proof fn lemma_digits_round_trip(n: nat)
    ensures
        digits(n).len() > 0,
        all_digits(digits(n)),
        unsigned_part(digits(n)) == digits(n),
        number_of(digits(n)) == n,
        n <= u32::MAX ==> is_decimal(digits(n)),
    decreases n,
{
    if n < 10 {
        let text = digits(n);
        assert(text.drop_last() =~= Seq::<u8>::empty());
        assert(number_of(text.drop_last()) == 0);
    } else {
        lemma_digits_round_trip(n / 10);
        let text = digits(n);
        assert(text.drop_last() =~= digits(n / 10));
        assert(text.last() == (48 + n % 10) as u8);
        assert(text[0] == digits(n / 10)[0]);
        assert forall|i: int| 0 <= i < text.len() implies 48 <= #[trigger] text[i] <= 57 by {
            if i < text.len() - 1 {
                assert(text[i] == digits(n / 10)[i]);
            }
        }
    }
}

} // verus!
