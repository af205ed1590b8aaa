//! Parsing of octal permission strings for the directory-creation mode.

use vstd::prelude::*;

verus! {

/// Why a permission string was rejected.
#[derive(Clone, Copy, Debug, PartialEq, Eq, Structural)]
pub enum PermError {
    /// No digits at all.
    Empty,
    /// A byte that is not an octal digit.
    InvalidDigit,
    /// The value does not fit the mode's 32 bits.
    Overflow,
}

pub open spec fn is_octal_digit(c: u8) -> bool {
    48 <= c <= 55
}

/// The value of a sequence of octal digits.
pub open spec fn octal_val(s: Seq<u8>) -> int
    decreases s.len(),
{
    if s.len() == 0 {
        0
    } else {
        octal_val(s.drop_last()) * 8 + (s.last() - 48)
    }
}

/// Digit-by-digit octal parsing, rejecting the first bad byte or the first
/// digit whose inclusion overflows the accumulator.
pub open spec fn parse_octal(d: Seq<u8>, acc: int) -> Result<u32, PermError>
    decreases d.len(),
{
    if d.len() == 0 {
        Ok(acc as u32)
    } else if !is_octal_digit(d[0]) {
        Err(PermError::InvalidDigit)
    } else if acc * 8 + (d[0] - 48) > u32::MAX {
        Err(PermError::Overflow)
    } else {
        parse_octal(d.drop_first(), acc * 8 + (d[0] - 48))
    }
}

/// The digits of a permission string: everything after an optional leading
/// `+` sign.
pub open spec fn perm_digits(s: Seq<u8>) -> Seq<u8> {
    if s.len() > 0 && s[0] == 43 {
        s.drop_first()
    } else {
        s
    }
}

/// Parses a permission mode written in octal, as `777` or `+755`: an
/// optional leading plus sign, then at least one octal digit, the whole
/// value fitting in 32 bits.
pub fn parse_permissions(s: &Vec<u8>) -> (r: Result<u32, PermError>)
    ensures
        r == if perm_digits(s@).len() == 0 {
            Err::<u32, PermError>(PermError::Empty)
        } else {
            parse_octal(perm_digits(s@), 0)
        },
{
    let start: usize = if s.len() > 0 && s[0] == 43u8 {
        1
    } else {
        0
    };
    proof {
        assert(perm_digits(s@) =~= s@.skip(start as int));
    }
    if s.len() == start {
        return Err(PermError::Empty);
    }
    let mut val: u32 = 0;
    let mut i: usize = start;
    while i < s.len()
        invariant
            start <= i <= s@.len(),
            perm_digits(s@) == s@.skip(start as int),
            perm_digits(s@).len() > 0,
            parse_octal(perm_digits(s@), 0) == parse_octal(s@.skip(i as int), val as int),
        decreases s@.len() - i,
    {
        let c = s[i];
        proof {
            assert(s@.skip(i as int)[0] == s@[i as int]);
        }
        if c < 48 || c > 55 {
            return Err(PermError::InvalidDigit);
        }
        let d = (c - 48) as u32;
        if val > (u32::MAX - d) / 8 {
            proof {
                assert((val as int) * 8 + d > u32::MAX);
            }
            return Err(PermError::Overflow);
        }
        proof {
            assert((val as int) * 8 + d <= u32::MAX);
            assert(s@.skip(i as int).drop_first() =~= s@.skip(i + 1));
        }
        val = val * 8 + d;
        i += 1;
    }
    proof {
        assert(s@.skip(s@.len() as int) =~= Seq::<u8>::empty());
    }
    Ok(val)
}

/// When parsing succeeds, the result is exactly the octal value of the
/// digits, and every byte of them is an octal digit.
pub proof fn lemma_parse_octal_ok(d: Seq<u8>, acc: int)
    requires
        parse_octal(d, acc) is Ok,
        0 <= acc <= u32::MAX,
    ensures
        parse_octal(d, acc)->Ok_0 == octal_prepend(acc, d),
        forall|i: int| 0 <= i < d.len() ==> is_octal_digit(#[trigger] d[i]),
        0 <= octal_prepend(acc, d) <= u32::MAX,
    decreases d.len(),
{
    if d.len() == 0 {
    } else {
        lemma_parse_octal_ok(d.drop_first(), acc * 8 + (d[0] - 48));
        assert forall|i: int| 0 <= i < d.len() implies is_octal_digit(#[trigger] d[i]) by {
            if i > 0 {
                assert(is_octal_digit(d.drop_first()[i - 1]));
                assert(d.drop_first()[i - 1] == d[i]);
            }
        }
    }
}

/// A successful parse returns exactly the octal value of the digit string.
pub proof fn lemma_parse_permissions_value(d: Seq<u8>)
    requires
        parse_octal(d, 0) is Ok,
    ensures
        parse_octal(d, 0)->Ok_0 == octal_val(d),
        forall|i: int| 0 <= i < d.len() ==> is_octal_digit(#[trigger] d[i]),
{
    lemma_parse_octal_ok(d, 0);
    lemma_octal_prepend_val(0, d);
}

/// The value of digits `d` appended below an accumulated value `acc`.
pub open spec fn octal_prepend(acc: int, d: Seq<u8>) -> int
    decreases d.len(),
{
    if d.len() == 0 {
        acc
    } else {
        octal_prepend(acc * 8 + (d[0] - 48), d.drop_first())
    }
}

/// For a plain digit string, `octal_prepend` from zero is `octal_val`.
pub proof fn lemma_octal_prepend_val(acc: int, d: Seq<u8>)
    ensures
        octal_prepend(acc, d) == acc * pow8(d.len() as nat) + octal_val(d),
    decreases d.len(),
{
    if d.len() == 0 {
    } else {
        let n = (d.len() - 1) as nat;
        let d0: int = d[0] - 48;
        lemma_octal_prepend_val(acc * 8 + d0, d.drop_first());
        lemma_octal_val_split(d);
        vstd::arithmetic::mul::lemma_mul_is_distributive_add_other_way(pow8(n), acc * 8, d0);
        vstd::arithmetic::mul::lemma_mul_is_associative(acc, 8, pow8(n));
    }
}

pub open spec fn pow8(n: nat) -> int
    decreases n,
{
    if n == 0 {
        1
    } else {
        8 * pow8((n - 1) as nat)
    }
}

/// Splitting the first digit off a non-empty digit string.
proof fn lemma_octal_val_split(d: Seq<u8>)
    requires
        d.len() > 0,
    ensures
        octal_val(d) == (d[0] - 48) * pow8((d.len() - 1) as nat) + octal_val(d.drop_first()),
    decreases d.len(),
{
    if d.len() == 1 {
        assert(d.drop_first() =~= Seq::<u8>::empty());
        assert(d.drop_last() =~= Seq::<u8>::empty());
    } else {
        lemma_octal_val_split(d.drop_last());
        assert(d.drop_last().drop_first() =~= d.drop_first().drop_last());
        assert(d.drop_last()[0] == d[0]);
        assert(d.drop_first().last() == d.last());
        let m = (d.len() - 2) as nat;
        let d0: int = d[0] - 48;
        vstd::arithmetic::mul::lemma_mul_is_associative(d0, pow8(m), 8);
        assert(pow8(m) * 8 == 8 * pow8(m));
    }
}

} // verus!
