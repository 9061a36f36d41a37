//! Digit strings in a given radix.
//!
//! Entry identifiers are lowercase hexadecimal strings and the persisted
//! form stores timestamps in decimal, so both the store and the codec rest
//! on one model of digit strings: `spec_digits` renders a number, and
//! `digits_val` reads one back.

use vstd::arithmetic::div_mod::{
    lemma_div_is_strictly_smaller, lemma_div_non_zero, lemma_fundamental_div_mod,
    lemma_mod_bound,
};
use vstd::prelude::*;

verus! {

/// The lowercase character for one digit value, for radixes up to sixteen.
pub open spec fn digit_char(d: int) -> char {
    if d == 0 {
        '0'
    } else if d == 1 {
        '1'
    } else if d == 2 {
        '2'
    } else if d == 3 {
        '3'
    } else if d == 4 {
        '4'
    } else if d == 5 {
        '5'
    } else if d == 6 {
        '6'
    } else if d == 7 {
        '7'
    } else if d == 8 {
        '8'
    } else if d == 9 {
        '9'
    } else if d == 10 {
        'a'
    } else if d == 11 {
        'b'
    } else if d == 12 {
        'c'
    } else if d == 13 {
        'd'
    } else if d == 14 {
        'e'
    } else if d == 15 {
        'f'
    } else {
        '?'
    }
}

/// The value of one lowercase digit character; -1 when `c` is no digit.
pub open spec fn digit_val(c: char) -> int {
    if c == '0' {
        0
    } else if c == '1' {
        1
    } else if c == '2' {
        2
    } else if c == '3' {
        3
    } else if c == '4' {
        4
    } else if c == '5' {
        5
    } else if c == '6' {
        6
    } else if c == '7' {
        7
    } else if c == '8' {
        8
    } else if c == '9' {
        9
    } else if c == 'a' {
        10
    } else if c == 'b' {
        11
    } else if c == 'c' {
        12
    } else if c == 'd' {
        13
    } else if c == 'e' {
        14
    } else if c == 'f' {
        15
    } else {
        -1
    }
}

/// The canonical digit string of `n` in radix `radix`: no leading zeros,
/// and `0` itself is the single character `'0'`.
pub open spec fn spec_digits(radix: int, n: nat) -> Seq<char>
    decreases n via spec_digits_decreases
{
    if radix < 2 {
        Seq::empty()
    } else if n < radix {
        seq![digit_char(n as int)]
    } else {
        spec_digits(radix, ((n as int) / radix) as nat).push(digit_char((n as int) % radix))
    }
}

#[via_fn]
proof fn spec_digits_decreases(radix: int, n: nat) {
    if 2 <= radix && radix <= n {
        lemma_div_is_strictly_smaller(n as int, radix);
        lemma_mod_bound(n as int, radix);
    }
}

/// The number a digit string denotes, most significant digit first.
pub open spec fn digits_val(radix: int, s: Seq<char>) -> int
    decreases s.len(),
{
    if s.len() == 0 {
        0
    } else {
        digits_val(radix, s.drop_last()) * radix + digit_val(s.last())
    }
}

/// Every character is a digit of the radix.
pub open spec fn all_digits(radix: int, s: Seq<char>) -> bool {
    forall|i: int| 0 <= i < s.len() ==> 0 <= #[trigger] digit_val(s[i]) < radix
}

/// A canonical digit string: nonempty, all digits, no leading zero.
pub open spec fn is_canon_digits(radix: int, s: Seq<char>) -> bool {
    &&& s.len() >= 1
    &&& all_digits(radix, s)
    &&& (s.len() > 1 ==> s[0] != '0')
}

/// Rendering a number gives a canonical digit string that reads back to
/// the same number.
pub proof fn lemma_spec_digits_canon(radix: int, n: nat)
    requires
        2 <= radix <= 16,
    ensures
        is_canon_digits(radix, spec_digits(radix, n)),
        digits_val(radix, spec_digits(radix, n)) == n,
        n >= 1 ==> digit_val(spec_digits(radix, n)[0]) >= 1,
    decreases n,
{
    if n < radix {
        let s = spec_digits(radix, n);
        assert(s =~= seq![digit_char(n as int)]);
        assert(digit_val(digit_char(n as int)) == n);
        assert(s.drop_last() =~= Seq::<char>::empty());
        assert(digits_val(radix, Seq::<char>::empty()) == 0);
        assert(digits_val(radix, s) == 0 * radix + n);
    } else {
        let q = ((n as int) / radix) as nat;
        let r = (n as int) % radix;
        lemma_div_is_strictly_smaller(n as int, radix);
        lemma_div_non_zero(n as int, radix);
        lemma_fundamental_div_mod(n as int, radix);
        lemma_mod_bound(n as int, radix);
        lemma_spec_digits_canon(radix, q);
        let s0 = spec_digits(radix, q);
        let s = spec_digits(radix, n);
        assert(s == s0.push(digit_char(r)));
        assert(s.drop_last() =~= s0);
        assert(s.last() == digit_char(r));
        assert(digit_val(digit_char(r)) == r);
        assert(digits_val(radix, s) == (q as int) * radix + r);
        assert((q as int) * radix + r == n) by {
            assert(n as int == radix * (q as int) + r);
            assert(radix * (q as int) == (q as int) * radix) by (nonlinear_arith);
        }
        assert forall|i: int| 0 <= i < s.len() implies 0 <= #[trigger] digit_val(s[i]) < radix by {
            if i < s0.len() {
                assert(s[i] == s0[i]);
            } else {
                assert(s[i] == digit_char(r));
            }
        }
        assert(s[0] == s0[0]);
        assert(digit_val(s[0]) >= 1);
        assert(s[0] != '0');
    }
}

/// A digit string never denotes a negative number.
pub proof fn lemma_digits_val_nonneg(radix: int, s: Seq<char>)
    requires
        radix >= 2,
        all_digits(radix, s),
    ensures
        digits_val(radix, s) >= 0,
    decreases s.len(),
{
    if s.len() > 0 {
        let s0 = s.drop_last();
        assert forall|i: int| 0 <= i < s0.len() implies 0 <= #[trigger] digit_val(s0[i]) < radix by {
            assert(s0[i] == s[i]);
        }
        lemma_digits_val_nonneg(radix, s0);
        assert(digits_val(radix, s0) * radix >= 0) by (nonlinear_arith)
            requires
                digits_val(radix, s0) >= 0,
                radix >= 2,
        ;
        assert(0 <= digit_val(s.last())) by {
            assert(digit_val(s[s.len() - 1]) >= 0);
        }
    }
}

/// Dropping trailing digits never increases the value.
pub proof fn lemma_digits_val_prefix(radix: int, s: Seq<char>, k: int)
    requires
        radix >= 2,
        all_digits(radix, s),
        0 <= k <= s.len(),
    ensures
        digits_val(radix, s.subrange(0, k)) <= digits_val(radix, s),
    decreases s.len() - k,
{
    if k == s.len() {
        assert(s.subrange(0, k) =~= s);
    } else {
        lemma_digits_val_prefix(radix, s, k + 1);
        let p0 = s.subrange(0, k);
        let p1 = s.subrange(0, k + 1);
        assert(p1.drop_last() =~= p0);
        assert(p1.last() == s[k]);
        assert forall|i: int| 0 <= i < p0.len() implies 0 <= #[trigger] digit_val(p0[i]) < radix by {
            assert(p0[i] == s[i]);
        }
        lemma_digits_val_nonneg(radix, p0);
        assert(digits_val(radix, p1) == digits_val(radix, p0) * radix + digit_val(s[k]));
        assert(digits_val(radix, p0) * radix >= digits_val(radix, p0)) by (nonlinear_arith)
            requires
                digits_val(radix, p0) >= 0,
                radix >= 2,
        ;
        assert(digit_val(s[k]) >= 0);
    }
}

/// The character for a digit value below sixteen.
pub fn digit_char_of(d: u8) -> (c: char)
    requires
        d < 16,
    ensures
        c == digit_char(d as int),
{
    if d == 0 {
        '0'
    } else if d == 1 {
        '1'
    } else if d == 2 {
        '2'
    } else if d == 3 {
        '3'
    } else if d == 4 {
        '4'
    } else if d == 5 {
        '5'
    } else if d == 6 {
        '6'
    } else if d == 7 {
        '7'
    } else if d == 8 {
        '8'
    } else if d == 9 {
        '9'
    } else if d == 10 {
        'a'
    } else if d == 11 {
        'b'
    } else if d == 12 {
        'c'
    } else if d == 13 {
        'd'
    } else if d == 14 {
        'e'
    } else {
        'f'
    }
}

/// The value of one digit character, or -1 when `c` is no digit.
pub fn digit_val_of(c: char) -> (v: i8)
    ensures
        v as int == digit_val(c),
{
    if c == '0' {
        0
    } else if c == '1' {
        1
    } else if c == '2' {
        2
    } else if c == '3' {
        3
    } else if c == '4' {
        4
    } else if c == '5' {
        5
    } else if c == '6' {
        6
    } else if c == '7' {
        7
    } else if c == '8' {
        8
    } else if c == '9' {
        9
    } else if c == 'a' {
        10
    } else if c == 'b' {
        11
    } else if c == 'c' {
        12
    } else if c == 'd' {
        13
    } else if c == 'e' {
        14
    } else if c == 'f' {
        15
    } else {
        -1
    }
}

/// Renders `n` as lowercase hexadecimal, without leading zeros.
pub fn hex_u128(n: u128) -> (r: String)
    ensures
        r@ == spec_digits(16, n as nat),
    decreases n,
{
    if n < 16 {
        let mut s = String::new();
        crate::strutil::push_char(&mut s, digit_char_of(n as u8));
        proof {
            assert(s@ =~= seq![digit_char(n as int)]);
        }
        s
    } else {
        let mut s = hex_u128(n / 16);
        crate::strutil::push_char(&mut s, digit_char_of((n % 16) as u8));
        proof {
            assert((((n % 16) as u8) as int) == (n as int) % 16);
            assert(((n / 16) as nat) == (((n as nat) as int) / 16) as nat);
        }
        s
    }
}

/// Renders `n` in decimal, without leading zeros.
pub fn dec_u64(n: u64) -> (r: String)
    ensures
        r@ == spec_digits(10, n as nat),
    decreases n,
{
    if n < 10 {
        let mut s = String::new();
        crate::strutil::push_char(&mut s, digit_char_of(n as u8));
        proof {
            assert(s@ =~= seq![digit_char(n as int)]);
        }
        s
    } else {
        let mut s = dec_u64(n / 10);
        crate::strutil::push_char(&mut s, digit_char_of((n % 10) as u8));
        proof {
            assert((((n % 10) as u8) as int) == (n as int) % 10);
            assert(((n / 10) as nat) == (((n as nat) as int) / 10) as nat);
        }
        s
    }
}

/// Reading a hexadecimal string: either it is no canonical digit string,
/// or its value exceeds `u128`, or the value itself.
pub enum HexParse {
    NotHex,
    TooBig,
    Value(u128),
}

/// Reads a canonical lowercase hexadecimal string back to its value.
pub fn parse_hex_u128(s: &str) -> (r: HexParse)
    ensures
        !is_canon_digits(16, s@) ==> r is NotHex,
        is_canon_digits(16, s@) && digits_val(16, s@) > u128::MAX ==> r is TooBig,
        is_canon_digits(16, s@) && digits_val(16, s@) <= u128::MAX ==> r
            == HexParse::Value(digits_val(16, s@) as u128),
{
    let len = s.unicode_len();
    if len == 0 {
        return HexParse::NotHex;
    }
    if len > 1 && s.get_char(0) == '0' {
        return HexParse::NotHex;
    }
    let mut i: usize = 0;
    while i < len
        invariant
            len == s@.len(),
            0 <= i <= len,
            forall|j: int| 0 <= j < i ==> 0 <= #[trigger] digit_val(s@[j]) < 16,
        decreases len - i,
    {
        let v = digit_val_of(s.get_char(i));
        if v < 0 {
            return HexParse::NotHex;
        }
        i += 1;
    }
    proof {
        assert(is_canon_digits(16, s@));
    }
    let mut acc: u128 = 0;
    let mut k: usize = 0;
    while k < len
        invariant
            len == s@.len(),
            0 <= k <= len,
            is_canon_digits(16, s@),
            acc as int == digits_val(16, s@.subrange(0, k as int)),
        decreases len - k,
    {
        let d = digit_val_of(s.get_char(k)) as u8;
        proof {
            assert(s@.subrange(0, k as int + 1).drop_last() =~= s@.subrange(0, k as int));
            assert(s@.subrange(0, k as int + 1).last() == s@[k as int]);
        }
        if acc > (u128::MAX - (d as u128)) / 16 {
            proof {
                let top = u128::MAX as int;
                let q = (top - d) / 16;
                lemma_fundamental_div_mod(top - d, 16);
                lemma_mod_bound(top - d, 16);
                assert(acc as int * 16 >= (q + 1) * 16) by (nonlinear_arith)
                    requires
                        acc as int >= q + 1,
                ;
                assert(digits_val(16, s@.subrange(0, k as int + 1)) > top);
                lemma_digits_val_prefix(16, s@, k as int + 1);
            }
            return HexParse::TooBig;
        }
        proof {
            let top = u128::MAX as int;
            let q = (top - d) / 16;
            lemma_fundamental_div_mod(top - d, 16);
            lemma_mod_bound(top - d, 16);
            assert(acc as int * 16 <= q * 16) by (nonlinear_arith)
                requires
                    acc as int <= q,
            ;
        }
        acc = acc * 16 + (d as u128);
        k += 1;
    }
    proof {
        assert(s@.subrange(0, len as int) =~= s@);
    }
    HexParse::Value(acc)
}

} // verus!
