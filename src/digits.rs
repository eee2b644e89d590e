//! Unsigned numbers written in decimal or hexadecimal digits: what a digit
//! string denotes, how a number is rendered, and a checked reader.
use vstd::prelude::*;

verus! {

/// The value of a digit character in any radix up to 16, either case of
/// letter accepted; 16 for every other character.
pub open spec fn digit_value(c: char) -> int {
    let u = c as u32;
    if 0x30 <= u <= 0x39 {
        u - 0x30
    } else if 0x61 <= u <= 0x66 {
        u - 0x61 + 10
    } else if 0x41 <= u <= 0x46 {
        u - 0x41 + 10
    } else {
        16
    }
}

/// Every character of `s` is a digit of `radix`.
pub open spec fn all_digits(s: Seq<char>, radix: int) -> bool {
    forall|i: int| 0 <= i < s.len() ==> #[trigger] digit_value(s[i]) < radix
}

/// The number that the digits of `s` spell in `radix`, most significant first.
pub open spec fn digits_value(s: Seq<char>, radix: int) -> int
    decreases s.len(),
{
    if s.len() == 0 {
        0
    } else {
        digits_value(s.drop_last(), radix) * radix + digit_value(s.last())
    }
}

/// The number that `s` writes in `radix`, if it is well formed and at most
/// `max`: one or more digits, after one optional leading `+`.
pub open spec fn unsigned_of(s: Seq<char>, radix: int, max: int) -> Option<int> {
    let d = if s.len() > 0 && s[0] == '+' {
        s.drop_first()
    } else {
        s
    };
    if d.len() > 0 && all_digits(d, radix) && digits_value(d, radix) <= max {
        Some(digits_value(d, radix))
    } else {
        None
    }
}

/// The character for a digit below 16, letters upper case.
pub open spec fn digit_char(d: int) -> char {
    if d < 10 {
        ((0x30 + d) as u8) as char
    } else {
        ((0x41 - 10 + d) as u8) as char
    }
}

/// `n` in decimal, without leading zeros.
pub open spec fn decimal(n: nat) -> Seq<char>
    decreases n,
{
    if n < 10 {
        seq![digit_char(n as int)]
    } else {
        decimal(n / 10).push(digit_char((n % 10) as int))
    }
}

/// The low `width` hexadecimal digits of `v`, upper case, zeros in front.
pub open spec fn upper_hex(v: nat, width: nat) -> Seq<char>
    decreases width,
{
    if width == 0 {
        seq![]
    } else {
        upper_hex(v / 16, (width - 1) as nat).push(digit_char((v % 16) as int))
    }
}

/// 16 to the power of `e`.
pub open spec fn pow16(e: nat) -> int
    decreases e,
{
    if e == 0 {
        1
    } else {
        16 * pow16((e - 1) as nat)
    }
}

/// Relies on String::push: the character is appended at the end.
#[verifier::external_body]
pub(crate) fn push_char(s: &mut String, c: char)
    ensures
        final(s)@ == old(s)@.push(c),
{
    s.push(c);
}

/// The character for a digit below 16.
fn digit_to_char(d: u64) -> (c: char)
    requires
        d < 16,
    ensures
        c == digit_char(d as int),
{
    if d < 10 {
        ((0x30 + d) as u8) as char
    } else {
        ((0x41 - 10 + d) as u8) as char
    }
}

/// Appends `n` in decimal.
pub fn push_decimal(out: &mut String, n: u64)
    ensures
        final(out)@ == old(out)@ + decimal(n as nat),
    decreases n,
{
    if n >= 10 {
        push_decimal(out, n / 10);
    }
    push_char(out, digit_to_char(n % 10));
    assert(final(out)@ =~= old(out)@ + decimal(n as nat));
}

/// Appends the low `width` hexadecimal digits of `v`, upper case.
pub fn push_upper_hex(out: &mut String, v: u64, width: u32)
    ensures
        final(out)@ == old(out)@ + upper_hex(v as nat, width as nat),
    decreases width,
{
    if width > 0 {
        push_upper_hex(out, v / 16, width - 1);
        push_char(out, digit_to_char(v % 16));
    }
    assert(final(out)@ =~= old(out)@ + upper_hex(v as nat, width as nat));
}

/// The value of a character as a digit, as `digit_value` gives it.
fn digit_of(c: char) -> (r: u64)
    ensures
        r == digit_value(c),
{
    let u = c as u32;
    if 0x30 <= u && u <= 0x39 {
        (u - 0x30) as u64
    } else if 0x61 <= u && u <= 0x66 {
        (u - 0x61 + 10) as u64
    } else if 0x41 <= u && u <= 0x46 {
        (u - 0x41 + 10) as u64
    } else {
        16
    }
}

/// A digit string is worth at least each of its prefixes.
proof fn lemma_prefix_at_most(s: Seq<char>, radix: int, k: int)
    requires
        2 <= radix,
        0 <= k <= s.len(),
        all_digits(s, radix),
    ensures
        0 <= digits_value(s.take(k), radix) <= digits_value(s, radix),
    decreases s.len() - k,
{
    lemma_value_nonneg(s.take(k), radix);
    if k < s.len() {
        lemma_prefix_at_most(s, radix, k + 1);
        assert(s.take(k + 1).drop_last() =~= s.take(k));
        let p = digits_value(s.take(k), radix);
        assert(p <= p * radix) by (nonlinear_arith)
            requires
                p >= 0,
                radix >= 2,
        ;
    } else {
        assert(s.take(k) =~= s);
    }
}

/// A digit string spells no negative number.
proof fn lemma_value_nonneg(s: Seq<char>, radix: int)
    requires
        2 <= radix,
        all_digits(s, radix),
    ensures
        digits_value(s, radix) >= 0,
    decreases s.len(),
{
    if s.len() > 0 {
        assert(all_digits(s.drop_last(), radix)) by {
            assert forall|i: int| 0 <= i < s.len() - 1 implies #[trigger] digit_value(
                s.drop_last()[i],
            ) < radix by {
                assert(s.drop_last()[i] == s[i]);
            }
        }
        lemma_value_nonneg(s.drop_last(), radix);
        let p = digits_value(s.drop_last(), radix);
        assert(p * radix >= 0) by (nonlinear_arith)
            requires
                p >= 0,
                radix >= 2,
        ;
    }
}

/// Reads an unsigned number in `radix` from `s`: one optional `+`, then one
/// or more digits, the value at most `max`.
pub fn parse_unsigned(s: &Vec<char>, radix: u64, max: u64) -> (r: Option<u64>)
    requires
        2 <= radix <= 16,
    ensures
        match r {
            Some(v) => unsigned_of(s@, radix as int, max as int) == Some(v as int),
            None => unsigned_of(s@, radix as int, max as int) is None,
        },
{
    let n = s.len();
    let mut i: usize = 0;
    if n > 0 && s[0] == '+' {
        i = 1;
    }
    let start = i;
    let ghost d = s@.subrange(start as int, n as int);
    assert(d =~= if s@.len() > 0 && s@[0] == '+' {
        s@.drop_first()
    } else {
        s@
    });
    if i == n {
        return None;
    }
    let mut acc: u64 = 0;
    while i < n
        invariant
            start <= i <= n,
            n == s@.len(),
            d == s@.subrange(start as int, n as int),
            d == (if s@.len() > 0 && s@[0] == '+' {
                s@.drop_first()
            } else {
                s@
            }),
            start < n,
            2 <= radix <= 16,
            all_digits(d.take(i - start), radix as int),
            acc == digits_value(d.take(i - start), radix as int),
            acc <= max,
        decreases n - i,
    {
        let k: Ghost<int> = Ghost(i - start);
        assert(d[k@] == s@[i as int]);
        let dv = digit_of(s[i]);
        if dv >= radix {
            assert(digit_value(d[k@]) >= radix);
            return None;
        }
        assert(d.take(k@ + 1).drop_last() =~= d.take(k@));
        assert(d.take(k@ + 1).last() == d[k@]);
        assert(digits_value(d.take(k@ + 1), radix as int) == acc * radix + dv);
        assert(all_digits(d.take(k@ + 1), radix as int)) by {
            assert forall|j: int| 0 <= j < k@ + 1 implies #[trigger] digit_value(
                d.take(k@ + 1)[j],
            ) < radix by {
                if j < k@ {
                    assert(d.take(k@ + 1)[j] == d.take(k@)[j]);
                }
            }
        }
        if dv > max || acc > (max - dv) / radix {
            proof {
                assert(acc * radix + dv > max) by (nonlinear_arith)
                    requires
                        dv > max || acc > (max - dv) as int / radix as int,
                        acc >= 0,
                        radix >= 2,
                ;
                if all_digits(d, radix as int) {
                    lemma_prefix_at_most(d, radix as int, k@ + 1);
                }
            }
            return None;
        }
        assert(acc * radix + dv <= max) by (nonlinear_arith)
            requires
                acc <= (max - dv) as int / radix as int,
                radix >= 2,
                dv <= max,
        ;
        acc = acc * radix + dv;
        i = i + 1;
    }
    assert(d.take(n - start) =~= d);
    Some(acc)
}

/// The character for a digit is read back as that digit.
pub proof fn lemma_digit_char(d: int)
    requires
        0 <= d < 16,
    ensures
        digit_value(digit_char(d)) == d,
{
}

/// A decimal rendering is a non-empty digit string worth the number.
pub proof fn lemma_decimal(n: nat)
    ensures
        decimal(n).len() > 0,
        all_digits(decimal(n), 10),
        digits_value(decimal(n), 10) == n,
    decreases n,
{
    if n < 10 {
        lemma_digit_char(n as int);
        assert(decimal(n).drop_last() =~= seq![]);
        assert(digits_value(seq![], 10) == 0);
    } else {
        lemma_decimal(n / 10);
        lemma_digit_char((n % 10) as int);
        let s = decimal(n);
        assert(s.drop_last() =~= decimal(n / 10));
        vstd::arithmetic::div_mod::lemma_fundamental_div_mod(n as int, 10);
        assert forall|i: int| 0 <= i < s.len() implies #[trigger] digit_value(s[i]) < 10 by {
            if i < s.len() - 1 {
                assert(s[i] == decimal(n / 10)[i]);
            }
        }
    }
}

/// A decimal rendering is read back as its number, when that is at most `max`.
pub proof fn lemma_decimal_read_back(n: nat, max: int)
    requires
        n <= max,
    ensures
        unsigned_of(decimal(n), 10, max) == Some(n as int),
{
    lemma_decimal(n);
    assert(digit_value(decimal(n)[0]) < 10);
}

/// The upper-case rendering in `width` digits is a digit string worth the
/// value modulo 16^width.
pub proof fn lemma_upper_hex(v: nat, width: nat)
    ensures
        upper_hex(v, width).len() == width,
        all_digits(upper_hex(v, width), 16),
        digits_value(upper_hex(v, width), 16) == v as int % pow16(width),
    decreases width,
{
    if width == 0 {
    } else {
        let w = (width - 1) as nat;
        lemma_upper_hex(v / 16, w);
        lemma_digit_char((v % 16) as int);
        let s = upper_hex(v, width);
        assert(s.drop_last() =~= upper_hex(v / 16, w));
        assert forall|i: int| 0 <= i < s.len() implies #[trigger] digit_value(s[i]) < 16 by {
            if i < s.len() - 1 {
                assert(s[i] == upper_hex(v / 16, w)[i]);
            }
        }
        lemma_pow16_positive(w);
        vstd::arithmetic::div_mod::lemma_mod_breakdown(v as int, 16, pow16(w));
    }
}

/// Powers of 16 are positive.
proof fn lemma_pow16_positive(e: nat)
    ensures
        pow16(e) > 0,
    decreases e,
{
    if e > 0 {
        lemma_pow16_positive((e - 1) as nat);
    }
}

} // verus!
