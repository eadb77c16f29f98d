//! Decimal rendering and parsing of the integers the codecs carry, with
//! the round-trip between them proved.

use vstd::prelude::*;

verus! {

/// Whether `c` is a decimal digit.
pub open spec fn is_digit(c: char) -> bool {
    48 <= c as u32 <= 57
}

/// The numeric value of a digit character.
pub open spec fn digit_val(c: char) -> int {
    c as u32 - 48
}

/// The digit character for a value below ten.
pub open spec fn digit_char(d: int) -> char {
    if d == 0 {
        '0'
    } else if d == 1 {
        '1'
    } else if d == 2 {
        '2'
    } else if d == 3 {
        '3'
    } else if d == 4 {
        '4'
    } else if d == 5 {
        '5'
    } else if d == 6 {
        '6'
    } else if d == 7 {
        '7'
    } else if d == 8 {
        '8'
    } else {
        '9'
    }
}

/// The decimal rendering of a natural number, most significant digit
/// first, without leading zeroes (`0` renders as "0").
pub open spec fn dec_nat(n: nat) -> Seq<char>
    decreases n,
{
    if n < 10 {
        seq![digit_char(n as int)]
    } else {
        dec_nat(n / 10).push(digit_char((n % 10) as int))
    }
}

/// The decimal rendering of an integer: a minus sign for negatives, then
/// the magnitude.
pub open spec fn dec_int(n: int) -> Seq<char> {
    if n < 0 {
        seq!['-'] + dec_nat((-n) as nat)
    } else {
        dec_nat(n as nat)
    }
}

/// Every character of `dec_nat(n)` is a digit, and there is at least one.
pub proof fn lemma_dec_nat_digits(n: nat)
    ensures
        dec_nat(n).len() >= 1,
        forall|i: int| 0 <= i < dec_nat(n).len() ==> is_digit(#[trigger] dec_nat(n)[i]),
    decreases n,
{
    if n >= 10 {
        lemma_dec_nat_digits(n / 10);
    }
}

/// The value a left-to-right digit scan accumulates over `s`, starting
/// from `acc`.
pub open spec fn digits_val_acc(s: Seq<char>, acc: int) -> int
    decreases s.len(),
{
    if s.len() == 0 {
        acc
    } else {
        digits_val_acc(s.drop_first(), acc * 10 + digit_val(s[0]))
    }
}

/// Scanning one more digit at the right multiplies the scanned value by
/// ten and adds it.
pub proof fn lemma_digits_val_acc_push(s: Seq<char>, c: char, acc: int)
    ensures
        digits_val_acc(s.push(c), acc) == digits_val_acc(s, acc) * 10 + digit_val(c),
    decreases s.len(),
{
    reveal_with_fuel(digits_val_acc, 3);
    if s.len() == 0 {
        assert(s.push(c)[0] == c);
        assert(s.push(c).drop_first() =~= Seq::<char>::empty());
        assert(digits_val_acc(s.push(c), acc) == acc * 10 + digit_val(c));
    } else {
        assert(s.push(c)[0] == s[0]);
        assert(s.push(c).drop_first() =~= s.drop_first().push(c));
        lemma_digits_val_acc_push(s.drop_first(), c, acc * 10 + digit_val(s[0]));
    }
}

/// The scan of a rendered natural starting from zero gives it back.
pub proof fn lemma_dec_nat_val(n: nat)
    ensures
        digits_val_acc(dec_nat(n), 0) == n,
    decreases n,
{
    reveal_with_fuel(digits_val_acc, 3);
    if n < 10 {
        assert(dec_nat(n)[0] == digit_char(n as int));
        assert(digit_val(digit_char(n as int)) == n);
        assert(dec_nat(n).drop_first() =~= Seq::<char>::empty());
    } else {
        lemma_dec_nat_val(n / 10);
        assert(digit_val(digit_char((n % 10) as int)) == n % 10);
        lemma_digits_val_acc_push(dec_nat(n / 10), digit_char((n % 10) as int), 0);
    }
}

/// The scanned value never falls below the accumulator it started from.
pub proof fn lemma_digits_val_acc_lower(s: Seq<char>, acc: int)
    requires
        acc >= 0,
        forall|i: int| 0 <= i < s.len() ==> is_digit(#[trigger] s[i]),
    ensures
        digits_val_acc(s, acc) >= acc,
    decreases s.len(),
{
    if s.len() > 0 {
        lemma_digits_val_acc_lower(s.drop_first(), acc * 10 + digit_val(s[0]));
    }
}

/// A digit scan: consumes digits from `pos` on, accumulating into `acc`,
/// and stops before the first non-digit; `None` on overflow past `u64`.
pub open spec fn spec_parse_digits(v: Seq<char>, pos: int, acc: u64) -> Option<(u64, int)>
    decreases v.len() - pos,
    when 0 <= pos <= v.len()
{
    if pos < v.len() && is_digit(v[pos]) {
        let d = digit_val(v[pos]);
        if acc > (u64::MAX - d) / 10 {
            None
        } else {
            spec_parse_digits(v, pos + 1, (acc * 10 + d) as u64)
        }
    } else {
        Some((acc, pos))
    }
}

/// An unsigned decimal number: at least one digit, greedily consumed.
pub open spec fn spec_parse_u64(v: Seq<char>, pos: int) -> Option<(u64, int)> {
    if 0 <= pos < v.len() && is_digit(v[pos]) {
        spec_parse_digits(v, pos, 0)
    } else {
        None
    }
}

/// A signed decimal number fitting `i64`: an optional minus sign, then
/// digits.
pub open spec fn spec_parse_i64(v: Seq<char>, pos: int) -> Option<(i64, int)> {
    if 0 <= pos < v.len() && v[pos] == '-' {
        match spec_parse_u64(v, pos + 1) {
            Some((m, end)) => if m <= 9223372036854775808u64 {
                Some(((-(m as int)) as i64, end))
            } else {
                None
            },
            None => None,
        }
    } else {
        match spec_parse_u64(v, pos) {
            Some((m, end)) => if m <= i64::MAX as u64 {
                Some((m as i64, end))
            } else {
                None
            },
            None => None,
        }
    }
}

/// The digit scan consumes exactly a digit run bounded by a non-digit and
/// yields the value the run spells.
pub proof fn lemma_parse_digit_run(v: Seq<char>, pos: int, len: int, acc: u64)
    requires
        0 <= pos,
        0 <= len,
        pos + len <= v.len(),
        forall|i: int| pos <= i < pos + len ==> is_digit(#[trigger] v[i]),
        pos + len == v.len() || !is_digit(v[pos + len]),
        0 <= digits_val_acc(v.subrange(pos, pos + len), acc as int) <= u64::MAX,
    ensures
        spec_parse_digits(v, pos, acc) == Some(
            (digits_val_acc(v.subrange(pos, pos + len), acc as int) as u64, pos + len),
        ),
    decreases len,
{
    let run = v.subrange(pos, pos + len);
    if len == 0 {
        assert(run.len() == 0);
    } else {
        assert(run[0] == v[pos]);
        let d = digit_val(v[pos]);
        let acc2 = acc * 10 + d;
        assert(run.drop_first() =~= v.subrange(pos + 1, pos + len));
        assert(digits_val_acc(run, acc as int) == digits_val_acc(run.drop_first(), acc2));
        assert forall|i: int| 0 <= i < run.drop_first().len() implies is_digit(
            #[trigger] run.drop_first()[i],
        ) by {
            assert(run.drop_first()[i] == v[pos + 1 + i]);
        }
        lemma_digits_val_acc_lower(run.drop_first(), acc2);
        assert(acc2 <= u64::MAX);
        assert(acc <= (u64::MAX - d) / 10);
        lemma_parse_digit_run(v, pos + 1, len - 1, acc2 as u64);
    }
}

/// Parsing right after a rendered natural bounded by a non-digit gives the
/// number back and stops right behind it.
pub proof fn lemma_parse_u64_round_trip(v: Seq<char>, pos: int, n: u64)
    requires
        0 <= pos,
        pos + dec_nat(n as nat).len() <= v.len(),
        v.subrange(pos, pos + dec_nat(n as nat).len()) == dec_nat(n as nat),
        pos + dec_nat(n as nat).len() == v.len() || !is_digit(v[pos + dec_nat(n as nat).len()]),
    ensures
        spec_parse_u64(v, pos) == Some((n, pos + dec_nat(n as nat).len())),
{
    let s = dec_nat(n as nat);
    lemma_dec_nat_digits(n as nat);
    lemma_dec_nat_val(n as nat);
    assert forall|i: int| pos <= i < pos + s.len() implies is_digit(#[trigger] v[i]) by {
        assert(v[i] == s[i - pos]);
    }
    assert(v[pos] == s[0]);
    lemma_parse_digit_run(v, pos, s.len() as int, 0);
}

/// Parsing right after a rendered integer bounded by a non-digit gives the
/// number back and stops right behind it.
pub proof fn lemma_parse_i64_round_trip(v: Seq<char>, pos: int, n: i64)
    requires
        0 <= pos,
        pos + dec_int(n as int).len() <= v.len(),
        v.subrange(pos, pos + dec_int(n as int).len()) == dec_int(n as int),
        pos + dec_int(n as int).len() == v.len() || !is_digit(v[pos + dec_int(n as int).len()]),
    ensures
        spec_parse_i64(v, pos) == Some((n, pos + dec_int(n as int).len())),
{
    if n >= 0 {
        assert(dec_int(n as int) == dec_nat(n as nat));
        lemma_parse_u64_round_trip(v, pos, n as u64);
        assert(dec_nat(n as nat).len() >= 1) by {
            lemma_dec_nat_digits(n as nat);
        }
        assert(v[pos] == dec_nat(n as nat)[0]);
        assert(is_digit(v[pos])) by {
            lemma_dec_nat_digits(n as nat);
        }
        assert(v[pos] != '-');
    } else {
        let m = (-(n as int)) as nat;
        let s = dec_int(n as int);
        assert(s == seq!['-'] + dec_nat(m));
        assert(v[pos] == s[0]);
        assert(s[0] == '-');
        assert(v.subrange(pos + 1, pos + s.len()) =~= dec_nat(m)) by {
            assert forall|i: int| 0 <= i < s.len() - 1 implies v.subrange(
                pos + 1,
                pos + s.len(),
            )[i] == dec_nat(m)[i] by {
                assert(v[pos + 1 + i] == s[1 + i]);
                assert(s[1 + i] == dec_nat(m)[i]);
            }
        }
        lemma_parse_u64_round_trip(v, pos + 1, m as u64);
        assert(m <= 9223372036854775808u64);
    }
}

/// The decimal digits of `n`, most significant first.
pub fn u64_to_chars(n: u64) -> (r: Vec<char>)
    ensures
        r@ == dec_nat(n as nat),
    decreases n,
{
    if n < 10 {
        let c = digit_to_char((n % 10) as u8);
        let mut r: Vec<char> = Vec::new();
        r.push(c);
        proof {
            assert(r@ =~= dec_nat(n as nat));
        }
        r
    } else {
        let mut r = u64_to_chars(n / 10);
        let c = digit_to_char((n % 10) as u8);
        r.push(c);
        proof {
            assert(r@ =~= dec_nat(n as nat));
        }
        r
    }
}

/// The decimal rendering of `n`, sign included.
pub fn i64_to_chars(n: i64) -> (r: Vec<char>)
    ensures
        r@ == dec_int(n as int),
{
    if n >= 0 {
        u64_to_chars(n as u64)
    } else {
        let m: u64 = ((-(n + 1)) as u64) + 1;
        proof {
            assert(m as int == -(n as int));
        }
        let digits = u64_to_chars(m);
        let mut r: Vec<char> = Vec::new();
        r.push('-');
        let mut i: usize = 0;
        while i < digits.len()
            invariant
                i <= digits@.len(),
                r@ =~= seq!['-'] + digits@.take(i as int),
            decreases digits@.len() - i,
        {
            r.push(digits[i]);
            assert(r@ =~= seq!['-'] + digits@.take(i + 1));
            i = i + 1;
        }
        proof {
            assert(digits@.take(digits@.len() as int) =~= digits@);
            assert(r@ =~= dec_int(n as int));
        }
        r
    }
}

/// The digit character for a value below ten.
pub fn digit_to_char(d: u8) -> (c: char)
    requires
        d < 10,
    ensures
        c == digit_char(d as int),
{
    match d {
        0 => '0',
        1 => '1',
        2 => '2',
        3 => '3',
        4 => '4',
        5 => '5',
        6 => '6',
        7 => '7',
        8 => '8',
        _ => '9',
    }
}

/// Whether `c` is a decimal digit.
pub fn is_digit_char(c: char) -> (r: bool)
    ensures
        r == is_digit(c),
{
    c >= '0' && c <= '9'
}

/// Reads an unsigned decimal number at `pos`, exactly as
/// [`spec_parse_u64`] describes.
pub fn parse_u64(v: &Vec<char>, pos: usize) -> (r: Option<(u64, usize)>)
    requires
        pos <= v@.len(),
    ensures
        match r {
            Some((n, end)) => spec_parse_u64(v@, pos as int) == Some((n, end as int)) && pos < end
                <= v@.len(),
            None => spec_parse_u64(v@, pos as int) is None,
        },
{
    if pos >= v.len() || !is_digit_char(v[pos]) {
        return None;
    }
    let mut acc: u64 = 0;
    let mut p: usize = pos;
    while p < v.len() && is_digit_char(v[p])
        invariant
            pos <= p <= v@.len(),
            spec_parse_digits(v@, pos as int, 0) == spec_parse_digits(v@, p as int, acc),
        decreases v@.len() - p,
    {
        let d = char_to_digit(v[p]);
        if acc > (u64::MAX - d as u64) / 10 {
            return None;
        }
        acc = acc * 10 + d as u64;
        p = p + 1;
    }
    proof {
        assert(spec_parse_digits(v@, p as int, acc) == Some((acc, p as int)));
        if p == pos {
            assert(is_digit(v@[pos as int]));
        }
    }
    Some((acc, p))
}

/// Reads a signed decimal number at `pos`, exactly as [`spec_parse_i64`]
/// describes.
pub fn parse_i64(v: &Vec<char>, pos: usize) -> (r: Option<(i64, usize)>)
    requires
        pos <= v@.len(),
    ensures
        match r {
            Some((n, end)) => spec_parse_i64(v@, pos as int) == Some((n, end as int)) && pos < end
                <= v@.len(),
            None => spec_parse_i64(v@, pos as int) is None,
        },
{
    if pos < v.len() && v[pos] == '-' {
        match parse_u64(v, pos + 1) {
            Some((m, end)) => {
                if m <= 9223372036854775808u64 {
                    let n: i64 = if m == 9223372036854775808u64 {
                        i64::MIN
                    } else {
                        -(m as i64)
                    };
                    proof {
                        assert(n as int == -(m as int));
                    }
                    Some((n, end))
                } else {
                    None
                }
            },
            None => None,
        }
    } else {
        match parse_u64(v, pos) {
            Some((m, end)) => {
                if m <= i64::MAX as u64 {
                    Some((m as i64, end))
                } else {
                    None
                }
            },
            None => None,
        }
    }
}

/// The numeric value of a digit character.
pub fn char_to_digit(c: char) -> (d: u8)
    requires
        is_digit(c),
    ensures
        d == digit_val(c),
        d < 10,
{
    (c as u32 - 48) as u8
}

} // verus!
