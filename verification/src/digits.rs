//! Decimal text for unsigned integers: the canonical digit string of a
//! number, a parser for digit strings, and the round trip between them.

use vstd::prelude::*;

verus! {

/// Whether `c` is a decimal digit.
pub open spec fn is_digit(c: char) -> bool {
    '0' <= c && c <= '9'
}

/// The numeric value of a digit character.
pub open spec fn digit_val(c: char) -> nat {
    (c as nat - '0' as nat) as nat
}

/// The digit character for a value below ten.
pub open spec fn digit_char(d: nat) -> char {
    if d == 0 {
        '0'
    } else if d == 1 {
        '1'
    } else if d == 2 {
        '2'
    } else if d == 3 {
        '3'
    } else if d == 4 {
        '4'
    } else if d == 5 {
        '5'
    } else if d == 6 {
        '6'
    } else if d == 7 {
        '7'
    } else if d == 8 {
        '8'
    } else {
        '9'
    }
}

/// The canonical decimal rendering of `n`: no sign, no leading zero except
/// for zero itself.
pub open spec fn dec_chars(n: nat) -> Seq<char>
    decreases n,
{
    if n < 10 {
        seq![digit_char(n)]
    } else {
        dec_chars(n / 10) + seq![digit_char(n % 10)]
    }
}

/// Whether every character of `s` is a decimal digit.
pub open spec fn all_digits(s: Seq<char>) -> bool {
    forall|i: int| 0 <= i < s.len() ==> is_digit(#[trigger] s[i])
}

/// The value of a digit string, most significant digit first.
pub open spec fn dec_value(s: Seq<char>) -> nat
    decreases s.len(),
{
    if s.len() == 0 {
        0
    } else {
        dec_value(s.drop_last()) * 10 + digit_val(s.last())
    }
}

/// Whether `s` is a digit string that this crate's parser accepts as a
/// `usize`: non-empty, digits only, and within range.
pub open spec fn usize_parsable(s: Seq<char>) -> bool {
    s.len() > 0 && all_digits(s) && dec_value(s) <= usize::MAX
}

proof fn lemma_digit_char_val(d: nat)
    requires
        d < 10,
    ensures
        is_digit(digit_char(d)),
        digit_val(digit_char(d)) == d,
{
}

/// The canonical rendering consists of digits.
pub proof fn lemma_dec_chars_digits(n: nat)
    ensures
        dec_chars(n).len() > 0,
        all_digits(dec_chars(n)),
    decreases n,
{
    if n < 10 {
        lemma_digit_char_val(n);
    } else {
        lemma_dec_chars_digits(n / 10);
        lemma_digit_char_val(n % 10);
        assert forall|i: int| 0 <= i < dec_chars(n).len() implies is_digit(#[trigger] dec_chars(n)[i]) by {
            if i < dec_chars(n / 10).len() {
                assert(dec_chars(n)[i] == dec_chars(n / 10)[i]);
            }
        }
    }
}

/// Rendering then evaluating a number gives the number back.
pub proof fn lemma_dec_value_of_chars(n: nat)
    ensures
        dec_value(dec_chars(n)) == n,
    decreases n,
{
    if n < 10 {
        lemma_digit_char_val(n);
        assert(dec_chars(n) == seq![digit_char(n)]);
        assert(dec_chars(n).len() == 1);
        assert(dec_chars(n).drop_last() =~= Seq::<char>::empty());
        assert(dec_value(Seq::<char>::empty()) == 0);
        assert(dec_chars(n).last() == digit_char(n));
        assert(dec_value(dec_chars(n)) == 0 * 10 + digit_val(digit_char(n)));
    } else {
        lemma_dec_value_of_chars(n / 10);
        lemma_digit_char_val(n % 10);
        lemma_dec_chars_digits(n / 10);
        assert(dec_chars(n) == dec_chars(n / 10) + seq![digit_char(n % 10)]);
        assert(dec_chars(n).len() >= 1);
        assert(dec_chars(n).drop_last() =~= dec_chars(n / 10));
        assert(dec_chars(n).last() == digit_char(n % 10));
        assert(dec_value(dec_chars(n)) == dec_value(dec_chars(n / 10)) * 10 + digit_val(
            digit_char(n % 10),
        ));
        assert(dec_value(dec_chars(n)) == (n / 10) * 10 + n % 10);
        vstd::arithmetic::div_mod::lemma_fundamental_div_mod(n as int, 10);
    }
}

/// A digit appended to a digit string multiplies its value by ten, so the
/// value can only grow along a prefix.
pub proof fn lemma_dec_value_prefix_monotone(s: Seq<char>, k: int)
    requires
        0 <= k <= s.len(),
        all_digits(s),
    ensures
        dec_value(s.take(k)) <= dec_value(s),
    decreases s.len() - k,
{
    if k < s.len() {
        lemma_dec_value_prefix_monotone(s, k + 1);
        assert(s.take(k + 1).drop_last() =~= s.take(k));
        assert(s.take(k + 1).last() == s[k]);
        assert(dec_value(s.take(k)) <= dec_value(s.take(k + 1)));
    } else {
        assert(s.take(k) =~= s);
    }
}

/// The digit character for a value below ten.
pub fn digit_to_char(d: usize) -> (c: char)
    requires
        d < 10,
    ensures
        c == digit_char(d as nat),
{
    match d {
        0 => '0',
        1 => '1',
        2 => '2',
        3 => '3',
        4 => '4',
        5 => '5',
        6 => '6',
        7 => '7',
        8 => '8',
        _ => '9',
    }
}

/// The value of a digit character, or `None` for any other character.
pub fn char_to_digit(c: char) -> (r: Option<usize>)
    ensures
        r is Some <==> is_digit(c),
        r is Some ==> r->0 == digit_val(c) && r->0 < 10,
{
    if '0' <= c && c <= '9' {
        Some((c as u32 - '0' as u32) as usize)
    } else {
        None
    }
}

/// The canonical decimal rendering of `n`, as characters.
pub fn usize_to_chars(n: usize) -> (v: Vec<char>)
    ensures
        v@ == dec_chars(n as nat),
    decreases n,
{
    if n < 10 {
        let mut v: Vec<char> = Vec::new();
        v.push(digit_to_char(n));
        proof {
            assert(v@ =~= dec_chars(n as nat));
        }
        v
    } else {
        let mut v = usize_to_chars(n / 10);
        v.push(digit_to_char(n % 10));
        proof {
            assert(v@ =~= dec_chars(n as nat));
        }
        v
    }
}

/// Parses the characters of `s` from `from` (inclusive) to `to` (exclusive)
/// as an unsigned decimal number. Returns `Some` exactly when that range is
/// non-empty, all digits, and its value fits in `usize`.
pub fn parse_usize_range(s: &Vec<char>, from: usize, to: usize) -> (r: Option<usize>)
    requires
        from <= to <= s@.len(),
    ensures
        r is Some <==> usize_parsable(s@.subrange(from as int, to as int)),
        r is Some ==> r->0 == dec_value(s@.subrange(from as int, to as int)),
{
    let ghost piece = s@.subrange(from as int, to as int);
    if from == to {
        return None;
    }
    let mut acc: usize = 0;
    let mut i: usize = from;
    while i < to
        invariant
            from <= i <= to <= s@.len(),
            piece == s@.subrange(from as int, to as int),
            all_digits(piece.take(i - from)),
            acc == dec_value(piece.take(i - from)),
        decreases to - i,
    {
        let c = s[i];
        assert(c == piece[i - from]);
        match char_to_digit(c) {
            None => {
                assert(!all_digits(piece)) by {
                    assert(!is_digit(piece[i - from]));
                }
                return None;
            },
            Some(d) => {
                let next = match acc.checked_mul(10) {
                    Some(m) => m.checked_add(d),
                    None => None,
                };
                proof {
                    assert(piece.take(i - from + 1).drop_last() =~= piece.take(i - from));
                    assert(piece.take(i - from + 1).last() == piece[i - from]);
                }
                match next {
                    None => {
                        proof {
                            assert(dec_value(piece.take(i - from + 1)) > usize::MAX);
                            if all_digits(piece) {
                                lemma_dec_value_prefix_monotone(piece, i - from + 1);
                            }
                        }
                        return None;
                    },
                    Some(v) => {
                        acc = v;
                        i = i + 1;
                    },
                }
            },
        }
    }
    proof {
        assert(piece.take(to - from) =~= piece);
    }
    Some(acc)
}

} // verus!
