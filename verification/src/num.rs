//! Decimal and hexadecimal numerals as byte text.

use vstd::prelude::*;

verus! {

/// Decimal digit.
pub open spec fn is_dec_digit(b: u8) -> bool {
    48 <= b <= 57
}

/// Every byte of `s` is a decimal digit.
pub open spec fn all_dec_digits(s: Seq<u8>) -> bool {
    forall|i: int| 0 <= i < s.len() ==> is_dec_digit(s[i])
}

/// Value of a decimal numeral (most significant digit first).
pub open spec fn dec_val(s: Seq<u8>) -> nat
    decreases s.len(),
{
    if s.len() == 0 {
        0
    } else {
        dec_val(s.drop_last()) * 10 + (s.last() - 48) as nat
    }
}

/// The canonical decimal numeral of `n`, without leading zeros.
pub open spec fn dec_digits(n: nat) -> Seq<u8>
    decreases n,
{
    if n < 10 {
        seq![(48 + n) as u8]
    } else {
        dec_digits(n / 10) + seq![(48 + n % 10) as u8]
    }
}

/// Hexadecimal digit.
pub open spec fn is_hex_digit(b: u8) -> bool {
    (48 <= b <= 57) || (97 <= b <= 102) || (65 <= b <= 70)
}

/// Numeric value of one hexadecimal digit.
pub open spec fn hex_digit_val(b: u8) -> nat {
    if 48 <= b <= 57 {
        (b - 48) as nat
    } else if 97 <= b <= 102 {
        (b - 87) as nat
    } else if 65 <= b <= 70 {
        (b - 55) as nat
    } else {
        0
    }
}

/// Every byte of `s` is a hexadecimal digit.
pub open spec fn all_hex_digits(s: Seq<u8>) -> bool {
    forall|i: int| 0 <= i < s.len() ==> is_hex_digit(s[i])
}

/// Value of a hexadecimal numeral (most significant digit first).
pub open spec fn hex_val(s: Seq<u8>) -> nat
    decreases s.len(),
{
    if s.len() == 0 {
        0
    } else {
        hex_val(s.drop_last()) * 16 + hex_digit_val(s.last())
    }
}

/// Parses a decimal numeral; `None` when `s` is empty, holds a
/// non-digit, or its value exceeds `u64::MAX`.
pub fn parse_dec_u64(s: &[u8]) -> (r: Option<u64>)
    ensures
        r matches Some(v) ==> s@.len() > 0 && all_dec_digits(s@) && v == dec_val(s@),
        r is None <==> (s@.len() == 0 || !all_dec_digits(s@) || dec_val(s@) > u64::MAX),
{
    if s.len() == 0 {
        return None;
    }
    let mut acc: u64 = 0;
    let mut i: usize = 0;
    while i < s.len()
        invariant
            0 <= i <= s@.len(),
            forall|j: int| 0 <= j < i ==> is_dec_digit(s@[j]),
            acc == dec_val(s@.subrange(0, i as int)),
        decreases s@.len() - i,
    {
        let b = s[i];
        if !(48 <= b && b <= 57) {
            assert(!all_dec_digits(s@)) by {
                assert(!is_dec_digit(s@[i as int]));
            }
            return None;
        }
        let d: u64 = (b - 48) as u64;
        let shifted = match acc.checked_mul(10) {
            Some(x) => x,
            None => {
                proof {
                    if all_dec_digits(s@) {
                        lemma_dec_prefix_exceeds(s@, i as int);
                    }
                }
                return None;
            },
        };
        acc = match shifted.checked_add(d) {
            Some(x) => x,
            None => {
                proof {
                    if all_dec_digits(s@) {
                        lemma_dec_prefix_exceeds(s@, i as int);
                    }
                }
                return None;
            },
        };
        assert(s@.subrange(0, i + 1).drop_last() =~= s@.subrange(0, i as int));
        i += 1;
    }
    assert(s@.subrange(0, s@.len() as int) =~= s@);
    Some(acc)
}

/// A numeral whose prefix already overflows is itself above `u64::MAX`.
proof fn lemma_dec_prefix_exceeds(s: Seq<u8>, i: int)
    requires
        0 <= i < s.len(),
        all_dec_digits(s),
        dec_val(s.subrange(0, i)) * 10 + (s[i] - 48) > u64::MAX,
    ensures
        dec_val(s) > u64::MAX,
{
    lemma_dec_val_monotone(s, i + 1);
    assert(s.subrange(0, i + 1).drop_last() =~= s.subrange(0, i));
    assert(s.subrange(0, i + 1).last() == s[i]);
    assert(dec_val(s.subrange(0, i + 1)) == dec_val(s.subrange(0, i)) * 10 + (s[i] - 48) as nat);
}

/// Extending a numeral on the right does not decrease its value.
proof fn lemma_dec_val_monotone(s: Seq<u8>, i: int)
    requires
        0 <= i <= s.len(),
    ensures
        dec_val(s) >= dec_val(s.subrange(0, i)),
    decreases s.len() - i,
{
    if i == s.len() {
        assert(s.subrange(0, i) =~= s);
    } else {
        lemma_dec_val_monotone(s, i + 1);
        assert(s.subrange(0, i + 1).drop_last() =~= s.subrange(0, i));
        assert(dec_val(s.subrange(0, i + 1)) == dec_val(s.subrange(0, i)) * 10 + (s.subrange(
            0,
            i + 1,
        ).last() - 48) as nat);
    }
}

/// Parses a hexadecimal numeral; `None` when `s` is empty, holds a
/// non-digit, or its value exceeds `usize::MAX`.
pub fn parse_hex_usize(s: &[u8]) -> (r: Option<usize>)
    ensures
        r matches Some(v) ==> s@.len() > 0 && all_hex_digits(s@) && v == hex_val(s@),
        r is None <==> (s@.len() == 0 || !all_hex_digits(s@) || hex_val(s@) > usize::MAX),
{
    if s.len() == 0 {
        return None;
    }
    let mut acc: usize = 0;
    let mut i: usize = 0;
    while i < s.len()
        invariant
            0 <= i <= s@.len(),
            forall|j: int| 0 <= j < i ==> is_hex_digit(s@[j]),
            acc == hex_val(s@.subrange(0, i as int)),
        decreases s@.len() - i,
    {
        let b = s[i];
        let d: usize = if 48 <= b && b <= 57 {
            (b - 48) as usize
        } else if 97 <= b && b <= 102 {
            (b - 87) as usize
        } else if 65 <= b && b <= 70 {
            (b - 55) as usize
        } else {
            assert(!all_hex_digits(s@)) by {
                assert(!is_hex_digit(s@[i as int]));
            }
            return None;
        };
        assert(d == hex_digit_val(s@[i as int]));
        let shifted = match acc.checked_mul(16) {
            Some(x) => x,
            None => {
                proof {
                    if all_hex_digits(s@) {
                        lemma_hex_prefix_exceeds(s@, i as int);
                    }
                }
                return None;
            },
        };
        acc = match shifted.checked_add(d) {
            Some(x) => x,
            None => {
                proof {
                    if all_hex_digits(s@) {
                        lemma_hex_prefix_exceeds(s@, i as int);
                    }
                }
                return None;
            },
        };
        assert(s@.subrange(0, i + 1).drop_last() =~= s@.subrange(0, i as int));
        i += 1;
    }
    assert(s@.subrange(0, s@.len() as int) =~= s@);
    Some(acc)
}

/// A numeral whose prefix already overflows is itself above `usize::MAX`.
proof fn lemma_hex_prefix_exceeds(s: Seq<u8>, i: int)
    requires
        0 <= i < s.len(),
        all_hex_digits(s),
        hex_val(s.subrange(0, i)) * 16 + hex_digit_val(s[i]) > usize::MAX,
    ensures
        hex_val(s) > usize::MAX,
{
    lemma_hex_val_monotone(s, i + 1);
    assert(s.subrange(0, i + 1).drop_last() =~= s.subrange(0, i));
    assert(s.subrange(0, i + 1).last() == s[i]);
    assert(hex_val(s.subrange(0, i + 1)) == hex_val(s.subrange(0, i)) * 16 + hex_digit_val(s[i]));
}

/// Extending a numeral on the right does not decrease its value.
proof fn lemma_hex_val_monotone(s: Seq<u8>, i: int)
    requires
        0 <= i <= s.len(),
    ensures
        hex_val(s) >= hex_val(s.subrange(0, i)),
    decreases s.len() - i,
{
    if i == s.len() {
        assert(s.subrange(0, i) =~= s);
    } else {
        lemma_hex_val_monotone(s, i + 1);
        assert(s.subrange(0, i + 1).drop_last() =~= s.subrange(0, i));
        assert(hex_val(s.subrange(0, i + 1)) == hex_val(s.subrange(0, i)) * 16 + hex_digit_val(
            s.subrange(0, i + 1).last(),
        ));
    }
}

/// A short numeral cannot overflow: three digits stay under 1000.
pub proof fn lemma_small_dec_val(s: Seq<u8>)
    requires
        all_dec_digits(s),
        s.len() <= 3,
    ensures
        dec_val(s) < 1000,
    decreases s.len(),
{
    if s.len() > 0 {
        assert(all_dec_digits(s.drop_last())) by {
            assert(forall|i: int|
                0 <= i < s.len() - 1 ==> s.drop_last()[i] == s[i]);
        }
        lemma_small_dec_val(s.drop_last());
        if s.len() == 1 {
            assert(dec_val(s.drop_last()) == 0) by {
                assert(s.drop_last().len() == 0);
            }
        } else {
            assert(dec_val(s.drop_last()) < 100) by {
                lemma_small_dec_val_bound(s.drop_last());
            }
        }
    }
}

/// Bound per digit count: `n` digits stay under ten to the `n`.
proof fn lemma_small_dec_val_bound(s: Seq<u8>)
    requires
        all_dec_digits(s),
        s.len() <= 2,
    ensures
        dec_val(s) < 100,
    decreases s.len(),
{
    if s.len() > 0 {
        assert(all_dec_digits(s.drop_last())) by {
            assert(forall|i: int|
                0 <= i < s.len() - 1 ==> s.drop_last()[i] == s[i]);
        }
        if s.len() == 1 {
            assert(dec_val(s.drop_last()) == 0);
        } else {
            assert(dec_val(s.drop_last()) < 10) by {
                if s.drop_last().len() > 0 {
                    assert(dec_val(s.drop_last().drop_last()) == 0) by {
                        assert(s.drop_last().drop_last().len() == 0);
                    }
                }
            }
        }
    }
}

/// The character of one decimal digit.
pub open spec fn digit_char(d: nat) -> char {
    if d == 0 {
        '0'
    } else if d == 1 {
        '1'
    } else if d == 2 {
        '2'
    } else if d == 3 {
        '3'
    } else if d == 4 {
        '4'
    } else if d == 5 {
        '5'
    } else if d == 6 {
        '6'
    } else if d == 7 {
        '7'
    } else if d == 8 {
        '8'
    } else {
        '9'
    }
}

/// The canonical decimal numeral of `n`, as characters.
pub open spec fn dec_chars(n: nat) -> Seq<char>
    decreases n,
{
    if n < 10 {
        seq![digit_char(n)]
    } else {
        dec_chars(n / 10) + seq![digit_char(n % 10)]
    }
}

/// The text of one decimal digit.
fn digit_str(d: u64) -> (r: &'static str)
    requires
        d < 10,
    ensures
        r@ == seq![digit_char(d as nat)],
{
    let r = match d {
        0 => "0",
        1 => "1",
        2 => "2",
        3 => "3",
        4 => "4",
        5 => "5",
        6 => "6",
        7 => "7",
        8 => "8",
        _ => "9",
    };
    proof {
        reveal_strlit("0");
        reveal_strlit("1");
        reveal_strlit("2");
        reveal_strlit("3");
        reveal_strlit("4");
        reveal_strlit("5");
        reveal_strlit("6");
        reveal_strlit("7");
        reveal_strlit("8");
        reveal_strlit("9");
        assert(r@ =~= seq![digit_char(d as nat)]);
    }
    r
}

/// Renders `n` as its canonical decimal numeral, as a string.
pub fn u64_to_dec_string(n: u64) -> (r: String)
    ensures
        r@ == dec_chars(n as nat),
{
    let mut rev: Vec<u64> = Vec::new();
    let mut x: u64 = n;
    while x >= 10
        invariant
            forall|j: int| 0 <= j < rev@.len() ==> rev@[j] < 10,
            dec_chars(n as nat) == dec_chars(x as nat) + rev@.map_values(
                |d: u64| digit_char(d as nat),
            ).reverse(),
        decreases x,
    {
        let d: u64 = x % 10;
        proof {
            let old_cs = rev@.map_values(|dd: u64| digit_char(dd as nat));
            let new_cs = rev@.push(d).map_values(|dd: u64| digit_char(dd as nat));
            assert(new_cs =~= old_cs.push(digit_char(d as nat)));
            assert(new_cs.reverse() =~= seq![digit_char(d as nat)] + old_cs.reverse());
            assert(dec_chars(x as nat) == dec_chars((x as nat) / 10) + seq![
                digit_char((x as nat) % 10),
            ]);
            assert(dec_chars((x as nat) / 10) + (seq![digit_char(d as nat)] + old_cs.reverse())
                =~= (dec_chars((x as nat) / 10) + seq![digit_char(d as nat)]) + old_cs.reverse());
        }
        rev.push(d);
        x = x / 10;
    }
    proof {
        let old_cs = rev@.map_values(|dd: u64| digit_char(dd as nat));
        let new_cs = rev@.push(x).map_values(|dd: u64| digit_char(dd as nat));
        assert(new_cs =~= old_cs.push(digit_char(x as nat)));
        assert(new_cs.reverse() =~= seq![digit_char(x as nat)] + old_cs.reverse());
        assert(dec_chars(x as nat) =~= seq![digit_char(x as nat)]);
    }
    rev.push(x);
    let ghost cs = rev@.map_values(|dd: u64| digit_char(dd as nat));
    let mut out = String::new();
    let mut i: usize = rev.len();
    while i > 0
        invariant
            0 <= i <= rev@.len(),
            cs == rev@.map_values(|dd: u64| digit_char(dd as nat)),
            forall|j: int| 0 <= j < rev@.len() ==> rev@[j] < 10,
            out@ =~= cs.subrange(i as int, cs.len() as int).reverse(),
        decreases i,
    {
        i -= 1;
        proof {
            assert(cs.subrange(i as int, cs.len() as int).reverse() =~= cs.subrange(
                i + 1,
                cs.len() as int,
            ).reverse().push(cs[i as int]));
        }
        out.append(digit_str(rev[i]));
    }
    proof {
        assert(cs.subrange(0, cs.len() as int) =~= cs);
        assert(out@ =~= cs.reverse());
    }
    out
}

/// Renders `n` as its canonical decimal numeral.
pub fn u64_to_dec(n: u64) -> (r: Vec<u8>)
    ensures
        r@ == dec_digits(n as nat),
{
    let mut rev: Vec<u8> = Vec::new();
    let mut x: u64 = n;
    while x >= 10
        invariant
            dec_digits(n as nat) == dec_digits(x as nat) + rev@.reverse(),
        decreases x,
    {
        let d: u8 = (48 + (x % 10)) as u8;
        proof {
            let old_rev = rev@;
            assert(dec_digits(x as nat) == dec_digits((x as nat) / 10) + seq![d]);
            assert((old_rev.push(d)).reverse() =~= seq![d] + old_rev.reverse());
            assert(dec_digits((x as nat) / 10) + (seq![d] + old_rev.reverse()) =~= (dec_digits(
                (x as nat) / 10,
            ) + seq![d]) + old_rev.reverse());
        }
        rev.push(d);
        x = x / 10;
    }
    let d: u8 = (48 + x) as u8;
    proof {
        let old_rev = rev@;
        assert(dec_digits(x as nat) =~= seq![d]);
        assert((old_rev.push(d)).reverse() =~= seq![d] + old_rev.reverse());
    }
    rev.push(d);
    let mut out: Vec<u8> = Vec::new();
    let mut i: usize = rev.len();
    while i > 0
        invariant
            0 <= i <= rev@.len(),
            out@ =~= rev@.subrange(i as int, rev@.len() as int).reverse(),
        decreases i,
    {
        i -= 1;
        proof {
            assert(rev@.subrange(i as int, rev@.len() as int).reverse() =~= rev@.subrange(
                i + 1,
                rev@.len() as int,
            ).reverse().push(rev@[i as int]));
        }
        out.push(rev[i]);
    }
    proof {
        assert(rev@.subrange(0, rev@.len() as int) =~= rev@);
        assert(out@ =~= rev@.reverse());
    }
    out
}

} // verus!
