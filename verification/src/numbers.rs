//! Base-10 reading and writing of signed 64-bit integers, as the numeric
//! mutation commands use them: a value string is parsed as an `i64` (an
//! optional sign, then decimal digits), and the mutated number is stored
//! back in its decimal string form.

use vstd::arithmetic::div_mod::{lemma_fundamental_div_mod, lemma_mod_bound};
use vstd::prelude::*;
use vstd::string::{StrSliceExecFns, StringExecFns};

verus! {

pub open spec fn is_digit(c: char) -> bool {
    48 <= c as u32 <= 57
}

pub open spec fn digit_val(c: char) -> int {
    c as u32 - 48
}

pub open spec fn all_digits(s: Seq<char>) -> bool {
    forall|i: int| 0 <= i < s.len() ==> is_digit(#[trigger] s[i])
}

/// The value of a digit string, most significant digit first.
pub open spec fn digits_val(s: Seq<char>) -> int
    decreases s.len(),
{
    if s.len() == 0 {
        0
    } else {
        digits_val(s.drop_last()) * 10 + digit_val(s.last())
    }
}

/// What parsing a decimal string yields: an optional `+` or `-`, then at
/// least one digit and nothing else, with the value in the `i64` range;
/// any other string yields nothing.
pub open spec fn spec_parse_i64(s: Seq<char>) -> Option<i64> {
    if s.len() == 0 {
        None
    } else {
        let neg = s[0] == '-';
        let signed = s[0] == '-' || s[0] == '+';
        let mag = if signed {
            s.drop_first()
        } else {
            s
        };
        if mag.len() == 0 || !all_digits(mag) {
            None
        } else {
            let v = if neg {
                -digits_val(mag)
            } else {
                digits_val(mag)
            };
            if i64::MIN <= v <= i64::MAX {
                Some(v as i64)
            } else {
                None
            }
        }
    }
}

/// A parse failure reads as zero for the numeric mutation commands.
pub open spec fn spec_parse_or_zero(s: Seq<char>) -> int {
    match spec_parse_i64(s) {
        Some(v) => v as int,
        None => 0,
    }
}

/// Two's-complement wrap-around of an out-of-range sum.
pub open spec fn spec_wrap_i64(v: int) -> int {
    if v > i64::MAX {
        v - 0x1_0000_0000_0000_0000
    } else if v < i64::MIN {
        v + 0x1_0000_0000_0000_0000
    } else {
        v
    }
}

pub open spec fn digit_char(d: int) -> char {
    if d == 0 {
        '0'
    } else if d == 1 {
        '1'
    } else if d == 2 {
        '2'
    } else if d == 3 {
        '3'
    } else if d == 4 {
        '4'
    } else if d == 5 {
        '5'
    } else if d == 6 {
        '6'
    } else if d == 7 {
        '7'
    } else if d == 8 {
        '8'
    } else {
        '9'
    }
}

/// The decimal digit string of a non-negative number, without sign.
pub open spec fn spec_digits(m: int) -> Seq<char>
    decreases m,
{
    if m < 10 {
        seq![digit_char(m)]
    } else {
        spec_digits(m / 10) + seq![digit_char(m % 10)]
    }
}

/// The decimal string form of an integer.
pub open spec fn spec_i64_string(n: int) -> Seq<char> {
    if n < 0 {
        seq!['-'] + spec_digits(-n)
    } else {
        spec_digits(n)
    }
}

proof fn lemma_digits_val_nonneg(s: Seq<char>)
    requires
        all_digits(s),
    ensures
        digits_val(s) >= 0,
    decreases s.len(),
{
    if s.len() > 0 {
        lemma_digits_val_nonneg(s.drop_last());
    }
}

/// A digit string is worth at least any of its prefixes.
proof fn lemma_digits_val_take(s: Seq<char>, i: int)
    requires
        all_digits(s),
        0 <= i <= s.len(),
    ensures
        digits_val(s.take(i)) <= digits_val(s),
    decreases s.len() - i,
{
    if i < s.len() {
        assert(s.take(i + 1).drop_last() =~= s.take(i));
        assert(all_digits(s.take(i)));
        lemma_digits_val_nonneg(s.take(i));
        lemma_digits_val_take(s, i + 1);
    } else {
        assert(s.take(i) =~= s);
    }
}

proof fn lemma_spec_digits_props(m: int)
    requires
        m >= 0,
    ensures
        spec_digits(m).len() >= 1,
        all_digits(spec_digits(m)),
        digits_val(spec_digits(m)) == m,
        is_digit(spec_digits(m)[0]),
    decreases m,
{
    if m < 10 {
        let s = spec_digits(m);
        assert(s.drop_last() =~= Seq::<char>::empty());
        assert(digits_val(Seq::<char>::empty()) == 0);
        assert(digits_val(s) == 0 * 10 + digit_val(digit_char(m)));
        assert(digit_val(digit_char(m)) == m);
    } else {
        lemma_spec_digits_props(m / 10);
        lemma_fundamental_div_mod(m, 10);
        let s = spec_digits(m);
        assert(0 <= m % 10 < 10);
        assert(s.drop_last() =~= spec_digits(m / 10));
        assert(s.last() == digit_char(m % 10));
        assert(digit_val(digit_char(m % 10)) == m % 10);
        assert(digits_val(s) == digits_val(spec_digits(m / 10)) * 10 + m % 10);
        assert(digits_val(s) == m);
        assert forall|i: int| 0 <= i < s.len() implies is_digit(#[trigger] s[i]) by {
            if i < s.len() - 1 {
                assert(s[i] == spec_digits(m / 10)[i]);
            } else {
                assert(s[i] == digit_char(m % 10));
            }
        }
    }
}

/// Round trip: the decimal string of an `i64` parses back to that `i64`.
pub proof fn lemma_parse_i64_string(n: int)
    requires
        i64::MIN <= n <= i64::MAX,
    ensures
        spec_parse_i64(spec_i64_string(n)) == Some(n as i64),
{
    if n < 0 {
        lemma_spec_digits_props(-n);
        let s = spec_i64_string(n);
        assert(s[0] == '-');
        assert(s.drop_first() =~= spec_digits(-n));
    } else {
        lemma_spec_digits_props(n);
        let s = spec_i64_string(n);
        assert(is_digit(s[0]));
        assert(s[0] != '-' && s[0] != '+');
    }
}

/// Parses a decimal string exactly as `spec_parse_i64` reads it.
pub fn parse_i64(s: &str) -> (r: Option<i64>)
    ensures
        r == spec_parse_i64(s@),
{
    let len = s.unicode_len();
    if len == 0 {
        return None;
    }
    let c0 = s.get_char(0);
    let neg = c0 == '-';
    let signed = neg || c0 == '+';
    let start: usize = if signed {
        1
    } else {
        0
    };
    if len == start {
        return None;
    }
    let ghost mag: Seq<char> = if signed {
        s@.drop_first()
    } else {
        s@
    };
    proof {
        assert(mag =~= s@.subrange(start as int, len as int));
    }
    let limit: u64 = if neg {
        9223372036854775808
    } else {
        9223372036854775807
    };
    let mut acc: u64 = 0;
    let mut i: usize = start;
    while i < len
        invariant
            start <= i <= len,
            len == s@.len(),
            start == 0 || start == 1,
            start == 1 ==> (s@[0] == '-' || s@[0] == '+'),
            neg == (s@[0] == '-'),
            signed == (s@[0] == '-' || s@[0] == '+'),
            start == if signed { 1int } else { 0int },
            len > start,
            mag == s@.subrange(start as int, len as int),
            forall|j: int| start <= j < i ==> is_digit(#[trigger] s@[j]),
            acc == digits_val(s@.subrange(start as int, i as int)),
            acc <= limit,
            limit == if neg { 9223372036854775808u64 } else { 9223372036854775807u64 },
        decreases len - i,
    {
        let c = s.get_char(i);
        let cv = c as u32;
        proof {
            assert(s@.subrange(start as int, i + 1).drop_last() =~= s@.subrange(
                start as int,
                i as int,
            ));
        }
        if cv < 48 || cv > 57 {
            proof {
                assert(!is_digit(s@[i as int]));
                assert(mag[i - start] == s@[i as int]);
                assert(!all_digits(mag));
            }
            return None;
        }
        let d = (cv - 48) as u64;
        if acc > (limit - d) / 10 {
            proof {
                let q = ((limit - d) / 10) as int;
                let r = ((limit - d) % 10) as int;
                lemma_fundamental_div_mod((limit - d) as int, 10);
                lemma_mod_bound((limit - d) as int, 10);
                assert(limit - d == 10 * q + r);
                assert(acc >= q + 1);
                assert(acc * 10 >= (q + 1) * 10);
                assert(acc * 10 + d > limit);
                let head = s@.subrange(start as int, i + 1);
                assert(head.last() == s@[i as int]);
                assert(digit_val(s@[i as int]) == d);
                assert(digits_val(head) == acc * 10 + d);
                assert(forall|j: int| 0 <= j < mag.len() ==> #[trigger] mag[j] == s@[start + j]);
                let sm0 = if s@[0] == '-' || s@[0] == '+' {
                    s@.drop_first()
                } else {
                    s@
                };
                assert(sm0 =~= mag);
                if all_digits(mag) {
                    lemma_digits_val_take(mag, i + 1 - start);
                    assert(mag.take(i + 1 - start) =~= head);
                    assert(digits_val(mag) > limit);
                    if neg {
                        assert(-digits_val(mag) < i64::MIN);
                    } else {
                        assert(digits_val(mag) > i64::MAX);
                    }
                    assert(spec_parse_i64(s@) is None);
                } else {
                    assert(s@.len() > 0);
                    let sm = if s@[0] == '-' || s@[0] == '+' {
                        s@.drop_first()
                    } else {
                        s@
                    };
                    assert(sm =~= mag);
                    assert(!all_digits(sm));
                    assert(spec_parse_i64(s@) is None);
                }
            }
            return None;
        }
        proof {
            let q = ((limit - d) / 10) as int;
            let r = ((limit - d) % 10) as int;
            lemma_fundamental_div_mod((limit - d) as int, 10);
            lemma_mod_bound((limit - d) as int, 10);
            assert(limit - d == 10 * q + r);
            assert(acc * 10 <= q * 10);
            assert(acc * 10 + d <= limit);
        }
        acc = acc * 10 + d;
        i = i + 1;
    }
    proof {
        assert(s@.subrange(start as int, len as int) =~= mag);
        assert(forall|j: int| 0 <= j < mag.len() ==> is_digit(#[trigger] mag[j]) == is_digit(
            s@[start + j],
        ));
        assert(all_digits(mag));
        assert(acc == digits_val(mag));
    }
    if neg {
        if acc == 9223372036854775808 {
            Some(i64::MIN)
        } else {
            Some(-(acc as i64))
        }
    } else {
        Some(acc as i64)
    }
}

/// A one-character string for one decimal digit.
fn digit_str(d: u64) -> (r: &'static str)
    requires
        d < 10,
    ensures
        r@ == seq![digit_char(d as int)],
{
    proof {
        reveal_strlit("0");
        reveal_strlit("1");
        reveal_strlit("2");
        reveal_strlit("3");
        reveal_strlit("4");
        reveal_strlit("5");
        reveal_strlit("6");
        reveal_strlit("7");
        reveal_strlit("8");
        reveal_strlit("9");
    }
    let r = if d == 0 {
        "0"
    } else if d == 1 {
        "1"
    } else if d == 2 {
        "2"
    } else if d == 3 {
        "3"
    } else if d == 4 {
        "4"
    } else if d == 5 {
        "5"
    } else if d == 6 {
        "6"
    } else if d == 7 {
        "7"
    } else if d == 8 {
        "8"
    } else {
        "9"
    };
    proof {
        assert(r@ =~= seq![digit_char(d as int)]);
    }
    r
}

/// Appends the decimal digits of `m`, most significant first.
fn push_digits(out: &mut String, m: u64)
    ensures
        final(out)@ == old(out)@ + spec_digits(m as int),
    decreases m,
{
    if m >= 10 {
        push_digits(out, m / 10);
    }
    let d = m % 10;
    out.append(digit_str(d));
    proof {
        assert(out@ =~= old(out)@ + spec_digits(m as int));
    }
}

/// Writes an `i64` in the decimal form that `spec_i64_string` gives.
pub fn i64_to_string(n: i64) -> (r: String)
    ensures
        r@ == spec_i64_string(n as int),
{
    let mut out = String::new();
    if n < 0 {
        proof {
            reveal_strlit("-");
        }
        out.append("-");
        let m: u64 = if n == i64::MIN {
            9223372036854775808
        } else {
            (-n) as u64
        };
        push_digits(&mut out, m);
        proof {
            assert(out@ =~= spec_i64_string(n as int));
        }
    } else {
        push_digits(&mut out, n as u64);
        proof {
            assert(out@ =~= spec_i64_string(n as int));
        }
    }
    out
}

} // verus!
