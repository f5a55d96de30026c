//! Numerals of attribute values: decimal or `0x` hexadecimal integers, and decimal
//! fractions with an optional exponent. `_` may separate digits anywhere.

use crate::token::AttrValue;
use vstd::prelude::*;

verus! {

/// The value of `c` as a digit in base `radix` (10 or 16).
pub open spec fn digit_of(c: char, radix: int) -> Option<int> {
    if '0' <= c && c <= '9' {
        Some(c as int - '0' as int)
    } else if radix == 16 && 'a' <= c && c <= 'f' {
        Some(c as int - 'a' as int + 10)
    } else if radix == 16 && 'A' <= c && c <= 'F' {
        Some(c as int - 'A' as int + 10)
    } else {
        None
    }
}

/// Every character of `s` is a digit in base `radix` or a `_`.
pub open spec fn all_digits(s: Seq<char>, radix: int) -> bool {
    forall|i: int| 0 <= i < s.len() ==> #[trigger] s[i] == '_' || digit_of(s[i], radix) is Some
}

/// The value of the digits of `s` in base `radix`, `_` ignored.
pub open spec fn run_value(s: Seq<char>, radix: int) -> int
    decreases s.len(),
{
    if s.len() == 0 {
        0
    } else if s.last() == '_' {
        run_value(s.drop_last(), radix)
    } else {
        run_value(s.drop_last(), radix) * radix + digit_of(s.last(), radix)->0
    }
}

/// How many digits `s` holds, `_` not counted.
pub open spec fn digit_count(s: Seq<char>) -> nat
    decreases s.len(),
{
    if s.len() == 0 {
        0
    } else if s.last() == '_' {
        digit_count(s.drop_last())
    } else {
        digit_count(s.drop_last()) + 1
    }
}

/// Adding digits never makes a value smaller.
pub proof fn lemma_run_value_grows(s: Seq<char>, k: int, radix: int)
    requires
        0 <= k <= s.len(),
        all_digits(s, radix),
        radix == 10 || radix == 16,
    ensures
        0 <= run_value(s.take(k), radix) <= run_value(s, radix),
    decreases s.len() - k,
{
    if k < s.len() {
        lemma_run_value_grows(s, k + 1, radix);
        assert(s.take(k + 1).drop_last() =~= s.take(k));
        assert(s.take(k + 1).last() == s[k]);
        lemma_run_value_nonneg(s.take(k), radix);
    } else {
        assert(s.take(k) =~= s);
        lemma_run_value_nonneg(s, radix);
    }
}

pub proof fn lemma_run_value_nonneg(s: Seq<char>, radix: int)
    requires
        all_digits(s, radix),
        radix == 10 || radix == 16,
    ensures
        run_value(s, radix) >= 0,
    decreases s.len(),
{
    if s.len() > 0 {
        assert(all_digits(s.drop_last(), radix)) by {
            assert forall|i: int| 0 <= i < s.drop_last().len() implies #[trigger] s.drop_last()[i]
                == '_' || digit_of(s.drop_last()[i], radix) is Some by {
                assert(s.drop_last()[i] == s[i]);
            }
        }
        lemma_run_value_nonneg(s.drop_last(), radix);
        assert(s.last() == s[s.len() - 1]);
        assert(run_value(s.drop_last(), radix) * radix >= 0) by (nonlinear_arith)
            requires
                run_value(s.drop_last(), radix) >= 0,
                radix >= 0,
        ;
    }
}

/// The digits of `v[lo..hi]` in base `radix`, and how many there are; `None` where a
/// character is neither a digit nor `_`, or the value does not fit in an `i64`.
fn digits_value(v: &Vec<char>, lo: usize, hi: usize, radix: u64) -> (r: Option<(i64, usize)>)
    requires
        lo <= hi <= v@.len(),
        radix == 10 || radix == 16,
    ensures
        ({
            let s = v@.subrange(lo as int, hi as int);
            &&& r is Some <==> all_digits(s, radix as int) && run_value(s, radix as int) <= i64::MAX
            &&& r matches Some((x, n)) ==> x == run_value(s, radix as int) && n == digit_count(s)
        }),
{
    let ghost whole = v@.subrange(lo as int, hi as int);
    let mut acc: i64 = 0;
    let mut n: usize = 0;
    let mut i: usize = lo;
    while i < hi
        invariant
            lo <= i <= hi <= v@.len(),
            radix == 10 || radix == 16,
            whole == v@.subrange(lo as int, hi as int),
            all_digits(v@.subrange(lo as int, i as int), radix as int),
            acc == run_value(v@.subrange(lo as int, i as int), radix as int),
            n == digit_count(v@.subrange(lo as int, i as int)),
            n <= i - lo,
            0 <= acc,
        decreases hi - i,
    {
        let c = v[i];
        let ghost pre = v@.subrange(lo as int, i as int);
        let ghost next = v@.subrange(lo as int, i + 1);
        assert(next.drop_last() =~= pre);
        assert(next.last() == c);
        assert(whole[i - lo] == c);
        if c == '_' {
        } else {
            let d: u64 = if '0' <= c && c <= '9' {
                (c as u64) - ('0' as u64)
            } else if radix == 16 && 'a' <= c && c <= 'f' {
                (c as u64) - ('a' as u64) + 10
            } else if radix == 16 && 'A' <= c && c <= 'F' {
                (c as u64) - ('A' as u64) + 10
            } else {
                assert(!all_digits(whole, radix as int));
                return None;
            };
            assert(d == digit_of(c, radix as int)->0);
            assert(d < 16);
            assert((acc as u128) * (radix as u128) <= 0x7fff_ffff_ffff_ffff * 16) by (nonlinear_arith)
                requires
                    0 <= acc <= 0x7fff_ffff_ffff_ffff,
                    radix <= 16,
            ;
            let big: u128 = (acc as u128) * (radix as u128) + (d as u128);
            if big > 0x7fff_ffff_ffff_ffff {
                proof {
                    assert(all_digits(next, radix as int)) by {
                        assert forall|j: int| 0 <= j < next.len() implies #[trigger] next[j] == '_'
                            || digit_of(next[j], radix as int) is Some by {
                            if j < pre.len() {
                                assert(next[j] == pre[j]);
                            }
                        }
                    }
                    if all_digits(whole, radix as int) {
                        assert(whole.take(i + 1 - lo) =~= next);
                        lemma_run_value_grows(whole, i + 1 - lo, radix as int);
                    }
                }
                return None;
            }
            acc = big as i64;
            n = n + 1;
        }
        i = i + 1;
        assert(all_digits(v@.subrange(lo as int, i as int), radix as int)) by {
            assert forall|j: int| 0 <= j < next.len() implies #[trigger] next[j] == '_' || digit_of(
                next[j],
                radix as int,
            ) is Some by {
                if j < pre.len() {
                    assert(next[j] == pre[j]);
                }
            }
        }
    }
    assert(v@.subrange(lo as int, i as int) =~= whole);
    Some((acc, n))
}


/// The index of the first `a` or `b` in `s`, or its length if there is none.
pub open spec fn first_index(s: Seq<char>, a: char, b: char) -> int
    decreases s.len(),
{
    if s.len() == 0 {
        0
    } else if s[0] == a || s[0] == b {
        0
    } else {
        1 + first_index(s.drop_first(), a, b)
    }
}

proof fn lemma_first_index(s: Seq<char>, a: char, b: char, i: int)
    requires
        0 <= i <= s.len(),
        forall|j: int| 0 <= j < i ==> #[trigger] s[j] != a && s[j] != b,
        i == s.len() || s[i] == a || s[i] == b,
    ensures
        first_index(s, a, b) == i,
    decreases i,
{
    if i > 0 {
        assert(s[0] != a && s[0] != b);
        let t = s.drop_first();
        assert forall|j: int| 0 <= j < i - 1 implies #[trigger] t[j] != a && t[j] != b by {
            assert(t[j] == s[j + 1]);
        }
        if i < s.len() {
            assert(t[i - 1] == s[i]);
        }
        lemma_first_index(t, a, b, i - 1);
    }
}

/// What the numeral `s` denotes: whether it is a fraction, its digits as one integer,
/// and the power of ten to scale them by. `None` where `s` is no numeral, or its parts
/// do not fit (the digits in an `i64`, the power in an `i32`).
pub open spec fn number_model(s: Seq<char>) -> Option<(bool, int, int)> {
    if s.len() >= 2 && s[0] == '0' && (s[1] == 'x' || s[1] == 'X') {
        let h = s.skip(2);
        if all_digits(h, 16) && digit_count(h) > 0 && run_value(h, 16) <= i64::MAX {
            Some((false, run_value(h, 16), 0))
        } else {
            None
        }
    } else {
        let e = first_index(s, 'e', 'E');
        let m = s.take(e);
        let d = first_index(m, '.', '.');
        let a = m.take(d);
        let b = if d < m.len() {
            m.skip(d + 1)
        } else {
            Seq::empty()
        };
        let has_exp = e < s.len();
        let x = if has_exp {
            s.skip(e + 1)
        } else {
            Seq::empty()
        };
        let signed = x.len() > 0 && (x[0] == '+' || x[0] == '-');
        let xd = if signed {
            x.skip(1)
        } else {
            x
        };
        let xv = if signed && x[0] == '-' {
            -run_value(xd, 10)
        } else {
            run_value(xd, 10)
        };
        let mant = a + b;
        let ev = (if has_exp {
            xv
        } else {
            0
        }) - digit_count(b);
        if all_digits(mant, 10) && digit_count(mant) > 0 && run_value(mant, 10) <= i64::MAX && (
        has_exp ==> all_digits(xd, 10) && digit_count(xd) > 0 && run_value(xd, 10) <= i64::MAX)
            && i32::MIN <= ev <= i32::MAX {
            Some((d < m.len() || has_exp, run_value(mant, 10), ev))
        } else {
            None
        }
    }
}

/// The attribute value that a numeral denotes: an integer, or `Float(m, e)` for
/// `m` times ten to the power `e`.
pub open spec fn number_value(s: Seq<char>) -> Option<AttrValue> {
    match number_model(s) {
        Some((true, m, e)) => Some(AttrValue::Float(m as i64, e as i32)),
        Some((false, m, _)) => Some(AttrValue::Integer(m as i64)),
        None => None,
    }
}

/// Finds the first `a` or `b` in `v[..hi]`.
fn find_first(v: &Vec<char>, hi: usize, a: char, b: char) -> (r: usize)
    requires
        hi <= v@.len(),
    ensures
        r == first_index(v@.take(hi as int), a, b),
        r <= hi,
{
    let mut i: usize = 0;
    while i < hi && v[i] != a && v[i] != b
        invariant
            i <= hi <= v@.len(),
            forall|j: int| 0 <= j < i ==> #[trigger] v@[j] != a && v@[j] != b,
        decreases hi - i,
    {
        i = i + 1;
    }
    proof {
        let s = v@.take(hi as int);
        assert forall|j: int| 0 <= j < i implies #[trigger] s[j] != a && s[j] != b by {
            assert(s[j] == v@[j]);
        }
        lemma_first_index(s, a, b, i as int);
    }
    i
}

/// Reads a numeral, as `number_value` says.
pub fn parse_number(v: &Vec<char>) -> (r: Option<AttrValue>)
    ensures
        r == number_value(v@),
{
    let len = v.len();
    if len >= 2 && v[0] == '0' && (v[1] == 'x' || v[1] == 'X') {
        assert(v@.subrange(2, len as int) =~= v@.skip(2));
        return match digits_value(v, 2, len, 16) {
            Some((x, n)) => if n > 0 {
                Some(AttrValue::Integer(x))
            } else {
                None
            },
            None => None,
        };
    }
    let e = find_first(v, len, 'e', 'E');
    assert(v@.take(len as int) =~= v@);
    let d = find_first(v, e, '.', '.');
    let ghost s = v@;
    let ghost m = s.take(e as int);
    assert(v@.take(e as int) =~= m);
    let ghost a = m.take(d as int);
    let ghost b = if d < e {
        m.skip(d + 1)
    } else {
        Seq::<char>::empty()
    };
    let mut mant: Vec<char> = Vec::new();
    let mut i: usize = 0;
    while i < e
        invariant
            i <= e <= len == v@.len(),
            d <= e,
            m == v@.take(e as int),
            mant@ == if i <= d {
                v@.take(i as int)
            } else {
                v@.take(d as int) + v@.subrange(d + 1, i as int)
            },
        decreases e - i,
    {
        if i != d {
            mant.push(v[i]);
        }
        i = i + 1;
        proof {
            if i <= d {
                assert(mant@ =~= v@.take(i as int));
            } else if i == d + 1 {
                assert(mant@ =~= v@.take(d as int) + v@.subrange(d + 1, i as int));
            } else {
                assert(mant@ =~= v@.take(d as int) + v@.subrange(d + 1, i as int));
            }
        }
    }
    assert(mant@ =~= a + b) by {
        if d < e {
            assert(mant@ =~= v@.take(d as int) + v@.subrange(d + 1, e as int));
        } else {
            assert(mant@ =~= v@.take(e as int));
        }
    }
    let (mv, mn) = match digits_value(&mant, 0, mant.len(), 10) {
        Some(p) => p,
        None => {
            assert(mant@.subrange(0, mant@.len() as int) =~= mant@);
            return None;
        },
    };
    assert(mant@.subrange(0, mant@.len() as int) =~= mant@);
    if mn == 0 {
        return None;
    }
    let bv = if d < e {
        assert(v@.subrange(d + 1, e as int) =~= b);
        digits_value(v, d + 1, e, 10)
    } else {
        Some((0, 0))
    };
    let places: usize = match bv {
        Some((_, n)) => n,
        None => {
            proof {
                assert(all_digits(b, 10)) by {
                    assert forall|j: int| 0 <= j < b.len() implies #[trigger] b[j] == '_' || digit_of(
                        b[j],
                        10,
                    ) is Some by {
                        assert(b[j] == mant@[a.len() + j]);
                    }
                }
                lemma_run_value_grows_concat(a, b);
            }
            return None;
        },
    };
    assert(places == digit_count(b)) by {
        if d >= e {
            assert(b =~= Seq::<char>::empty());
        }
    }
    let has_exp = e < len;
    let mut xv: i128 = 0;
    if has_exp {
        let ghost x = s.skip(e + 1);
        let mut start = e + 1;
        let mut neg = false;
        if start < len && (v[start] == '+' || v[start] == '-') {
            neg = v[start] == '-';
            start = start + 1;
        }
        let ghost signed = x.len() > 0 && (x[0] == '+' || x[0] == '-');
        let ghost xd = if signed {
            x.skip(1)
        } else {
            x
        };
        assert(v@.subrange(start as int, len as int) =~= xd);
        match digits_value(v, start, len, 10) {
            Some((xval, xn)) => {
                if xn == 0 {
                    return None;
                }
                xv = if neg {
                    -(xval as i128)
                } else {
                    xval as i128
                };
            },
            None => {
                return None;
            },
        }
    }
    let ev: i128 = xv - (places as i128);
    if ev < -2147483648 || ev > 2147483647 {
        return None;
    }
    if d < e || has_exp {
        Some(AttrValue::Float(mv, ev as i32))
    } else {
        Some(AttrValue::Integer(mv))
    }
}

/// The digits of a tail add to the value of the whole: where the whole fits, the tail
/// does too.
proof fn lemma_run_value_grows_concat(a: Seq<char>, b: Seq<char>)
    requires
        all_digits(a + b, 10),
    ensures
        run_value(b, 10) <= run_value(a + b, 10),
    decreases b.len(),
{
    let ab = a + b;
    if b.len() == 0 {
        assert(ab =~= a);
        lemma_run_value_nonneg(a, 10);
    } else {
        assert(ab.drop_last() =~= a + b.drop_last());
        assert(ab.last() == b.last());
        assert(all_digits(a + b.drop_last(), 10)) by {
            assert forall|i: int| 0 <= i < (a + b.drop_last()).len() implies #[trigger] (a
                + b.drop_last())[i] == '_' || digit_of((a + b.drop_last())[i], 10) is Some by {
                assert((a + b.drop_last())[i] == ab[i]);
            }
        }
        lemma_run_value_grows_concat(a, b.drop_last());
        if b.last() != '_' {
            assert(ab[ab.len() - 1] == b.last());
            let x = run_value(b.drop_last(), 10);
            let y = run_value(a + b.drop_last(), 10);
            assert(x * 10 <= y * 10) by (nonlinear_arith)
                requires
                    x <= y,
            ;
        }
    }
}

} // verus!
