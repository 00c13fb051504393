//! Decimal rendering and parsing of unsigned integers, used by the path
//! language to print `[n]` index segments and to recognise bracketed index
//! text.

use vstd::prelude::*;

verus! {

/// The character for a single decimal digit value.
pub open spec fn digit_char(d: int) -> char {
    if d == 0 {
        '0'
    } else if d == 1 {
        '1'
    } else if d == 2 {
        '2'
    } else if d == 3 {
        '3'
    } else if d == 4 {
        '4'
    } else if d == 5 {
        '5'
    } else if d == 6 {
        '6'
    } else if d == 7 {
        '7'
    } else if d == 8 {
        '8'
    } else {
        '9'
    }
}

/// The canonical decimal rendering of `n`, most significant digit first,
/// with no sign and no leading zeros (except for `n == 0` itself).
pub open spec fn spec_digits(n: nat) -> Seq<char>
    decreases n,
{
    if n < 10 {
        seq![digit_char(n as int)]
    } else {
        spec_digits(n / 10) + seq![digit_char((n % 10) as int)]
    }
}

/// Whether `c` is a decimal digit.
pub open spec fn is_digit(c: char) -> bool {
    48 <= c as u32 <= 57
}

pub open spec fn all_digits(s: Seq<char>) -> bool {
    forall|i: int| 0 <= i < s.len() ==> is_digit(#[trigger] s[i])
}

/// The value of a pure digit string, read most significant digit first.
pub open spec fn digits_val(s: Seq<char>) -> int
    decreases s.len(),
{
    if s.len() == 0 {
        0
    } else {
        digits_val(s.drop_last()) * 10 + (s.last() as u32 - 48)
    }
}

/// The number denoted by `s` in the syntax accepted by Rust's unsigned
/// decimal parser: an optional leading `+`, then one or more digits, with
/// a value that fits in `usize`.
pub open spec fn spec_parse_usize(s: Seq<char>) -> Option<usize> {
    let body = if s.len() >= 1 && s[0] == '+' {
        s.drop_first()
    } else {
        s
    };
    if body.len() > 0 && all_digits(body) && digits_val(body) <= usize::MAX as int {
        Some(digits_val(body) as usize)
    } else {
        None
    }
}

proof fn lemma_digits_val_nonneg(s: Seq<char>)
    requires
        all_digits(s),
    ensures
        digits_val(s) >= 0,
    decreases s.len(),
{
    if s.len() > 0 {
        assert(all_digits(s.drop_last()));
        lemma_digits_val_nonneg(s.drop_last());
    }
}

/// A single decimal digit as a one-character string.
fn digit_str(d: usize) -> (r: &'static str)
    requires
        d < 10,
    ensures
        r@ =~= seq![digit_char(d as int)],
{
    proof {
        reveal_strlit("0");
        reveal_strlit("1");
        reveal_strlit("2");
        reveal_strlit("3");
        reveal_strlit("4");
        reveal_strlit("5");
        reveal_strlit("6");
        reveal_strlit("7");
        reveal_strlit("8");
        reveal_strlit("9");
    }
    if d == 0 {
        "0"
    } else if d == 1 {
        "1"
    } else if d == 2 {
        "2"
    } else if d == 3 {
        "3"
    } else if d == 4 {
        "4"
    } else if d == 5 {
        "5"
    } else if d == 6 {
        "6"
    } else if d == 7 {
        "7"
    } else if d == 8 {
        "8"
    } else {
        "9"
    }
}

/// Renders `n` in decimal.
pub fn usize_to_string(n: usize) -> (r: String)
    ensures
        r@ == spec_digits(n as nat),
    decreases n,
{
    if n < 10 {
        let s: String = digit_str(n).to_owned();
        s
    } else {
        let mut s: String = usize_to_string(n / 10);
        s.append(digit_str(n % 10));
        assert(s@ == spec_digits(n as nat));
        s
    }
}

/// Parses the characters `s[lo..hi]` as an unsigned decimal number, in the
/// syntax accepted by Rust's unsigned decimal parser.
pub fn parse_usize_range(s: &Vec<char>, lo: usize, hi: usize) -> (r: Option<usize>)
    requires
        lo <= hi <= s@.len(),
    ensures
        r == spec_parse_usize(s@.subrange(lo as int, hi as int)),
{
    let ghost whole = s@.subrange(lo as int, hi as int);
    let mut i: usize = lo;
    if i < hi && s[i] == '+' {
        i = i + 1;
    }
    let ghost body = if whole.len() >= 1 && whole[0] == '+' {
        whole.drop_first()
    } else {
        whole
    };
    assert(body =~= s@.subrange(i as int, hi as int));
    if i == hi {
        return None;
    }
    let ghost start = i as int;
    let mut acc: usize = 0;
    while i < hi
        invariant
            0 <= lo as int <= start <= i as int <= hi <= s@.len(),
            whole == s@.subrange(lo as int, hi as int),
            body == (if whole.len() >= 1 && whole[0] == '+' {
                whole.drop_first()
            } else {
                whole
            }),
            body =~= s@.subrange(start, hi as int),
            all_digits(s@.subrange(start, i as int)),
            acc as int == digits_val(s@.subrange(start, i as int)),
        decreases hi - i,
    {
        let c = s[i];
        let u = c as u32;
        if u < 48 || u > 57 {
            proof {
                assert(c == s@[i as int]);
                assert(0 <= i - start < hi as int - start);
                assert(s@.subrange(start, hi as int)[i - start] == s@[start + (i - start)]);
                assert(body == s@.subrange(start, hi as int));
                assert(body[i - start] == c);
                assert(!is_digit(c));
                assert(!all_digits(body));
                let sbody = if whole.len() >= 1 && whole[0] == '+' {
                    whole.drop_first()
                } else {
                    whole
                };
                assert(sbody == body);
                assert(!all_digits(sbody));
                assert(spec_parse_usize(whole) is None);
            }
            return None;
        }
        let d = (u - 48) as usize;
        if acc > (usize::MAX - d) / 10 {
            proof {
                let cur = s@.subrange(start, i as int + 1);
                assert(cur.drop_last() =~= s@.subrange(start, i as int));
                assert(cur.last() == c);
                assert(all_digits(cur)) by {
                    let pre = s@.subrange(start, i as int);
                    assert(forall|k: int| 0 <= k < cur.len() - 1 ==> cur[k] == #[trigger] pre[k]);
                    assert(is_digit(c));
                }
                assert(digits_val(cur) == acc * 10 + d);
                assert(digits_val(cur) > usize::MAX as int) by {
                    assert(acc > (usize::MAX - d) / 10);
                    assert(acc >= (usize::MAX - d) / 10 + 1);
                    assert((acc * 10) >= ((usize::MAX - d) / 10 + 1) * 10) by (nonlinear_arith)
                        requires
                            acc >= (usize::MAX - d) / 10 + 1,
                    ;
                    assert(((usize::MAX - d) / 10 + 1) * 10 > usize::MAX as int - d);
                };
                assert(body =~= cur + s@.subrange(i as int + 1, hi as int));
                if all_digits(body) {
                    let rest = s@.subrange(i as int + 1, hi as int);
                    assert forall|k: int| 0 <= k < rest.len() implies is_digit(#[trigger] rest[k]) by {
                        assert(body[cur.len() + k] == rest[k]);
                        assert(is_digit(body[cur.len() + k]));
                    }
                    assert(all_digits(rest));
                    lemma_digits_val_extend_ge(cur, rest);
                    assert(digits_val(body) > usize::MAX as int);
                }
                assert(spec_parse_usize(whole) is None);
            }
            return None;
        }
        proof {
            let cur = s@.subrange(start, i as int + 1);
            assert(cur.drop_last() =~= s@.subrange(start, i as int));
            assert(cur.last() == c);
            assert(digits_val(cur) == acc * 10 + d);
            assert(acc * 10 + d <= usize::MAX as int) by {
                assert(acc <= (usize::MAX - d) / 10);
                assert(acc * 10 <= ((usize::MAX - d) / 10) * 10) by (nonlinear_arith)
                    requires
                        acc <= (usize::MAX - d) / 10,
                ;
                assert(((usize::MAX - d) / 10) * 10 <= usize::MAX as int - d);
            };
        }
        acc = acc * 10 + d;
        i = i + 1;
    }
    proof {
        assert(s@.subrange(start, i as int) =~= body);
        lemma_digits_val_nonneg(body);
    }
    Some(acc)
}

/// If a digit string with value above a bound is extended on the right with
/// more digits, the value stays above the bound.
proof fn lemma_digits_val_extend_ge(a: Seq<char>, b: Seq<char>)
    requires
        all_digits(a),
        all_digits(b),
    ensures
        digits_val(a + b) >= digits_val(a),
    decreases b.len(),
{
    if b.len() == 0 {
        assert(a + b =~= a);
    } else {
        let b0 = b.drop_last();
        assert(all_digits(b0));
        assert((a + b).drop_last() =~= a + b0);
        assert((a + b).last() == b.last());
        lemma_digits_val_extend_ge(a, b0);
        lemma_digits_val_nonneg(a + b0);
        assert(digits_val(a + b) == digits_val(a + b0) * 10 + (b.last() as u32 - 48));
        assert(digits_val(a + b0) * 10 >= digits_val(a + b0)) by (nonlinear_arith)
            requires
                digits_val(a + b0) >= 0,
        ;
    }
}

/// The canonical rendering of `n` consists of digits only.
pub proof fn lemma_spec_digits_all_digits(n: nat)
    ensures
        all_digits(spec_digits(n)),
        spec_digits(n).len() >= 1,
    decreases n,
{
    if n < 10 {
        assert(is_digit(digit_char(n as int)));
    } else {
        lemma_spec_digits_all_digits(n / 10);
        assert(is_digit(digit_char((n % 10) as int)));
        assert(spec_digits(n) == spec_digits(n / 10) + seq![digit_char((n % 10) as int)]);
        assert(forall|i: int|
            0 <= i < spec_digits(n).len() ==> is_digit(#[trigger] spec_digits(n)[i]));
    }
}

proof fn lemma_digits_val_of_spec_digits(n: nat)
    ensures
        digits_val(spec_digits(n)) == n,
    decreases n,
{
    if n < 10 {
        assert(spec_digits(n).drop_last() =~= Seq::<char>::empty());
        assert(digits_val(Seq::<char>::empty()) == 0);
        assert(digits_val(spec_digits(n)) == digits_val(spec_digits(n).drop_last()) * 10 + (
        spec_digits(n).last() as u32 - 48));
        assert(digit_char(n as int) as u32 - 48 == n);
    } else {
        lemma_digits_val_of_spec_digits(n / 10);
        let s = spec_digits(n);
        assert(s == spec_digits(n / 10) + seq![digit_char((n % 10) as int)]);
        assert(s.drop_last() =~= spec_digits(n / 10));
        assert(s.last() == digit_char((n % 10) as int));
        assert(digit_char((n % 10) as int) as u32 - 48 == n % 10);
        assert((n / 10) * 10 + n % 10 == n);
    }
}

/// Parsing the canonical rendering of `n` yields `n` back.
pub proof fn lemma_parse_of_digits(n: usize)
    ensures
        spec_parse_usize(spec_digits(n as nat)) == Some(n),
{
    let s = spec_digits(n as nat);
    lemma_spec_digits_all_digits(n as nat);
    lemma_digits_val_of_spec_digits(n as nat);
    assert(is_digit(s[0]));
    assert(s[0] != '+');
}

/// A string holding any non-digit character other than a leading `+` does
/// not parse as a number.
pub proof fn lemma_parse_none_of_nondigit(s: Seq<char>, i: int)
    requires
        0 <= i < s.len(),
        !is_digit(s[i]),
        s[i] != '+' || i > 0,
    ensures
        spec_parse_usize(s) is None,
{
    if s.len() >= 1 && s[0] == '+' {
        let body = s.drop_first();
        assert(body[i - 1] == s[i]);
        assert(!all_digits(body));
    } else {
        assert(!all_digits(s));
    }
}

} // verus!
