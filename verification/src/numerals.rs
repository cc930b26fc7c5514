//! Decimal digit strings: their numeric value, the standard unsigned
//! parse with its optional leading plus sign, and the canonical decimal
//! rendering of a number.

use vstd::prelude::*;
use vstd::string::StrSliceExecFns;
use vstd::string::StringExecFns;

verus! {

/// Whether `c` is a decimal digit.
pub open spec fn is_digit_char(c: char) -> bool {
    48 <= c as u32 <= 57
}

/// The value of one decimal digit; 0 for anything else.
pub open spec fn digit_val(c: char) -> nat {
    if is_digit_char(c) {
        (c as u32 - 48) as nat
    } else {
        0
    }
}

/// Whether every character of `s` is a decimal digit.
pub open spec fn all_digits(s: Seq<char>) -> bool {
    forall|i: int| 0 <= i < s.len() ==> is_digit_char(#[trigger] s[i])
}

/// The numeric value of a digit string read in base 10; an empty string
/// has value 0.
pub open spec fn digits_val(s: Seq<char>) -> nat
    decreases s.len(),
{
    if s.len() == 0 {
        0
    } else {
        digits_val(s.drop_last()) * 10 + digit_val(s.last())
    }
}

/// Extending a digit string on the right never lowers its value.
pub proof fn lemma_digits_val_monotone(s: Seq<char>, k: int)
    requires
        0 <= k <= s.len(),
    ensures
        digits_val(s.take(k)) <= digits_val(s),
    decreases s.len(),
{
    if k < s.len() {
        assert(s.drop_last().take(k) =~= s.take(k));
        lemma_digits_val_monotone(s.drop_last(), k);
    } else {
        assert(s.take(k) =~= s);
    }
}

/// The characters the value of `s` is read from: `s` itself, or what
/// follows a single leading '+'.
pub open spec fn parse_body(s: Seq<char>) -> Seq<char> {
    if s.len() >= 1 && s[0] == '+' {
        s.skip(1)
    } else {
        s
    }
}

/// Whether `s` parses as a `usize` the way the standard decimal parse
/// does: an optional leading '+', then at least one digit, and a value
/// that fits the type.
pub open spec fn parses_as_usize(s: Seq<char>) -> bool {
    &&& parse_body(s).len() >= 1
    &&& all_digits(parse_body(s))
    &&& digits_val(parse_body(s)) <= usize::MAX
}

/// The value `s` parses to, meaningful when `parses_as_usize(s)` holds.
pub open spec fn usize_value(s: Seq<char>) -> nat {
    digits_val(parse_body(s))
}

/// Parses a decimal `usize` the way the standard library does: an
/// optional leading '+', one or more digits, and no overflow.
#[verifier::loop_isolation(false)]
pub fn parse_usize(s: &str) -> (r: Option<usize>)
    ensures
        r is Some <==> parses_as_usize(s@),
        r matches Some(v) ==> v as nat == usize_value(s@),
{
    let n = s.unicode_len();
    let offset: usize = if n >= 1 && s.get_char(0) == '+' {
        1
    } else {
        0
    };
    let ghost t = parse_body(s@);
    proof {
        assert(t =~= s@.skip(offset as int));
    }
    if offset >= n {
        return Option::None;
    }
    let mut val: usize = 0;
    let mut i: usize = offset;
    while i < n
        invariant
            offset <= i <= n,
            all_digits(t.take(i - offset)),
            val == digits_val(t.take(i - offset)),
        decreases n - i,
    {
        let c = s.get_char(i);
        let u = c as u32;
        proof {
            assert(t[i - offset] == c);
            assert(t.take(i - offset + 1).drop_last() =~= t.take(i - offset));
            assert(t.take(i - offset + 1).last() == c);
        }
        if u < 48 || u > 57 {
            proof {
                assert(!is_digit_char(t[i - offset]));
            }
            return Option::None;
        }
        let d = (u - 48) as usize;
        if val > usize::MAX / 10 || (val == usize::MAX / 10 && d as usize > usize::MAX % 10) {
            proof {
                assert(val * 10 + d > usize::MAX);
                assert(digits_val(t.take(i - offset + 1)) > usize::MAX);
                if parses_as_usize(s@) {
                    lemma_digits_val_monotone(t, i - offset + 1);
                    assert(false);
                }
            }
            return Option::None;
        }
        val = val * 10 + d;
        i = i + 1;
    }
    proof {
        assert(t.take(n - offset) =~= t);
    }
    Option::Some(val)
}

/// The decimal digit character for a value below 10.
pub open spec fn digit_char(d: nat) -> char {
    if d == 0 {
        '0'
    } else if d == 1 {
        '1'
    } else if d == 2 {
        '2'
    } else if d == 3 {
        '3'
    } else if d == 4 {
        '4'
    } else if d == 5 {
        '5'
    } else if d == 6 {
        '6'
    } else if d == 7 {
        '7'
    } else if d == 8 {
        '8'
    } else {
        '9'
    }
}

/// The canonical decimal rendering of `n`: most significant digit first,
/// no sign, no leading zeros, a single '0' for zero.
pub open spec fn dec_digits(n: nat) -> Seq<char>
    decreases n,
{
    if n < 10 {
        seq![digit_char(n)]
    } else {
        dec_digits(n / 10) + seq![digit_char(n % 10)]
    }
}

/// The canonical rendering is made of digits, and parsing it gives back
/// the number it renders.
pub proof fn lemma_dec_digits_val(n: nat)
    ensures
        dec_digits(n).len() >= 1,
        all_digits(dec_digits(n)),
        digits_val(dec_digits(n)) == n,
    decreases n,
{
    if n < 10 {
        let whole = dec_digits(n);
        assert(is_digit_char(digit_char(n)));
        assert(digit_val(digit_char(n)) == n);
        assert(whole == seq![digit_char(n)]);
        assert(whole.len() == 1);
        assert(whole.last() == digit_char(n));
        assert(whole.drop_last() =~= Seq::<char>::empty());
        assert(digits_val(whole.drop_last()) == 0);
        assert(digits_val(whole) == digits_val(whole.drop_last()) * 10 + digit_val(whole.last()));
        assert(digits_val(whole) == n);
    } else {
        lemma_dec_digits_val(n / 10);
        let pre = dec_digits((n / 10) as nat);
        let whole = dec_digits(n);
        assert(whole == pre + seq![digit_char(n % 10)]);
        assert(whole.drop_last() =~= pre);
        assert(whole.last() == digit_char(n % 10));
        assert(is_digit_char(digit_char(n % 10)));
        assert(digit_val(digit_char(n % 10)) == n % 10);
        vstd::arithmetic::div_mod::lemma_fundamental_div_mod(n as int, 10);
        assert(digits_val(whole) == digits_val(whole.drop_last()) * 10 + digit_val(whole.last()));
        assert(digits_val(whole.drop_last()) == n / 10);
        assert(digits_val(whole) == (n / 10) * 10 + (n % 10));
        assert((n / 10) * 10 + (n % 10) == n);
        assert forall|i: int| 0 <= i < whole.len() implies is_digit_char(whole[i]) by {
            if i < pre.len() {
                assert(whole[i] == pre[i]);
            }
        }
    }
}

/// The reversal of extracted low-order digits, as characters.
pub open spec fn rev_digit_chars(ds: Seq<usize>) -> Seq<char> {
    Seq::new(ds.len(), |j: int| digit_char(ds[ds.len() - 1 - j] as nat))
}

/// One decimal digit as a string slice.
fn digit_str(d: usize) -> (r: &'static str)
    requires
        d < 10,
    ensures
        r@ == seq![digit_char(d as nat)],
{
    let r = if d == 0 {
        "0"
    } else if d == 1 {
        "1"
    } else if d == 2 {
        "2"
    } else if d == 3 {
        "3"
    } else if d == 4 {
        "4"
    } else if d == 5 {
        "5"
    } else if d == 6 {
        "6"
    } else if d == 7 {
        "7"
    } else if d == 8 {
        "8"
    } else {
        "9"
    };
    proof {
        reveal_strlit("0");
        reveal_strlit("1");
        reveal_strlit("2");
        reveal_strlit("3");
        reveal_strlit("4");
        reveal_strlit("5");
        reveal_strlit("6");
        reveal_strlit("7");
        reveal_strlit("8");
        reveal_strlit("9");
        assert(r@ =~= seq![digit_char(d as nat)]);
    }
    r
}

/// Renders `n` in decimal, matching the canonical rendering.
#[verifier::loop_isolation(false)]
pub fn usize_to_string(n: usize) -> (r: String)
    ensures
        r@ == dec_digits(n as nat),
{
    let mut digs: Vec<usize> = Vec::new();
    digs.push(n % 10);
    let mut m = n / 10;
    proof {
        assert(dec_digits(n as nat) =~= if m > 0 {
            dec_digits(m as nat) + rev_digit_chars(digs@)
        } else {
            rev_digit_chars(digs@)
        });
    }
    while m > 0
        invariant
            forall|j: int| 0 <= j < digs@.len() ==> #[trigger] digs@[j] < 10,
            digs@.len() >= 1,
            dec_digits(n as nat) == if m > 0 {
                dec_digits(m as nat) + rev_digit_chars(digs@)
            } else {
                rev_digit_chars(digs@)
            },
        decreases m,
    {
        let ghost old_digs = digs@;
        let ghost old_m = m as nat;
        digs.push(m % 10);
        m = m / 10;
        proof {
            assert(dec_digits(old_m) == if old_m < 10 {
                seq![digit_char(old_m)]
            } else {
                dec_digits(old_m / 10) + seq![digit_char(old_m % 10)]
            });
            assert(dec_digits(old_m) + rev_digit_chars(old_digs) =~= if m > 0 {
                dec_digits(m as nat) + rev_digit_chars(digs@)
            } else {
                rev_digit_chars(digs@)
            });
        }
    }
    let mut out = String::new();
    let mut k = digs.len();
    while k > 0
        invariant
            k <= digs@.len(),
            out@ == rev_digit_chars(digs@).take(digs@.len() - k),
        decreases k,
    {
        k = k - 1;
        let ghost before = out@;
        out.append(digit_str(digs[k]));
        proof {
            assert(out@ =~= rev_digit_chars(digs@).take(digs@.len() - k));
        }
    }
    proof {
        assert(rev_digit_chars(digs@).take(digs@.len() as int) =~= rev_digit_chars(digs@));
    }
    out
}

} // verus!
