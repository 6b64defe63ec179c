//! Decimal digit strings: their numeric value and a verified parser.
use vstd::prelude::*;

verus! {

/// `c` is an ASCII decimal digit.
pub open spec fn is_digit(c: char) -> bool {
    48 <= c as u32 <= 57
}

/// The value of one digit; zero for anything else.
pub open spec fn digit_val(c: char) -> nat {
    if is_digit(c) {
        (c as u32 - 48) as nat
    } else {
        0
    }
}

/// Every character of `s` is a decimal digit.
pub open spec fn all_digits(s: Seq<char>) -> bool {
    forall|i: int| 0 <= i < s.len() ==> is_digit(#[trigger] s[i])
}

/// Numeric value of a digit string, most significant digit first.
pub open spec fn dec_val(s: Seq<char>) -> nat
    decreases s.len(),
{
    if s.len() == 0 {
        0
    } else {
        dec_val(s.drop_last()) * 10 + digit_val(s.last())
    }
}

/// Appending one character multiplies the value by ten and adds the digit.
pub proof fn lemma_dec_val_extend(s: Seq<char>, i: int)
    requires
        0 <= i < s.len(),
    ensures
        dec_val(s.take(i + 1)) == dec_val(s.take(i)) * 10 + digit_val(s[i]),
{
    assert(s.take(i + 1).drop_last() =~= s.take(i));
}

/// A prefix of a digit string never exceeds the whole string's value.
pub proof fn lemma_dec_val_prefix_le(s: Seq<char>, i: int)
    requires
        0 <= i <= s.len(),
    ensures
        dec_val(s.take(i)) <= dec_val(s),
    decreases s.len() - i,
{
    if i == s.len() {
        assert(s.take(i) =~= s);
    } else {
        lemma_dec_val_extend(s, i);
        lemma_dec_val_prefix_le(s, i + 1);
    }
}

/// `v > (m - d) / k` says exactly that `v * k + d` overflows `m`.
pub proof fn lemma_scaled_bound(v: int, d: int, k: int, m: int)
    requires
        k > 0,
        0 <= d <= m,
        0 <= v,
    ensures
        v > (m - d) / k <==> v * k + d > m,
{
    let q = (m - d) / k;
    let r = (m - d) % k;
    vstd::arithmetic::div_mod::lemma_fundamental_div_mod(m - d, k);
    assert(v > q ==> v * k + d > m) by (nonlinear_arith)
        requires
            m - d == k * q + r,
            0 <= r < k,
            k > 0,
            v >= 0,
    ;
    assert(v <= q ==> v * k + d <= m) by (nonlinear_arith)
        requires
            m - d == k * q + r,
            0 <= r < k,
            k > 0,
            v >= 0,
            q >= 0,
    ;
}

/// Reads a decimal digit: its value for '0' through '9', nothing otherwise.
pub fn read_digit(c: char) -> (r: Option<u8>)
    ensures
        match r {
            Some(d) => is_digit(c) && d == digit_val(c),
            None => !is_digit(c),
        },
{
    let u = c as u32;
    if 48 <= u && u <= 57 {
        Some((u - 48) as u8)
    } else {
        None
    }
}

/// Parses a nonempty digit string as a number no greater than `cap`.
/// Returns the value exactly when the string is nonempty, all digits, and
/// its value fits under the cap; refuses it otherwise.
pub fn parse_dec(t: &Vec<char>, cap: u64) -> (r: Option<u64>)
    ensures
        match r {
            Some(n) => t@.len() > 0 && all_digits(t@) && n == dec_val(t@) && n <= cap,
            None => t@.len() == 0 || !all_digits(t@) || dec_val(t@) > cap,
        },
{
    if t.len() == 0 {
        return None;
    }
    let mut val: u64 = 0;
    let mut i: usize = 0;
    while i < t.len()
        invariant
            0 < t@.len(),
            i <= t@.len(),
            all_digits(t@.take(i as int)),
            val == dec_val(t@.take(i as int)),
            val <= cap,
        decreases t@.len() - i,
    {
        let d = match read_digit(t[i]) {
            Some(d) => d,
            None => {
                return None;
            },
        };
        if (d as u64) > cap {
            proof {
                lemma_dec_val_extend(t@, i as int);
                lemma_dec_val_prefix_le(t@, i + 1);
            }
            return None;
        }
        proof {
            lemma_dec_val_extend(t@, i as int);
            lemma_scaled_bound(val as int, d as int, 10, cap as int);
        }
        if val > (cap - (d as u64)) / 10 {
            proof {
                lemma_dec_val_prefix_le(t@, i + 1);
            }
            return None;
        }
        val = val * 10 + (d as u64);
        proof {
            assert(all_digits(t@.take(i + 1))) by {
                assert(forall|j: int|
                    0 <= j < i + 1 ==> t@.take(i + 1)[j] == t@.take(i + 1)[j] && (j < i ==> t@.take(
                        i + 1,
                    )[j] == t@.take(i as int)[j]));
            }
        }
        i += 1;
    }
    proof {
        assert(t@.take(i as int) =~= t@);
    }
    Some(val)
}

/// The digit character for a value below ten.
pub open spec fn digit_char(d: nat) -> char {
    if d == 0 {
        '0'
    } else if d == 1 {
        '1'
    } else if d == 2 {
        '2'
    } else if d == 3 {
        '3'
    } else if d == 4 {
        '4'
    } else if d == 5 {
        '5'
    } else if d == 6 {
        '6'
    } else if d == 7 {
        '7'
    } else if d == 8 {
        '8'
    } else {
        '9'
    }
}

/// The canonical decimal representation of `n`: no sign, no leading zero
/// except for zero itself.
pub open spec fn dec_repr(n: nat) -> Seq<char>
    decreases n,
{
    if n < 10 {
        seq![digit_char(n)]
    } else {
        dec_repr(n / 10).push(digit_char(n % 10))
    }
}

/// Law: formatting inverts parsing — the canonical representation is all
/// digits, nonempty, without a leading zero unless it is "0", and its
/// value is the number itself.
pub proof fn lemma_dec_repr_val(n: nat)
    ensures
        all_digits(dec_repr(n)),
        dec_repr(n).len() >= 1,
        dec_val(dec_repr(n)) == n,
        n >= 1 ==> dec_repr(n)[0] != '0',
    decreases n,
{
    lemma_digit_char_val(n % 10);
    if n < 10 {
        assert(dec_repr(n).drop_last() =~= Seq::<char>::empty());
        assert(dec_repr(n).last() == digit_char(n));
        assert(dec_val(Seq::<char>::empty()) == 0);
        assert(dec_val(dec_repr(n)) == digit_val(digit_char(n)));
    } else {
        lemma_dec_repr_val(n / 10);
        let s = dec_repr(n / 10);
        let c = digit_char(n % 10);
        assert(s.push(c).drop_last() =~= s);
        assert(s.push(c).last() == c);
        assert(dec_val(s.push(c)) == dec_val(s) * 10 + digit_val(c));
        assert(dec_val(dec_repr(n)) == (n / 10) * 10 + (n % 10));
        assert forall|i: int| 0 <= i < s.push(c).len() implies is_digit(#[trigger] s.push(c)[i]) by {
            if i < s.len() {
                assert(s.push(c)[i] == s[i]);
            }
        }
    }
}

proof fn lemma_digit_char_val(d: nat)
    requires
        d < 10,
    ensures
        is_digit(digit_char(d)),
        digit_val(digit_char(d)) == d,
{
}

fn digit_char_of(d: u64) -> (c: char)
    requires
        d < 10,
    ensures
        c == digit_char(d as nat),
{
    if d == 0 {
        '0'
    } else if d == 1 {
        '1'
    } else if d == 2 {
        '2'
    } else if d == 3 {
        '3'
    } else if d == 4 {
        '4'
    } else if d == 5 {
        '5'
    } else if d == 6 {
        '6'
    } else if d == 7 {
        '7'
    } else if d == 8 {
        '8'
    } else {
        '9'
    }
}

/// Formats `n` in its canonical decimal form.
pub fn format_dec(n: u64) -> (r: Vec<char>)
    ensures
        r@ == dec_repr(n as nat),
{
    let mut digs: Vec<char> = Vec::new();
    digs.push(digit_char_of(n % 10));
    let mut m = n / 10;
    proof {
        if n < 10 {
            assert(dec_repr(n as nat) =~= digs@.reverse());
        } else {
            assert(dec_repr((n as nat) / 10).push(digit_char((n as nat) % 10)) =~= dec_repr(
                (n as nat) / 10,
            ) + digs@.reverse());
        }
    }
    while m > 0
        invariant
            m > 0 ==> dec_repr(n as nat) == dec_repr(m as nat) + digs@.reverse(),
            m == 0 ==> dec_repr(n as nat) == digs@.reverse(),
        decreases m,
    {
        let ghost pre = digs@;
        let ghost m0 = m as nat;
        let d = m % 10;
        digs.push(digit_char_of(d));
        proof {
            assert(digs@.reverse() =~= seq![digit_char(d as nat)] + pre.reverse());
            if m >= 10 {
                assert(dec_repr(m0) == dec_repr(m0 / 10).push(digit_char(m0 % 10)));
                assert(dec_repr(m0 / 10).push(digit_char(m0 % 10)) + pre.reverse() =~= dec_repr(
                    m0 / 10,
                ) + digs@.reverse());
            } else {
                assert(dec_repr(m0) == seq![digit_char(m0)]);
                assert(seq![digit_char(m0)] + pre.reverse() =~= digs@.reverse());
            }
        }
        m = m / 10;
    }
    let mut r: Vec<char> = Vec::new();
    let k = digs.len();
    let mut i: usize = 0;
    while i < k
        invariant
            i <= k,
            k == digs@.len(),
            r@ == digs@.reverse().take(i as int),
        decreases k - i,
    {
        r.push(digs[k - 1 - i]);
        proof {
            assert(r@ =~= digs@.reverse().take(i + 1));
        }
        i += 1;
    }
    proof {
        assert(digs@.reverse().take(k as int) =~= digs@.reverse());
    }
    r
}

} // verus!
