//! Stable ordering of frame file names. The extractor numbers frames with
//! zero-padded sequence numbers, so sorting the names lexicographically —
//! whatever order the file system enumerated them in — puts the rendered
//! sequence into temporal order.
use vstd::prelude::*;
use crate::digits::{all_digits, dec_val, digit_val, is_digit};

verus! {

/// `a` comes no later than `b` in lexicographic (code point) order.
pub open spec fn lex_le(a: Seq<char>, b: Seq<char>) -> bool
    decreases a.len(),
{
    if a.len() == 0 {
        true
    } else if b.len() == 0 {
        false
    } else if (a[0] as u32) < (b[0] as u32) {
        true
    } else if (a[0] as u32) > (b[0] as u32) {
        false
    } else {
        lex_le(a.skip(1), b.skip(1))
    }
}

/// Every pair of the sequence stands in lexicographic order.
pub open spec fn sorted_by_lex(s: Seq<Seq<char>>) -> bool {
    forall|i: int, j: int| 0 <= i <= j < s.len() ==> lex_le(#[trigger] s[i], #[trigger] s[j])
}

/// Law: any two names compare one way or the other.
pub proof fn lemma_lex_le_total(a: Seq<char>, b: Seq<char>)
    ensures
        lex_le(a, b) || lex_le(b, a),
    decreases a.len(),
{
    if a.len() > 0 && b.len() > 0 && a[0] as u32 == b[0] as u32 {
        lemma_lex_le_total(a.skip(1), b.skip(1));
    }
}

/// Law: lexicographic order is transitive.
pub proof fn lemma_lex_le_trans(a: Seq<char>, b: Seq<char>, c: Seq<char>)
    requires
        lex_le(a, b),
        lex_le(b, c),
    ensures
        lex_le(a, c),
    decreases a.len(),
{
    if a.len() > 0 && b.len() > 0 && c.len() > 0 {
        if a[0] as u32 == b[0] as u32 && b[0] as u32 == c[0] as u32 {
            lemma_lex_le_trans(a.skip(1), b.skip(1), c.skip(1));
        }
    }
}

proof fn lemma_lex_le_from(a: Seq<char>, b: Seq<char>, i: int)
    requires
        0 <= i <= a.len(),
        i <= b.len(),
        forall|j: int| 0 <= j < i ==> a[j] == b[j],
    ensures
        lex_le(a, b) == lex_le(a.skip(i), b.skip(i)),
    decreases i,
{
    if i == 0 {
        assert(a.skip(0) =~= a);
        assert(b.skip(0) =~= b);
    } else {
        lemma_lex_le_from(a, b, i - 1);
        assert(a.skip(i - 1).skip(1) =~= a.skip(i));
        assert(b.skip(i - 1).skip(1) =~= b.skip(i));
    }
}

/// Compares two names lexicographically by code point, as the file names
/// of extracted frames are compared.
pub fn str_le(a: &String, b: &String) -> (r: bool)
    ensures
        r == lex_le(a@, b@),
{
    let ca = crate::text::str_to_chars(a.as_str());
    let cb = crate::text::str_to_chars(b.as_str());
    let mut i: usize = 0;
    loop
        invariant
            i <= ca@.len(),
            i <= cb@.len(),
            ca@ == a@,
            cb@ == b@,
            forall|j: int| 0 <= j < i ==> a@[j] == b@[j],
        decreases a@.len() - i,
    {
        proof {
            lemma_lex_le_from(a@, b@, i as int);
        }
        if i >= ca.len() {
            return true;
        }
        if i >= cb.len() {
            return false;
        }
        let x = ca[i] as u32;
        let y = cb[i] as u32;
        if x < y {
            return true;
        }
        if x > y {
            return false;
        }
        proof {
            vstd::utf8::char_u32_cast(a@[i as int], a@[i as int] as u32);
            vstd::utf8::char_u32_cast(b@[i as int], b@[i as int] as u32);
            assert(a@[i as int] == b@[i as int]);
        }
        i += 1;
    }
}

/// Sorts frame file names lexicographically: the result is ordered and
/// holds exactly the given names.
pub fn sort_names(names: Vec<String>) -> (r: Vec<String>)
    ensures
        sorted_by_lex(r.deep_view()),
        r.deep_view().to_multiset() == names.deep_view().to_multiset(),
{
    broadcast use vstd::seq_lib::group_to_multiset_ensures;
    broadcast use vstd::multiset::group_multiset_axioms;

    let ghost names0 = names.deep_view();
    let mut rest = names;
    let mut out: Vec<String> = Vec::new();
    while rest.len() > 0
        invariant
            sorted_by_lex(out.deep_view()),
            forall|i: int, j: int|
                0 <= i < out.deep_view().len() && 0 <= j < rest.deep_view().len() ==> lex_le(
                    #[trigger] out.deep_view()[i],
                    #[trigger] rest.deep_view()[j],
                ),
            out.deep_view().to_multiset().add(rest.deep_view().to_multiset())
                == names0.to_multiset(),
        decreases rest@.len(),
    {
        let mut m: usize = 0;
        let mut q: usize = 1;
        proof {
            lemma_lex_le_total(rest.deep_view()[0], rest.deep_view()[0]);
        }
        while q < rest.len()
            invariant
                q <= rest@.len(),
                m < rest@.len(),
                forall|k: int| 0 <= k < q ==> lex_le(rest.deep_view()[m as int], #[trigger] rest.deep_view()[k]),
            decreases rest@.len() - q,
        {
            if str_le(&rest[q], &rest[m]) {
                proof {
                    let dv = rest.deep_view();
                    assert forall|k: int| 0 <= k < q + 1 implies lex_le(
                        dv[q as int],
                        #[trigger] dv[k],
                    ) by {
                        lemma_lex_le_total(dv[q as int], dv[q as int]);
                        if k < q {
                            lemma_lex_le_trans(dv[q as int], dv[m as int], dv[k]);
                        }
                    }
                }
                m = q;
            } else {
                proof {
                    lemma_lex_le_total(rest.deep_view()[m as int], rest.deep_view()[q as int]);
                }
            }
            q += 1;
        }
        let ghost pre_rest = rest.deep_view();
        let ghost pre_out = out.deep_view();
        let x = rest.remove(m);
        out.push(x);
        proof {
            broadcast use vstd::seq_lib::group_to_multiset_ensures;
            broadcast use vstd::multiset::group_multiset_axioms;

            assert(out.deep_view() =~~= pre_out.push(pre_rest[m as int]));
            assert(rest.deep_view() =~~= pre_rest.remove(m as int));
            assert forall|i: int, j: int|
                0 <= i <= j < out.deep_view().len() implies lex_le(
                #[trigger] out.deep_view()[i],
                #[trigger] out.deep_view()[j],
            ) by {
                if j == out.deep_view().len() - 1 && i < j {
                    assert(lex_le(pre_out[i], pre_rest[m as int]));
                }
                if i == j {
                    lemma_lex_le_total(out.deep_view()[i], out.deep_view()[i]);
                }
            }
            assert forall|i: int, j: int|
                0 <= i < out.deep_view().len() && 0 <= j < rest.deep_view().len() implies lex_le(
                #[trigger] out.deep_view()[i],
                #[trigger] rest.deep_view()[j],
            ) by {
                let oj = if j < m { j } else { j + 1 };
                assert(rest.deep_view()[j] == pre_rest[oj]);
                if i < out.deep_view().len() - 1 {
                    assert(lex_le(out.deep_view()[i], pre_rest[oj]));
                } else {
                    assert(lex_le(pre_rest[m as int], pre_rest[oj]));
                }
            }
            let ghost xm = pre_rest[m as int];
            assert(pre_out.push(xm).to_multiset() =~= pre_out.to_multiset().insert(xm));
            assert(pre_rest.remove(m as int).to_multiset() =~= pre_rest.to_multiset().remove(xm));
            assert(pre_rest.contains(xm));
            assert(out.deep_view().to_multiset().add(rest.deep_view().to_multiset())
                =~= pre_out.to_multiset().add(pre_rest.to_multiset()));
        }
    }
    proof {
        broadcast use vstd::seq_lib::group_to_multiset_ensures;
        broadcast use vstd::multiset::group_multiset_axioms;

        assert(rest.deep_view() =~~= Seq::<Seq<char>>::empty());
        assert(rest.deep_view().to_multiset() =~= vstd::multiset::Multiset::<Seq<char>>::empty());
        assert(out.deep_view().to_multiset().add(vstd::multiset::Multiset::<Seq<char>>::empty())
            =~= out.deep_view().to_multiset());
    }
    out
}

/// Ten to the `k`-th power.
pub open spec fn pow10(k: nat) -> nat
    decreases k,
{
    if k == 0 {
        1
    } else {
        10 * pow10((k - 1) as nat)
    }
}

proof fn lemma_pow10_pos(k: nat)
    ensures
        pow10(k) >= 1,
    decreases k,
{
    if k > 0 {
        lemma_pow10_pos((k - 1) as nat);
    }
}

proof fn lemma_all_digits_drop_last(s: Seq<char>)
    requires
        s.len() > 0,
        all_digits(s),
    ensures
        all_digits(s.drop_last()),
{
    assert forall|i: int| 0 <= i < s.drop_last().len() implies is_digit(
        #[trigger] s.drop_last()[i],
    ) by {
        assert(s.drop_last()[i] == s[i]);
    }
}

proof fn lemma_all_digits_skip(s: Seq<char>)
    requires
        s.len() > 0,
        all_digits(s),
    ensures
        all_digits(s.skip(1)),
{
    assert forall|i: int| 0 <= i < s.skip(1).len() implies is_digit(#[trigger] s.skip(1)[i]) by {
        assert(s.skip(1)[i] == s[i + 1]);
    }
}

proof fn lemma_dec_val_msb(s: Seq<char>)
    requires
        s.len() > 0,
    ensures
        dec_val(s) == digit_val(s[0]) * pow10((s.len() - 1) as nat) + dec_val(s.skip(1)),
    decreases s.len(),
{
    if s.len() == 1 {
        assert(s.drop_last() =~= Seq::<char>::empty());
        assert(s.skip(1) =~= Seq::<char>::empty());
        assert(s.last() == s[0]);
        assert(pow10((s.len() - 1) as nat) == 1);
        assert(dec_val(s) == digit_val(s[0]));
        assert(dec_val(s) == digit_val(s[0]) * pow10((s.len() - 1) as nat) + dec_val(s.skip(1)));
    } else {
        let dl = s.drop_last();
        lemma_dec_val_msb(dl);
        assert(dl[0] == s[0]);
        assert(s.skip(1).drop_last() =~= dl.skip(1));
        assert(s.skip(1).last() == s.last());
        let d0 = digit_val(s[0]) as int;
        let p = pow10((s.len() - 2) as nat) as int;
        let r = dec_val(dl.skip(1)) as int;
        let l = digit_val(s.last()) as int;
        assert(pow10((s.len() - 1) as nat) == 10 * pow10((s.len() - 2) as nat));
        assert(dec_val(dl) == d0 * p + r);
        assert(dec_val(s) == (d0 * p + r) * 10 + l);
        assert(dec_val(s.skip(1)) == r * 10 + l);
        vstd::arithmetic::mul::lemma_mul_is_associative(d0, p, 10);
        assert((d0 * p) * 10 == d0 * (p * 10));
        assert(dec_val(s) == d0 * (10 * p) + (r * 10 + l));
        vstd::arithmetic::mul::lemma_mul_nonnegative(d0, 10 * p);
        assert(digit_val(s[0]) * pow10((s.len() - 1) as nat) == d0 * (10 * p));
    }
}

proof fn lemma_dec_val_bound(s: Seq<char>)
    requires
        all_digits(s),
    ensures
        dec_val(s) < pow10(s.len()),
    decreases s.len(),
{
    if s.len() > 0 {
        lemma_all_digits_drop_last(s);
        lemma_dec_val_bound(s.drop_last());
    }
}

/// Law: for two digit strings of the same length — zero-padded sequence
/// numbers — lexicographic order is exactly numeric order.
pub proof fn lemma_lex_le_is_numeric_le(a: Seq<char>, b: Seq<char>)
    requires
        a.len() == b.len(),
        all_digits(a),
        all_digits(b),
    ensures
        lex_le(a, b) <==> dec_val(a) <= dec_val(b),
    decreases a.len(),
{
    if a.len() > 0 {
        lemma_dec_val_msb(a);
        lemma_dec_val_msb(b);
        lemma_all_digits_skip(a);
        lemma_all_digits_skip(b);
        lemma_dec_val_bound(a.skip(1));
        lemma_dec_val_bound(b.skip(1));
        lemma_pow10_pos((a.len() - 1) as nat);
        let p = pow10((a.len() - 1) as nat) as int;
        let da = digit_val(a[0]) as int;
        let db = digit_val(b[0]) as int;
        let ra = dec_val(a.skip(1)) as int;
        let rb = dec_val(b.skip(1)) as int;
        if (a[0] as u32) < (b[0] as u32) {
            assert(da * p + ra < db * p + rb) by (nonlinear_arith)
                requires
                    da < db,
                    0 <= ra < p,
                    0 <= rb,
                    p >= 1,
            ;
        } else if (a[0] as u32) > (b[0] as u32) {
            assert(db * p + rb < da * p + ra) by (nonlinear_arith)
                requires
                    db < da,
                    0 <= rb < p,
                    0 <= ra,
                    p >= 1,
            ;
        } else {
            lemma_lex_le_is_numeric_le(a.skip(1), b.skip(1));
        }
    }
}

/// Law: a shared stem before and a shared extension after a fixed-width
/// field drop out of the comparison: two names of that shape order as
/// their fields do.
pub proof fn lemma_lex_le_affix(p: Seq<char>, a: Seq<char>, b: Seq<char>, s: Seq<char>)
    requires
        a.len() == b.len(),
    ensures
        lex_le(p + a + s, p + b + s) == lex_le(a, b),
    decreases p.len() + a.len(),
{
    if p.len() > 0 {
        assert((p + a + s).skip(1) =~= p.skip(1) + a + s);
        assert((p + b + s).skip(1) =~= p.skip(1) + b + s);
        lemma_lex_le_affix(p.skip(1), a, b, s);
    } else if a.len() == 0 {
        assert(p + a + s =~= s);
        assert(p + b + s =~= s);
        lemma_lex_le_total(s, s);
    } else {
        assert((p + a + s)[0] == a[0]);
        assert((p + b + s)[0] == b[0]);
        if a[0] as u32 == b[0] as u32 {
            assert((p + a + s).skip(1) =~= Seq::<char>::empty() + a.skip(1) + s);
            assert((p + b + s).skip(1) =~= Seq::<char>::empty() + b.skip(1) + s);
            lemma_lex_le_affix(Seq::<char>::empty(), a.skip(1), b.skip(1), s);
        }
    }
}

/// Law: frame file names built as a common stem, a zero-padded sequence
/// number of fixed width, and a common extension compare lexicographically
/// exactly as their sequence numbers compare, so the sorted name sequence
/// is in temporal order whatever order the file system enumerated it in.
pub proof fn lemma_padded_names_order(stem: Seq<char>, a: Seq<char>, b: Seq<char>, ext: Seq<char>)
    requires
        a.len() == b.len(),
        all_digits(a),
        all_digits(b),
    ensures
        lex_le(stem + a + ext, stem + b + ext) <==> dec_val(a) <= dec_val(b),
{
    lemma_lex_le_affix(stem, a, b, ext);
    lemma_lex_le_is_numeric_le(a, b);
}

/// Law: a lexicographically sorted run of such frame names stands in
/// frame-number order, whatever order the file system handed them out in.
pub proof fn lemma_sorted_names_in_frame_order(
    names: Seq<Seq<char>>,
    stem: Seq<char>,
    nums: Seq<Seq<char>>,
    ext: Seq<char>,
    w: nat,
)
    requires
        sorted_by_lex(names),
        names.len() == nums.len(),
        forall|i: int| 0 <= i < names.len() ==> names[i] == stem + #[trigger] nums[i] + ext,
        forall|i: int| 0 <= i < nums.len() ==> (#[trigger] nums[i]).len() == w && all_digits(
            nums[i],
        ),
    ensures
        forall|i: int, j: int|
            0 <= i <= j < nums.len() ==> dec_val(#[trigger] nums[i]) <= dec_val(
                #[trigger] nums[j],
            ),
{
    assert forall|i: int, j: int| 0 <= i <= j < nums.len() implies dec_val(#[trigger] nums[i])
        <= dec_val(#[trigger] nums[j]) by {
        lemma_padded_names_order(stem, nums[i], nums[j], ext);
    }
}

} // verus!
