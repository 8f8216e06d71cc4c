//! Fixed-width binary strings: the numeric value of a bit sequence, its
//! rendering as a string of '0' and '1', and an arbitrary-width counter used
//! by the canonical code assigner.

use vstd::prelude::*;

use vstd::arithmetic::div_mod::{lemma_fundamental_div_mod, lemma_fundamental_div_mod_converse};
use vstd::arithmetic::power2::{lemma_pow2_adds, lemma_pow2_pos, lemma_pow2_unfold, pow2};

verus! {

/// Every element is a binary digit.
pub open spec fn bits_wf(s: Seq<u8>) -> bool {
    forall|i: int| 0 <= i < s.len() ==> (#[trigger] s[i]) == 0 || s[i] == 1
}

pub open spec fn bit_int(b: u8) -> int {
    if b == 1 {
        1
    } else {
        0
    }
}

/// Numeric value of a bit sequence, most significant bit first.
pub open spec fn bits_val(s: Seq<u8>) -> nat
    decreases s.len(),
{
    if s.len() == 0 {
        0
    } else {
        (2 * bits_val(s.drop_last()) + bit_int(s.last())) as nat
    }
}

/// The `w`-bit binary rendering of `v`, most significant bit first.
pub open spec fn bin_str(v: nat, w: nat) -> Seq<char>
    decreases w,
{
    if w == 0 {
        Seq::empty()
    } else {
        bin_str(v / 2, (w - 1) as nat).push(
            if v % 2 == 1 {
                '1'
            } else {
                '0'
            },
        )
    }
}

/// Numeric value of a string of '0' and '1', most significant first.
pub open spec fn char_val(s: Seq<char>) -> nat
    decreases s.len(),
{
    if s.len() == 0 {
        0
    } else {
        (2 * char_val(s.drop_last()) + if s.last() == '1' {
            1int
        } else {
            0int
        }) as nat
    }
}

/// The characters of a bit sequence.
pub open spec fn bit_chars(s: Seq<u8>) -> Seq<char> {
    s.map_values(
        |b: u8|
            if b == 1 {
                '1'
            } else {
                '0'
            },
    )
}

pub proof fn lemma_bin_str_len(v: nat, w: nat)
    ensures
        bin_str(v, w).len() == w,
    decreases w,
{
    if w > 0 {
        lemma_bin_str_len(v / 2, (w - 1) as nat);
    }
}

pub proof fn lemma_bits_val_bound(s: Seq<u8>)
    requires
        bits_wf(s),
    ensures
        bits_val(s) < pow2(s.len() as nat),
    decreases s.len(),
{
    if s.len() == 0 {
        assert(pow2(0) == 1) by { vstd::arithmetic::power2::lemma2_to64(); };
    } else {
        assert(bits_wf(s.drop_last()));
        lemma_bits_val_bound(s.drop_last());
        lemma_pow2_unfold(s.len() as nat);
    }
}

pub proof fn lemma_bits_val_split(s: Seq<u8>, n: int)
    requires
        0 <= n <= s.len(),
    ensures
        bits_val(s) == bits_val(s.take(n)) * pow2((s.len() - n) as nat) + bits_val(s.skip(n)),
    decreases s.len(),
{
    if n == s.len() {
        assert(s.take(n) =~= s);
        assert(s.skip(n) =~= Seq::<u8>::empty());
        assert(pow2(0) == 1) by { vstd::arithmetic::power2::lemma2_to64(); };
        assert(bits_val(Seq::<u8>::empty()) == 0);
        assert(bits_val(s.take(n)) * 1 == bits_val(s.take(n))) by (nonlinear_arith);
    } else {
        lemma_bits_val_split(s.drop_last(), n);
        assert(s.drop_last().take(n) =~= s.take(n));
        assert(s.skip(n).drop_last() =~= s.drop_last().skip(n));
        assert(s.skip(n).last() == s.last());
        let p = pow2((s.len() - 1 - n) as nat);
        lemma_pow2_unfold((s.len() - n) as nat);
        assert(pow2((s.len() - n) as nat) == 2 * p);
        let a = bits_val(s.take(n));
        assert(s.skip(n).len() > 0);
        assert(bits_val(s.skip(n)) == 2 * bits_val(s.drop_last().skip(n)) + bit_int(s.last()));
        assert(bits_val(s.drop_last()) == a * p + bits_val(s.drop_last().skip(n)));
        assert(bits_val(s) == 2 * (a * p + bits_val(s.drop_last().skip(n))) + bit_int(s.last()));
        assert(2 * (a * p) == a * (2 * p)) by (nonlinear_arith);
        assert(bits_val(s) == a * (2 * p) + bits_val(s.skip(n)));
    }
}

pub proof fn lemma_bits_val_zeros(s: Seq<u8>)
    requires
        forall|i: int| 0 <= i < s.len() ==> (#[trigger] s[i]) == 0,
    ensures
        bits_val(s) == 0,
    decreases s.len(),
{
    if s.len() > 0 {
        lemma_bits_val_zeros(s.drop_last());
    }
}

pub proof fn lemma_bits_val_ones(s: Seq<u8>)
    requires
        forall|i: int| 0 <= i < s.len() ==> (#[trigger] s[i]) == 1,
    ensures
        bits_val(s) == pow2(s.len() as nat) - 1,
    decreases s.len(),
{
    if s.len() == 0 {
        assert(pow2(0) == 1) by { vstd::arithmetic::power2::lemma2_to64(); };
    } else {
        lemma_bits_val_ones(s.drop_last());
        lemma_pow2_unfold(s.len() as nat);
    }
}

pub proof fn lemma_halving(a: nat, b: nat)
    requires
        b < 2,
    ensures
        (2 * a + b) / 2 == a,
        (2 * a + b) % 2 == b,
{
    lemma_fundamental_div_mod_converse((2 * a + b) as int, 2, a as int, b as int);
}

/// The characters of a bit sequence are its value rendered at its width.
pub proof fn lemma_bit_chars_bin_str(s: Seq<u8>)
    requires
        bits_wf(s),
    ensures
        bit_chars(s) == bin_str(bits_val(s), s.len() as nat),
    decreases s.len(),
{
    if s.len() == 0 {
        assert(bit_chars(s) =~= bin_str(bits_val(s), 0));
    } else {
        assert(bits_wf(s.drop_last()));
        lemma_bit_chars_bin_str(s.drop_last());
        let v = bits_val(s);
        let a = bits_val(s.drop_last());
        let b = bit_int(s.last());
        lemma_halving(a, b as nat);
        assert(v / 2 == a && v % 2 == b);
        assert(bit_chars(s) =~= bit_chars(s.drop_last()).push(
            if s.last() == 1 {
                '1'
            } else {
                '0'
            },
        ));
    }
}

/// Rendering at width `w` keeps every value below `pow2(w)`.
pub proof fn lemma_char_val_bin_str(v: nat, w: nat)
    requires
        v < pow2(w),
    ensures
        char_val(bin_str(v, w)) == v,
    decreases w,
{
    if w == 0 {
        assert(pow2(0) == 1) by { vstd::arithmetic::power2::lemma2_to64(); };
    } else {
        lemma_pow2_unfold(w);
        lemma_fundamental_div_mod(v as int, 2);
        assert(v / 2 < pow2((w - 1) as nat));
        lemma_char_val_bin_str(v / 2, (w - 1) as nat);
        lemma_bin_str_len(v / 2, (w - 1) as nat);
        let s = bin_str(v, w);
        assert(s.drop_last() =~= bin_str(v / 2, (w - 1) as nat));
    }
}

/// Two distinct values below `pow2(w)` render differently.
pub proof fn lemma_bin_str_injective(v1: nat, v2: nat, w: nat)
    requires
        v1 < pow2(w),
        v2 < pow2(w),
        v1 != v2,
    ensures
        bin_str(v1, w) != bin_str(v2, w),
{
    lemma_char_val_bin_str(v1, w);
    lemma_char_val_bin_str(v2, w);
}

/// The first `w` characters of a `w2`-bit rendering are the rendering of
/// the value shifted right by `w2 - w` bits.
pub proof fn lemma_bin_str_prefix(v: nat, w: nat, w2: nat)
    requires
        w <= w2,
    ensures
        bin_str(v, w2).take(w as int) == bin_str(v / pow2((w2 - w) as nat), w),
    decreases w2 - w,
{
    lemma_bin_str_len(v, w2);
    if w == w2 {
        assert(bin_str(v, w2).take(w as int) =~= bin_str(v, w2));
        assert(pow2(0) == 1) by { vstd::arithmetic::power2::lemma2_to64(); };
        lemma_fundamental_div_mod_converse(v as int, 1, v as int, 0);
    } else {
        let d = (w2 - w) as nat;
        lemma_bin_str_len(v / 2, (w2 - 1) as nat);
        assert(bin_str(v, w2).take(w as int) =~= bin_str(v / 2, (w2 - 1) as nat).take(w as int));
        lemma_bin_str_prefix(v / 2, w, (w2 - 1) as nat);
        lemma_pow2_unfold(d);
        lemma_pow2_pos((d - 1) as nat);
        vstd::arithmetic::div_mod::lemma_div_denominator(v as int, 2, pow2((d - 1) as nat) as int);
        assert((v as int / 2) / (pow2((d - 1) as nat) as int) == v as int / (2 * (pow2(
            (d - 1) as nat,
        ) as int)));
    }
}

/// Advances a binary counter by one, keeping its width; a counter of all
/// ones wraps around to zero.
pub fn incr_bits(bits: &mut Vec<u8>)
    requires
        bits_wf(old(bits)@),
    ensures
        bits_wf(final(bits)@),
        final(bits)@.len() == old(bits)@.len(),
        bits_val(old(bits)@) + 1 < pow2(old(bits)@.len() as nat) ==> bits_val(final(bits)@)
            == bits_val(old(bits)@) + 1,
        bits_val(old(bits)@) + 1 == pow2(old(bits)@.len() as nat) ==> bits_val(final(bits)@) == 0,
{
    let ghost orig = bits@;
    let n = bits.len();
    let mut j = n;
    loop
        invariant_except_break
            forall|k: int| 0 <= k < j ==> bits@[k] == orig[k],
            forall|k: int| j <= k < n ==> orig[k] == 1 && bits@[k] == 0,
        invariant
            bits@.len() == n,
            n == orig.len(),
            0 <= j <= n,
            bits_wf(orig),
            bits_wf(bits@),
        ensures
            bits@.len() == n,
            bits_wf(bits@),
            0 <= j <= n,
            j == 0 ==> forall|k: int| 0 <= k < n ==> orig[k] == 1 && bits@[k] == 0,
            j > 0 ==> orig[j - 1] == 0 && bits@[j - 1] == 1 && (forall|k: int|
                0 <= k < j - 1 ==> bits@[k] == orig[k]) && (forall|k: int|
                j <= k < n ==> orig[k] == 1 && bits@[k] == 0),
        decreases j,
    {
        if j == 0 {
            break ;
        }
        if bits[j - 1] == 1 {
            bits[j - 1] = 0;
            j = j - 1;
        } else {
            bits[j - 1] = 1;
            break ;
        }
    }
    proof {
        if j == 0 {
            lemma_bits_val_ones(orig);
            assert forall|k: int| 0 <= k < bits@.len() implies (#[trigger] bits@[k]) == 0 by {
                assert(orig[k] == 1);
            };
            lemma_bits_val_zeros(bits@);
        } else {
            lemma_bits_val_bound(bits@);
            let cur = bits@;
            lemma_bits_val_split(orig, j - 1);
            lemma_bits_val_split(cur, j - 1);
            assert(cur.take(j - 1) =~= orig.take(j - 1));
            lemma_bits_val_split(orig.skip(j - 1), 1);
            lemma_bits_val_split(cur.skip(j - 1), 1);
            assert(orig.skip(j - 1).take(1) =~= seq![orig[j - 1]]);
            assert(cur.skip(j - 1).take(1) =~= seq![cur[j - 1]]);
            assert(orig.skip(j - 1).skip(1) =~= orig.skip(j as int));
            assert(cur.skip(j - 1).skip(1) =~= cur.skip(j as int));
            assert forall|k: int|
                0 <= k < orig.skip(j as int).len() implies (#[trigger] orig.skip(j as int)[k])
                == 1 by {
                assert(orig[j + k] == 1);
            };
            assert forall|k: int|
                0 <= k < cur.skip(j as int).len() implies (#[trigger] cur.skip(j as int)[k])
                == 0 by {
                assert(orig[j + k] == 1);
                assert(cur[j + k] == 0);
            };
            lemma_bits_val_ones(orig.skip(j as int));
            lemma_bits_val_zeros(cur.skip(j as int));
            assert(bits_val(seq![orig[j - 1]]) == 0) by {
                assert(seq![orig[j - 1]].drop_last() =~= Seq::<u8>::empty());
                assert(bits_val(Seq::<u8>::empty()) == 0);
                assert(seq![orig[j - 1]].last() == orig[j - 1]);
                assert(orig[j - 1] == 0);
            };
            assert(bits_val(seq![cur[j - 1]]) == 1) by {
                assert(seq![cur[j - 1]].drop_last() =~= Seq::<u8>::empty());
                assert(bits_val(Seq::<u8>::empty()) == 0);
                assert(seq![cur[j - 1]].last() == cur[j - 1]);
                assert(cur[j - 1] == 1);
            };
            let p = pow2((n - j) as nat);
            lemma_pow2_pos((n - j) as nat);
            assert(bits_val(orig.skip(j - 1)) == 0 * p + (p - 1));
            assert(bits_val(cur.skip(j - 1)) == 1 * p + 0);
        }
    }
}

/// Renders the counter as a string of '0' and '1', most significant first.
pub fn bits_to_string(bits: &Vec<u8>) -> (r: String)
    requires
        bits_wf(bits@),
    ensures
        r@ == bin_str(bits_val(bits@), bits@.len() as nat),
{
    let mut s = String::new();
    let n = bits.len();
    for k in 0..n
        invariant
            n == bits@.len(),
            bits_wf(bits@),
            s@ == bit_chars(bits@.take(k as int)),
    {
        if bits[k] == 1 {
            s.append("1");
            proof {
                reveal_strlit("1");
                assert(s@ =~= bit_chars(bits@.take(k + 1)));
            }
        } else {
            s.append("0");
            proof {
                reveal_strlit("0");
                assert(s@ =~= bit_chars(bits@.take(k + 1)));
            }
        }
    }
    proof {
        assert(bits@.take(n as int) =~= bits@);
        lemma_bit_chars_bin_str(bits@);
    }
    s
}

} // verus!
