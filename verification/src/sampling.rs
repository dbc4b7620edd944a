//! Thinning a long list by a fixed stride.
//!
//! A corpus file is written in fetch order, so a prefix of it would be one day
//! on one band; a fixed stride over the whole file keeps the band, hour and day
//! balance the corpus was built to have.
use vstd::prelude::*;

verus! {

/// Every `stride`-th element of `s`, starting with the first.
pub open spec fn strided<T>(s: Seq<T>, stride: int) -> Seq<T> {
    Seq::new(((s.len() + stride - 1) / stride) as nat, |k: int| s[k * stride])
}

/// The stride that brings `len` items down to at most `max`.
pub open spec fn cap_stride(len: int, max: int) -> int {
    (len + max - 1) / max
}

/// What thinning `s` to at most `max` items keeps: everything when it
/// already fits (or when `max` is 0, meaning no cap), else every
/// `cap_stride`-th item.
pub open spec fn thinned<T>(s: Seq<T>, max: int) -> Seq<T> {
    if max == 0 || s.len() <= max {
        s
    } else {
        strided(s, cap_stride(s.len() as int, max))
    }
}

/// One more item extends the strided prefix exactly when it falls on the
/// stride.
proof fn lemma_strided_step<T>(s: Seq<T>, i: int, stride: int)
    requires
        0 <= i < s.len(),
        stride >= 1,
    ensures
        strided(s.take(i + 1), stride) == if i % stride == 0 {
            strided(s.take(i), stride).push(s[i])
        } else {
            strided(s.take(i), stride)
        },
{
    let a = (i + stride - 1) / stride;
    let b = (i + 1 + stride - 1) / stride;
    vstd::arithmetic::div_mod::lemma_fundamental_div_mod(i, stride);
    let q = i / stride;
    let r = i % stride;
    if r == 0 {
        assert(i == stride * q);
        assert((stride * q + stride - 1) / stride == q) by {
            vstd::arithmetic::div_mod::lemma_div_multiples_vanish_fancy(q, stride - 1, stride);
        }
        assert((stride * q + stride) / stride == q + 1) by {
            vstd::arithmetic::div_mod::lemma_div_multiples_vanish_fancy(q + 1, 0, stride);
            vstd::arithmetic::mul::lemma_mul_is_distributive_add(stride, q, 1);
        }
        assert(a == q && b == q + 1);
        assert(q * stride == i) by {
            vstd::arithmetic::mul::lemma_mul_is_commutative(q, stride);
        }
        assert forall|k: int| 0 <= k < q implies #[trigger] strided(s.take(i + 1), stride)[k]
            == strided(s.take(i), stride)[k] by {
            vstd::arithmetic::mul::lemma_mul_strict_inequality(k, q, stride);
            vstd::arithmetic::mul::lemma_mul_is_commutative(q, stride);
            assert(k * stride < i);
        }
        assert(strided(s.take(i + 1), stride) =~= strided(s.take(i), stride).push(s[i]));
    } else {
        assert((stride * (q + 1) + (r - 1)) / stride == q + 1) by {
            vstd::arithmetic::div_mod::lemma_div_multiples_vanish_fancy(q + 1, r - 1, stride);
        }
        assert((stride * (q + 1) + r) / stride == q + 1) by {
            vstd::arithmetic::div_mod::lemma_div_multiples_vanish_fancy(q + 1, r, stride);
        }
        assert(i + stride - 1 == stride * (q + 1) + (r - 1)) by {
            vstd::arithmetic::mul::lemma_mul_is_distributive_add(stride, q, 1);
        }
        assert(a == b);
        assert forall|k: int| 0 <= k < a implies #[trigger] strided(s.take(i + 1), stride)[k]
            == strided(s.take(i), stride)[k] by {
            assert(k <= q);
            vstd::arithmetic::mul::lemma_mul_inequality(k, q, stride);
            vstd::arithmetic::mul::lemma_mul_is_commutative(q, stride);
            assert(k * stride < i);
        }
        assert(strided(s.take(i + 1), stride) =~= strided(s.take(i), stride));
    }
}

/// Every `stride`-th item of `items`, in order, starting with the first.
pub fn every_nth<T>(items: Vec<T>, stride: usize) -> (r: Vec<T>)
    requires
        stride >= 1,
    ensures
        r@ == strided(items@, stride as int),
{
    let ghost all = items@;
    let n = items.len();
    let mut rest = items;
    let mut reversed: Vec<T> = Vec::new();
    while rest.len() > 0
        invariant
            all.len() == n,
            rest@.len() <= n,
            rest@ == all.take(rest@.len() as int),
            reversed@ == all.skip(rest@.len() as int).reverse(),
        decreases rest@.len(),
    {
        let ghost before = rest@.len() as int;
        let x = rest.pop().unwrap();
        assert(x == all[before - 1]);
        reversed.push(x);
        assert(rest@ =~= all.take(before - 1));
        assert(reversed@ =~= all.skip(before - 1).reverse());
    }
    let mut out: Vec<T> = Vec::new();
    let mut i: usize = 0;
    assert(all.take(0) =~= Seq::<T>::empty());
    assert((stride - 1) / (stride as int) == 0) by {
        vstd::arithmetic::div_mod::lemma_basic_div(stride - 1, stride as int);
    }
    assert(strided(all.take(0), stride as int) =~= Seq::<T>::empty());
    while reversed.len() > 0
        invariant
            all.len() == n,
            stride >= 1,
            i + reversed@.len() == n,
            reversed@ == all.skip(i as int).reverse(),
            out@ == strided(all.take(i as int), stride as int),
        decreases reversed@.len(),
    {
        let x = reversed.pop().unwrap();
        assert(x == all[i as int]);
        proof {
            lemma_strided_step(all, i as int, stride as int);
        }
        if i % stride == 0 {
            out.push(x);
        }
        i += 1;
        assert(reversed@ =~= all.skip(i as int).reverse());
    }
    assert(all.take(n as int) =~= all);
    out
}

/// `items` thinned to at most `max` by a fixed stride over the whole list,
/// so that the mix of the list is kept; a `max` of 0 means no cap.
pub fn thin_to_cap<T>(items: Vec<T>, max: usize) -> (r: Vec<T>)
    ensures
        r@ == thinned(items@, max as int),
{
    let n = items.len();
    if max == 0 || n <= max {
        return items;
    }
    assert(n / max >= 1) by {
        vstd::arithmetic::div_mod::lemma_div_is_ordered(max as int, n as int, max as int);
        vstd::arithmetic::div_mod::lemma_div_by_self(max as int);
    }
    assert(n % max != 0 ==> n / max < usize::MAX) by {
        if n % max != 0 {
            assert(max >= 2);
            vstd::arithmetic::div_mod::lemma_div_is_ordered_by_denominator(n as int, 2, max as int);
        }
    }
    let stride = n / max + if n % max == 0 {
        0
    } else {
        1
    };
    assert(stride == cap_stride(n as int, max as int)) by {
        vstd::arithmetic::div_mod::lemma_fundamental_div_mod(n as int, max as int);
        let q = n as int / max as int;
        let r = n as int % max as int;
        if r == 0 {
            vstd::arithmetic::div_mod::lemma_div_multiples_vanish_fancy(q, max - 1, max as int);
        } else {
            vstd::arithmetic::div_mod::lemma_div_multiples_vanish_fancy(q + 1, r - 1, max as int);
            vstd::arithmetic::mul::lemma_mul_is_distributive_add(max as int, q, 1);
        }
    }
    every_nth(items, stride)
}

/// Thinning keeps at most `max` items, in the order they came in, a fixed
/// stride apart.
pub proof fn law_thinning_respects_the_cap<T>(s: Seq<T>, max: int)
    requires
        max >= 1,
    ensures
        thinned(s, max).len() <= max,
        s.len() > max ==> forall|k: int|
            0 <= k < thinned(s, max).len() ==> #[trigger] thinned(s, max)[k] == s[k
                * cap_stride(s.len() as int, max)],
{
    if s.len() > max {
        let len = s.len() as int;
        let stride = cap_stride(len, max);
        assert(stride >= 1) by {
            vstd::arithmetic::div_mod::lemma_div_is_ordered(max, len + max - 1, max);
            vstd::arithmetic::div_mod::lemma_div_by_self(max);
        }
        // stride * max >= len, so ceil(len / stride) <= max.
        vstd::arithmetic::div_mod::lemma_fundamental_div_mod(len + max - 1, max);
        assert(stride * max >= len) by (nonlinear_arith)
            requires
                len + max - 1 == max * stride + (len + max - 1) % max,
                (len + max - 1) % max < max,
        ;
        assert((len + stride - 1) / stride <= max) by {
            vstd::arithmetic::div_mod::lemma_div_is_ordered(
                len + stride - 1,
                max * stride + stride - 1,
                stride,
            );
            vstd::arithmetic::div_mod::lemma_div_multiples_vanish_fancy(max, stride - 1, stride);
            vstd::arithmetic::mul::lemma_mul_is_commutative(max, stride);
        }
    }
}

} // verus!
