//! What a corpus actually contains, as opposed to what was asked for: how
//! many different station pairs it holds, how many of them were heard both
//! ways, how many transmissions several receivers heard, and how its spots
//! spread over hours, days and bands.
//!
//! A key here is a row of text fields (a pair of calls, a cycle and a call,
//! and so on); two keys are the same when every field is.
use vstd::prelude::*;

use crate::census::{
    lemma_sorted_lists_agree, lemma_text_lt_irreflexive, lemma_text_lt_total, lemma_text_lt_transitive,
    text_less, text_lt,
};
use crate::stations::distinct_values;

verus! {

/// The fields of one key, as text.
pub open spec fn key_text(k: Vec<String>) -> Seq<Seq<char>> {
    k@.map_values(|f: String| f@)
}

/// Every key of a list, as text.
pub open spec fn keys_text(ks: Seq<Vec<String>>) -> Seq<Seq<Seq<char>>> {
    ks.map_values(|k: Vec<String>| key_text(k))
}

/// How many times `k` occurs in `s`.
pub open spec fn occurrences<K>(s: Seq<K>, k: K) -> nat
    decreases s.len(),
{
    if s.len() == 0 {
        0
    } else {
        occurrences(s.drop_last(), k) + if s.last() == k {
            1nat
        } else {
            0nat
        }
    }
}

/// How many different values of `s` satisfy `p`.
pub open spec fn distinct_where<K>(s: Seq<K>, p: spec_fn(K) -> bool) -> nat
    decreases s.len(),
{
    if s.len() == 0 {
        0
    } else {
        distinct_where(s.drop_last(), p) + if p(s.last()) && !s.drop_last().contains(s.last()) {
            1nat
        } else {
            0nat
        }
    }
}

/// A value occurs in `s` exactly when `s` contains it.
pub proof fn lemma_occurrences_contains<K>(s: Seq<K>, k: K)
    ensures
        occurrences(s, k) > 0 <==> s.contains(k),
        occurrences(s, k) <= s.len(),
    decreases s.len(),
{
    if s.len() > 0 {
        let d = s.drop_last();
        lemma_occurrences_contains(d, k);
        if d.contains(k) {
            let j = choose|j: int| 0 <= j < d.len() && d[j] == k;
            assert(s[j] == k);
        }
        if s.contains(k) && s.last() != k {
            let j = choose|j: int| 0 <= j < s.len() && s[j] == k;
            assert(d[j] == k);
        }
    }
}

/// Are two keys the same, field by field?
fn same_key(a: &Vec<String>, b: &Vec<String>) -> (r: bool)
    ensures
        r == (key_text(*a) == key_text(*b)),
{
    if a.len() != b.len() {
        assert(key_text(*a).len() != key_text(*b).len());
        return false;
    }
    let mut i: usize = 0;
    while i < a.len()
        invariant
            a@.len() == b@.len(),
            i <= a@.len(),
            forall|j: int| 0 <= j < i ==> a@[j]@ == b@[j]@,
        decreases a@.len() - i,
    {
        if a[i] != b[i] {
            assert(key_text(*a)[i as int] != key_text(*b)[i as int]);
            return false;
        }
        i += 1;
    }
    assert(key_text(*a) =~= key_text(*b));
    true
}

/// Does a key before `end` equal key `i`?
fn key_seen_before(keys: &Vec<Vec<String>>, end: usize, i: usize) -> (r: bool)
    requires
        end <= keys@.len(),
        i < keys@.len(),
    ensures
        r == keys_text(keys@).take(end as int).contains(keys_text(keys@)[i as int]),
{
    let ghost kt = keys_text(keys@);
    let mut j: usize = 0;
    while j < end
        invariant
            kt == keys_text(keys@),
            j <= end <= keys@.len(),
            i < keys@.len(),
            forall|m: int| 0 <= m < j ==> kt[m] != kt[i as int],
        decreases end - j,
    {
        if same_key(&keys[j], &keys[i]) {
            assert(kt.take(end as int)[j as int] == kt[i as int]);
            return true;
        }
        j += 1;
    }
    assert forall|m: int| 0 <= m < end implies kt.take(end as int)[m] != kt[i as int] by {
        assert(kt.take(end as int)[m] == kt[m]);
    }
    false
}

/// How many different keys of `keys` have their flag set, where a key's
/// flag is `p` of it.
fn count_distinct_flagged(
    keys: &Vec<Vec<String>>,
    flags: &Vec<bool>,
    Ghost(p): Ghost<spec_fn(Seq<Seq<char>>) -> bool>,
) -> (r: usize)
    requires
        flags@.len() == keys@.len(),
        forall|i: int| 0 <= i < keys@.len() ==> #[trigger] flags@[i] == p(keys_text(keys@)[i]),
    ensures
        r == distinct_where(keys_text(keys@), p),
{
    let ghost kt = keys_text(keys@);
    let n = keys.len();
    let mut count: usize = 0;
    let mut i: usize = 0;
    assert(kt.take(0) =~= Seq::<Seq<Seq<char>>>::empty());
    while i < n
        invariant
            kt == keys_text(keys@),
            n == keys@.len(),
            flags@.len() == n,
            forall|i: int| 0 <= i < keys@.len() ==> #[trigger] flags@[i] == p(kt[i]),
            i <= n,
            count == distinct_where(kt.take(i as int), p),
            count <= i,
        decreases n - i,
    {
        let seen = key_seen_before(keys, i, i);
        let ghost prefix = kt.take(i as int + 1);
        assert(prefix.drop_last() =~= kt.take(i as int));
        assert(prefix.last() == kt[i as int]);
        if flags[i] && !seen {
            count += 1;
        }
        i += 1;
    }
    assert(kt.take(n as int) =~= kt);
    count
}

/// How many different keys `keys` holds.
pub fn distinct_keys(keys: &Vec<Vec<String>>) -> (r: usize)
    ensures
        r == distinct_where(keys_text(keys@), |k: Seq<Seq<char>>| true),
{
    let mut flags: Vec<bool> = Vec::new();
    let mut i: usize = 0;
    while i < keys.len()
        invariant
            i <= keys@.len(),
            flags@.len() == i,
            forall|j: int| 0 <= j < i ==> #[trigger] flags@[j] == true,
        decreases keys@.len() - i,
    {
        flags.push(true);
        i += 1;
    }
    count_distinct_flagged(keys, &flags, Ghost(|k: Seq<Seq<char>>| true))
}

/// How many times key `i` occurs in `keys`.
fn occurrences_of(keys: &Vec<Vec<String>>, i: usize) -> (r: usize)
    requires
        i < keys@.len(),
    ensures
        r == occurrences(keys_text(keys@), keys_text(keys@)[i as int]),
{
    let ghost kt = keys_text(keys@);
    let ghost k = kt[i as int];
    let mut count: usize = 0;
    let mut j: usize = 0;
    assert(kt.take(0) =~= Seq::<Seq<Seq<char>>>::empty());
    while j < keys.len()
        invariant
            kt == keys_text(keys@),
            k == kt[i as int],
            i < keys@.len(),
            j <= keys@.len(),
            count == occurrences(kt.take(j as int), k),
            count <= j,
        decreases keys@.len() - j,
    {
        let ghost prefix = kt.take(j as int + 1);
        assert(prefix.drop_last() =~= kt.take(j as int));
        assert(prefix.last() == kt[j as int]);
        if same_key(&keys[j], &keys[i]) {
            count += 1;
        }
        j += 1;
    }
    assert(kt.take(keys@.len() as int) =~= kt);
    count
}

/// How many different keys occur more than once: with keys of cycle and
/// transmitter, the transmissions that several receivers heard; with keys
/// of transmitter, receiver and cycle, the pairs heard on several bands in
/// one cycle.
pub fn repeated_keys(keys: &Vec<Vec<String>>) -> (r: usize)
    ensures
        r == distinct_where(
            keys_text(keys@),
            |k: Seq<Seq<char>>| occurrences(keys_text(keys@), k) > 1,
        ),
{
    let ghost kt = keys_text(keys@);
    let mut flags: Vec<bool> = Vec::new();
    let mut i: usize = 0;
    while i < keys.len()
        invariant
            kt == keys_text(keys@),
            i <= keys@.len(),
            flags@.len() == i,
            forall|j: int| 0 <= j < i ==> #[trigger] flags@[j] == (occurrences(kt, kt[j]) > 1),
        decreases keys@.len() - i,
    {
        let n = occurrences_of(keys, i);
        flags.push(n > 1);
        i += 1;
    }
    count_distinct_flagged(keys, &flags, Ghost(|k: Seq<Seq<char>>| occurrences(kt, k) > 1))
}

/// The fields of a key in reverse order.
fn reversed_key(k: &Vec<String>) -> (r: Vec<String>)
    ensures
        key_text(r) == key_text(*k).reverse(),
{
    let mut out: Vec<String> = Vec::new();
    let mut i: usize = k.len();
    while i > 0
        invariant
            i <= k@.len(),
            key_text(out) == key_text(*k).skip(i as int).reverse(),
        decreases i,
    {
        i -= 1;
        let ghost before = key_text(out);
        out.push(k[i].clone());
        assert(key_text(out) =~= before.push(key_text(*k)[i as int]));
        assert(key_text(*k).skip(i as int).reverse() =~= key_text(*k).skip(i + 1).reverse().push(
            key_text(*k)[i as int],
        ));
    }
    assert(key_text(*k).skip(0) =~= key_text(*k));
    out
}

/// Is `k` one of `keys`?
fn key_present(keys: &Vec<Vec<String>>, k: &Vec<String>) -> (r: bool)
    ensures
        r == keys_text(keys@).contains(key_text(*k)),
{
    let ghost kt = keys_text(keys@);
    let mut j: usize = 0;
    while j < keys.len()
        invariant
            kt == keys_text(keys@),
            j <= keys@.len(),
            forall|m: int| 0 <= m < j ==> kt[m] != key_text(*k),
        decreases keys@.len() - j,
    {
        if same_key(&keys[j], k) {
            assert(kt[j as int] == key_text(*k));
            return true;
        }
        j += 1;
    }
    false
}

/// How many different keys are heard the other way round too: with keys of
/// transmitter and receiver, the pairs where A hears B and B hears A.
pub fn reciprocal_keys(keys: &Vec<Vec<String>>) -> (r: usize)
    ensures
        r == distinct_where(
            keys_text(keys@),
            |k: Seq<Seq<char>>| keys_text(keys@).contains(k.reverse()),
        ),
{
    let ghost kt = keys_text(keys@);
    let mut flags: Vec<bool> = Vec::new();
    let mut i: usize = 0;
    while i < keys.len()
        invariant
            kt == keys_text(keys@),
            i <= keys@.len(),
            flags@.len() == i,
            forall|j: int| 0 <= j < i ==> #[trigger] flags@[j] == kt.contains(kt[j].reverse()),
        decreases keys@.len() - i,
    {
        let rev = reversed_key(&keys[i]);
        let there = key_present(keys, &rev);
        flags.push(there);
        i += 1;
    }
    count_distinct_flagged(keys, &flags, Ghost(|k: Seq<Seq<char>>| kt.contains(k.reverse())))
}

// ---------------------------------------------------------------------------
// Tallies.
// ---------------------------------------------------------------------------

/// `t` tallies `s`: each different value of `s` once, in increasing
/// order, with how many times it occurs.
pub open spec fn is_tally(s: Seq<u128>, t: Seq<(u128, usize)>) -> bool {
    &&& forall|a: int, b: int| 0 <= a < b < t.len() ==> (#[trigger] t[a]).0 < (#[trigger] t[b]).0
    &&& forall|k: int| 0 <= k < t.len() ==> (#[trigger] t[k]).1 == occurrences(s, t[k].0) && t[k].1 > 0
    &&& forall|i: int| 0 <= i < s.len() ==> #[trigger] tallied(t, s[i])
}

/// Some entry of `t` is for `x`.
pub open spec fn tallied(t: Seq<(u128, usize)>, x: u128) -> bool {
    exists|k: int| 0 <= k < t.len() && (#[trigger] t[k]).0 == x
}

/// Where `x` goes in the tally: after every entry below it.
fn tally_position(t: &Vec<(u128, usize)>, x: u128) -> (p: usize)
    ensures
        p <= t@.len(),
        forall|q: int| 0 <= q < p ==> (#[trigger] t@[q]).0 < x,
        p < t@.len() ==> t@[p as int].0 >= x,
{
    let mut p: usize = 0;
    while p < t.len()
        invariant
            p <= t@.len(),
            forall|q: int| 0 <= q < p ==> (#[trigger] t@[q]).0 < x,
        decreases t@.len() - p,
    {
        if t[p].0 >= x {
            return p;
        }
        p += 1;
    }
    p
}

/// One more occurrence of a value the tally already has.
proof fn lemma_tally_again(s: Seq<u128>, t: Seq<(u128, usize)>, i: int, p: int)
    requires
        0 <= i < s.len(),
        is_tally(s.take(i), t),
        0 <= p < t.len(),
        t[p].0 == s[i],
        t[p].1 < usize::MAX,
    ensures
        is_tally(s.take(i + 1), t.update(p, (s[i], (t[p].1 + 1) as usize))),
{
    let x = s[i];
    let before = s.take(i);
    let now = s.take(i + 1);
    let t2 = t.update(p, (x, (t[p].1 + 1) as usize));
    assert(now.drop_last() =~= before);
    assert forall|k: int| 0 <= k < t2.len() implies (#[trigger] t2[k]).1 == occurrences(now, t2[k].0)
        && t2[k].1 > 0 by {
        if k != p {
            assert(t2[k] == t[k]);
            if k < p {
                assert(t[k].0 < t[p].0);
            } else {
                assert(t[p].0 < t[k].0);
            }
        }
    }
    assert forall|j: int| 0 <= j < now.len() implies #[trigger] tallied(t2, now[j]) by {
        if j < i {
            assert(now[j] == before[j]);
            assert(tallied(t, before[j]));
            let k = choose|k: int| 0 <= k < t.len() && (#[trigger] t[k]).0 == before[j];
            assert(t2[k].0 == t[k].0);
        } else {
            assert(t2[p].0 == x);
        }
    }
}

/// The first occurrence of a value the tally does not have yet.
proof fn lemma_tally_new(s: Seq<u128>, t: Seq<(u128, usize)>, i: int, p: int)
    requires
        0 <= i < s.len(),
        is_tally(s.take(i), t),
        0 <= p <= t.len(),
        forall|q: int| 0 <= q < p ==> (#[trigger] t[q]).0 < s[i],
        p < t.len() ==> t[p].0 > s[i],
    ensures
        is_tally(s.take(i + 1), t.insert(p, (s[i], 1usize))),
{
    let x = s[i];
    let before = s.take(i);
    let now = s.take(i + 1);
    let t2 = t.insert(p, (x, 1usize));
    assert(now.drop_last() =~= before);
    assert forall|q: int| p <= q < t.len() implies x < (#[trigger] t[q]).0 by {
        if q > p {
            assert(t[p].0 < t[q].0);
        }
    }
    // `x` is new: nothing before it was `x`.
    if before.contains(x) {
        let j = choose|j: int| 0 <= j < before.len() && before[j] == x;
        assert(tallied(t, before[j]));
        let k = choose|k: int| 0 <= k < t.len() && (#[trigger] t[k]).0 == before[j];
        if k < p {
            assert(t[k].0 < x);
        } else {
            assert(x < t[k].0);
        }
    }
    lemma_occurrences_contains(before, x);
    assert forall|a: int, b: int| 0 <= a < b < t2.len() implies (#[trigger] t2[a]).0 < (
    #[trigger] t2[b]).0 by {
        if b < p {
            assert(t2[a] == t[a] && t2[b] == t[b]);
        } else if b == p {
            assert(t2[a] == t[a]);
        } else if a < p {
            assert(t2[a] == t[a] && t2[b] == t[b - 1]);
        } else if a == p {
            assert(t2[b] == t[b - 1]);
        } else {
            assert(t2[a] == t[a - 1] && t2[b] == t[b - 1]);
        }
    }
    assert forall|k: int| 0 <= k < t2.len() implies (#[trigger] t2[k]).1 == occurrences(now, t2[k].0)
        && t2[k].1 > 0 by {
        if k < p {
            assert(t2[k] == t[k]);
        } else if k > p {
            assert(t2[k] == t[k - 1]);
        }
    }
    assert forall|j: int| 0 <= j < now.len() implies #[trigger] tallied(t2, now[j]) by {
        if j < i {
            assert(now[j] == before[j]);
            assert(tallied(t, before[j]));
            let k = choose|k: int| 0 <= k < t.len() && (#[trigger] t[k]).0 == before[j];
            if k < p {
                assert(t2[k] == t[k]);
            } else {
                assert(t2[k + 1] == t[k]);
            }
        } else {
            assert(t2[p].0 == x);
        }
    }
}

/// Each different value of `keys` once, in increasing order, with how many
/// times it occurs.
pub fn count_by_key(keys: &Vec<u128>) -> (r: Vec<(u128, usize)>)
    ensures
        is_tally(keys@, r@),
{
    let mut t: Vec<(u128, usize)> = Vec::new();
    let mut i: usize = 0;
    assert(keys@.take(0) =~= Seq::<u128>::empty());
    while i < keys.len()
        invariant
            i <= keys@.len(),
            is_tally(keys@.take(i as int), t@),
            forall|k: int| 0 <= k < t@.len() ==> (#[trigger] t@[k]).1 <= i,
        decreases keys@.len() - i,
    {
        let x = keys[i];
        let p = tally_position(&t, x);
        proof {
            lemma_occurrences_contains(keys@.take(i as int), x);
        }
        if p < t.len() && t[p].0 == x {
            let c = t[p].1;
            proof {
                assert(c == occurrences(keys@.take(i as int), x));
                assert(keys@[i as int] == x);
                lemma_tally_again(keys@, t@, i as int, p as int);
            }
            t.set(p, (x, c + 1));
            proof {
                assert forall|k: int| 0 <= k < t@.len() implies (#[trigger] t@[k]).1 <= i + 1 by {
                    if k != p {
                        assert(t@[k].1 <= i);
                    }
                }
            }
        } else {
            proof {
                lemma_tally_new(keys@, t@, i as int, p as int);
            }
            t.insert(p, (x, 1));
            proof {
                assert forall|k: int| 0 <= k < t@.len() implies (#[trigger] t@[k]).1 <= i + 1 by {
                }
            }
        }
        i += 1;
    }
    assert(keys@.take(keys@.len() as int) =~= keys@);
    t
}

// ---------------------------------------------------------------------------
// Days as tally keys.
// ---------------------------------------------------------------------------

/// Calendar order of `(year, month, day)`: by year, then month, then day.
pub open spec fn day_before(a: (i32, u32, u32), b: (i32, u32, u32)) -> bool {
    a.0 < b.0 || (a.0 == b.0 && (a.1 < b.1 || (a.1 == b.1 && a.2 < b.2)))
}

/// A number for a day that orders days as the calendar does: the year
/// (moved to be non-negative), the month and the day as three 32-bit digits.
pub open spec fn day_key_of(d: (i32, u32, u32)) -> int {
    (d.0 + 0x8000_0000) * 0x1_0000_0000_0000_0000 + d.1 * 0x1_0000_0000 + d.2
}

/// The tally key of a day.
pub fn day_key(d: (i32, u32, u32)) -> (r: u128)
    ensures
        r == day_key_of(d),
{
    let year = (d.0 as i64 + 0x8000_0000) as u128;
    assert(year * 0x1_0000_0000_0000_0000 + d.1 * 0x1_0000_0000 + d.2 <= u128::MAX) by (nonlinear_arith)
        requires
            year < 0x1_0000_0000,
            d.1 < 0x1_0000_0000,
            d.2 < 0x1_0000_0000,
    ;
    year * 0x1_0000_0000_0000_0000 + d.1 as u128 * 0x1_0000_0000 + d.2 as u128
}

/// Three 32-bit digits: a higher leading digit makes a larger number
/// whatever the lower ones are.
proof fn lemma_digits_ordered(x: int, y: int, lo_x: int, lo_y: int, base: int)
    requires
        base > 0,
        0 <= lo_x < base,
        0 <= lo_y < base,
        x < y,
    ensures
        x * base + lo_x < y * base + lo_y,
{
    assert(x * base + base <= y * base) by (nonlinear_arith)
        requires
            x < y,
            base > 0,
    ;
}

/// Day keys order days as the calendar does, and different days have
/// different keys.
pub proof fn law_day_key_keeps_day_order(a: (i32, u32, u32), b: (i32, u32, u32))
    ensures
        day_before(a, b) <==> day_key_of(a) < day_key_of(b),
        a == b <==> day_key_of(a) == day_key_of(b),
{
    let ya = a.0 + 0x8000_0000;
    let yb = b.0 + 0x8000_0000;
    let la = a.1 * 0x1_0000_0000 + a.2;
    let lb = b.1 * 0x1_0000_0000 + b.2;
    let big: int = 0x1_0000_0000_0000_0000;
    let small: int = 0x1_0000_0000;
    assert(0 <= la < big && 0 <= lb < big) by {
        lemma_digits_ordered(a.1 as int, small, a.2 as int, 0, small);
        lemma_digits_ordered(b.1 as int, small, b.2 as int, 0, small);
    }
    if a.0 != b.0 {
        if a.0 < b.0 {
            lemma_digits_ordered(ya, yb, la, lb, big);
        } else {
            lemma_digits_ordered(yb, ya, lb, la, big);
        }
    } else if a.1 != b.1 {
        if a.1 < b.1 {
            lemma_digits_ordered(a.1 as int, b.1 as int, a.2 as int, b.2 as int, small);
        } else {
            lemma_digits_ordered(b.1 as int, a.1 as int, b.2 as int, a.2 as int, small);
        }
    }
}

// ---------------------------------------------------------------------------
// Tallies of labels.
// ---------------------------------------------------------------------------

/// `t` tallies the labels `s`: each different label once, in text order,
/// with how many times it occurs.
pub open spec fn is_label_tally(s: Seq<Seq<char>>, t: Seq<(String, usize)>) -> bool {
    &&& forall|a: int, b: int|
        0 <= a < b < t.len() ==> text_lt((#[trigger] t[a]).0@, (#[trigger] t[b]).0@)
    &&& forall|k: int|
        0 <= k < t.len() ==> (#[trigger] t[k]).1 == occurrences(s, t[k].0@) && t[k].1 > 0
    &&& forall|i: int| 0 <= i < s.len() ==> #[trigger] label_tallied(t, s[i])
}

/// Some entry of `t` is for the label `x`.
pub open spec fn label_tallied(t: Seq<(String, usize)>, x: Seq<char>) -> bool {
    exists|k: int| 0 <= k < t.len() && (#[trigger] t[k]).0@ == x
}

/// The text of each label.
pub open spec fn labels_text(s: Seq<String>) -> Seq<Seq<char>> {
    s.map_values(|x: String| x@)
}

/// Where the label `x` goes in the tally: after every entry before it.
fn label_position(t: &Vec<(String, usize)>, x: &String) -> (p: usize)
    ensures
        p <= t@.len(),
        forall|q: int| 0 <= q < p ==> text_lt((#[trigger] t@[q]).0@, x@),
        p < t@.len() ==> !text_lt(t@[p as int].0@, x@),
{
    let mut p: usize = 0;
    while p < t.len()
        invariant
            p <= t@.len(),
            forall|q: int| 0 <= q < p ==> text_lt((#[trigger] t@[q]).0@, x@),
        decreases t@.len() - p,
    {
        if !text_less(&t[p].0, x) {
            return p;
        }
        p += 1;
    }
    p
}

/// One more occurrence of a label the tally already has.
proof fn lemma_label_again(s: Seq<Seq<char>>, t: Seq<(String, usize)>, i: int, p: int, e: (String, usize))
    requires
        0 <= i < s.len(),
        is_label_tally(s.take(i), t),
        0 <= p < t.len(),
        t[p].0@ == s[i],
        e.0@ == s[i],
        e.1 == t[p].1 + 1,
    ensures
        is_label_tally(s.take(i + 1), t.update(p, e)),
{
    let x = s[i];
    let before = s.take(i);
    let now = s.take(i + 1);
    let t2 = t.update(p, e);
    assert(now.drop_last() =~= before);
    assert forall|a: int, b: int| 0 <= a < b < t2.len() implies text_lt(
        (#[trigger] t2[a]).0@,
        (#[trigger] t2[b]).0@,
    ) by {
        assert(text_lt(t[a].0@, t[b].0@));
    }
    assert forall|k: int| 0 <= k < t2.len() implies (#[trigger] t2[k]).1 == occurrences(
        now,
        t2[k].0@,
    ) && t2[k].1 > 0 by {
        if k != p {
            assert(t2[k] == t[k]);
            lemma_text_lt_irreflexive(x);
            if k < p {
                assert(text_lt(t[k].0@, t[p].0@));
            } else {
                assert(text_lt(t[p].0@, t[k].0@));
            }
        }
    }
    assert forall|j: int| 0 <= j < now.len() implies #[trigger] label_tallied(t2, now[j]) by {
        if j < i {
            assert(now[j] == before[j]);
            assert(label_tallied(t, before[j]));
            let k = choose|k: int| 0 <= k < t.len() && (#[trigger] t[k]).0@ == before[j];
            assert(t2[k].0@ == t[k].0@);
        } else {
            assert(t2[p].0@ == x);
        }
    }
}

/// The first occurrence of a label the tally does not have yet.
proof fn lemma_label_new(s: Seq<Seq<char>>, t: Seq<(String, usize)>, i: int, p: int, e: (String, usize))
    requires
        0 <= i < s.len(),
        is_label_tally(s.take(i), t),
        0 <= p <= t.len(),
        forall|q: int| 0 <= q < p ==> text_lt((#[trigger] t[q]).0@, s[i]),
        p < t.len() ==> !text_lt(t[p].0@, s[i]),
        p < t.len() ==> t[p].0@ != s[i],
        e.0@ == s[i],
        e.1 == 1,
    ensures
        is_label_tally(s.take(i + 1), t.insert(p, e)),
{
    let x = s[i];
    let before = s.take(i);
    let now = s.take(i + 1);
    let t2 = t.insert(p, e);
    assert(now.drop_last() =~= before);
    assert forall|q: int| p <= q < t.len() implies text_lt(x, (#[trigger] t[q]).0@) by {
        lemma_text_lt_total(t[p].0@, x);
        if q > p {
            lemma_text_lt_transitive(x, t[p].0@, t[q].0@);
        }
    }
    lemma_text_lt_irreflexive(x);
    if before.contains(x) {
        let j = choose|j: int| 0 <= j < before.len() && before[j] == x;
        assert(label_tallied(t, before[j]));
        let k = choose|k: int| 0 <= k < t.len() && (#[trigger] t[k]).0@ == before[j];
        if k < p {
            assert(text_lt(t[k].0@, x));
        } else {
            assert(text_lt(x, t[k].0@));
        }
    }
    lemma_occurrences_contains(before, x);
    assert forall|a: int, b: int| 0 <= a < b < t2.len() implies text_lt(
        (#[trigger] t2[a]).0@,
        (#[trigger] t2[b]).0@,
    ) by {
        if b < p {
            assert(t2[a] == t[a] && t2[b] == t[b]);
        } else if b == p {
            assert(t2[a] == t[a]);
        } else if a < p {
            assert(t2[a] == t[a] && t2[b] == t[b - 1]);
            lemma_text_lt_transitive(t[a].0@, x, t[b - 1].0@);
        } else if a == p {
            assert(t2[b] == t[b - 1]);
        } else {
            assert(t2[a] == t[a - 1] && t2[b] == t[b - 1]);
        }
    }
    assert forall|k: int| 0 <= k < t2.len() implies (#[trigger] t2[k]).1 == occurrences(
        now,
        t2[k].0@,
    ) && t2[k].1 > 0 by {
        if k < p {
            assert(t2[k] == t[k]);
        } else if k > p {
            assert(t2[k] == t[k - 1]);
        }
    }
    assert forall|j: int| 0 <= j < now.len() implies #[trigger] label_tallied(t2, now[j]) by {
        if j < i {
            assert(now[j] == before[j]);
            assert(label_tallied(t, before[j]));
            let k = choose|k: int| 0 <= k < t.len() && (#[trigger] t[k]).0@ == before[j];
            if k < p {
                assert(t2[k] == t[k]);
            } else {
                assert(t2[k + 1] == t[k]);
            }
        } else {
            assert(t2[p].0@ == x);
        }
    }
}

/// Each different label once, in text order, with how many times it
/// occurs.
pub fn count_by_label(labels: &Vec<String>) -> (r: Vec<(String, usize)>)
    ensures
        is_label_tally(labels_text(labels@), r@),
{
    let ghost s = labels_text(labels@);
    let mut t: Vec<(String, usize)> = Vec::new();
    let mut i: usize = 0;
    assert(s.take(0) =~= Seq::<Seq<char>>::empty());
    while i < labels.len()
        invariant
            s == labels_text(labels@),
            i <= labels@.len(),
            is_label_tally(s.take(i as int), t@),
            forall|k: int| 0 <= k < t@.len() ==> (#[trigger] t@[k]).1 <= i,
        decreases labels@.len() - i,
    {
        let x = &labels[i];
        assert(s[i as int] == x@);
        let p = label_position(&t, x);
        if p < t.len() && t[p].0 == *x {
            let c = t[p].1;
            let e = (x.clone(), c + 1);
            proof {
                lemma_label_again(s, t@, i as int, p as int, e);
            }
            t.set(p, e);
            proof {
                assert forall|k: int| 0 <= k < t@.len() implies (#[trigger] t@[k]).1 <= i + 1 by {
                    if k != p {
                        assert(t@[k].1 <= i);
                    }
                }
            }
        } else {
            let e = (x.clone(), 1usize);
            proof {
                lemma_label_new(s, t@, i as int, p as int, e);
            }
            t.insert(p, e);
            proof {
                assert forall|k: int| 0 <= k < t@.len() implies (#[trigger] t@[k]).1 <= i + 1 by {
                }
            }
        }
        i += 1;
    }
    assert(s.take(labels@.len() as int) =~= s);
    t
}

/// The day a day key stands for.
pub fn day_of_key(k: u128) -> (r: (i32, u32, u32))
    requires
        exists|d: (i32, u32, u32)| day_key_of(d) == k,
    ensures
        day_key_of(r) == k,
{
    let ghost d = choose|d: (i32, u32, u32)| day_key_of(d) == k;
    let big: u128 = 0x1_0000_0000_0000_0000;
    let small: u128 = 0x1_0000_0000;
    let high = k / big;
    let low = k % big;
    let month = low / small;
    let day = low % small;
    proof {
        let ya = d.0 + 0x8000_0000;
        let la = d.1 * 0x1_0000_0000 + d.2;
        lemma_digits_ordered(d.1 as int, 0x1_0000_0000, d.2 as int, 0, 0x1_0000_0000);
        vstd::arithmetic::div_mod::lemma_fundamental_div_mod(k as int, big as int);
        vstd::arithmetic::div_mod::lemma_div_multiples_vanish_fancy(ya, la, big as int);
        assert(high == ya);
        assert(low == la);
        vstd::arithmetic::div_mod::lemma_fundamental_div_mod(low as int, small as int);
        vstd::arithmetic::div_mod::lemma_div_multiples_vanish_fancy(d.1 as int, d.2 as int, small as int);
        assert(month == d.1);
        assert(day == d.2);
    }
    ((high as i64 - 0x8000_0000) as i32, month as u32, day as u32)
}

// ---------------------------------------------------------------------------
// What a corpus contains.
// ---------------------------------------------------------------------------

/// What the description of a corpus reads of one spot.
pub struct ContentRow {
    pub tx_call: String,
    pub rx_call: String,
    /// The two-minute cycle, as the archive spells it.
    pub cycle: String,
    /// The spot's UTC hour.
    pub hour: u32,
    /// The spot's UTC day.
    pub day: (i32, u32, u32),
    /// The name of the spot's band.
    pub band: String,
}

/// What a corpus contains.
pub struct CorpusContents {
    pub spots: usize,
    pub transmitters: usize,
    pub receivers: usize,
    /// Spots per band, bands in text order.
    pub by_band: Vec<(String, usize)>,
    /// Spots per UTC hour, hours in order.
    pub by_hour: Vec<(u32, usize)>,
    /// Spots per UTC day, days in calendar order.
    pub by_day: Vec<((i32, u32, u32), usize)>,
    /// Different transmitter-to-receiver pairs.
    pub pairs: usize,
    /// Pairs heard both ways (A hears B and B hears A).
    pub reciprocal_pairs: usize,
    /// Transmissions (cycle and transmitter) that several receivers heard.
    pub multi_rx: usize,
    /// Pairs heard more than once in one cycle, that is on several bands.
    pub multi_band: usize,
}

/// Each row's transmitter and receiver.
pub open spec fn pair_keys(rows: Seq<ContentRow>) -> Seq<Seq<Seq<char>>> {
    Seq::new(rows.len(), |i: int| seq![rows[i].tx_call@, rows[i].rx_call@])
}

/// Each row's cycle and transmitter.
pub open spec fn transmission_keys(rows: Seq<ContentRow>) -> Seq<Seq<Seq<char>>> {
    Seq::new(rows.len(), |i: int| seq![rows[i].cycle@, rows[i].tx_call@])
}

/// Each row's transmitter, receiver and cycle.
pub open spec fn pair_cycle_keys(rows: Seq<ContentRow>) -> Seq<Seq<Seq<char>>> {
    Seq::new(rows.len(), |i: int| seq![rows[i].tx_call@, rows[i].rx_call@, rows[i].cycle@])
}

/// One column of the rows as text: the transmitter when `by_tx`, the
/// receiver otherwise.
pub open spec fn call_column(rows: Seq<ContentRow>, by_tx: bool) -> Seq<Seq<char>> {
    Seq::new(rows.len(), |i: int| if by_tx { rows[i].tx_call@ } else { rows[i].rx_call@ })
}

/// Each row's band name.
pub open spec fn band_column(rows: Seq<ContentRow>) -> Seq<Seq<char>> {
    Seq::new(rows.len(), |i: int| rows[i].band@)
}

/// Each row's hour, as a tally key.
pub open spec fn hour_keys(rows: Seq<ContentRow>) -> Seq<u128> {
    Seq::new(rows.len(), |i: int| rows[i].hour as u128)
}

/// Each row's day, as a tally key.
pub open spec fn day_keys(rows: Seq<ContentRow>) -> Seq<u128> {
    Seq::new(rows.len(), |i: int| day_key_of(rows[i].day) as u128)
}

/// A tally of hours, keyed as numbers.
pub open spec fn hours_as_keys(t: Seq<(u32, usize)>) -> Seq<(u128, usize)> {
    t.map_values(|e: (u32, usize)| (e.0 as u128, e.1))
}

/// A tally of days, keyed by day key.
pub open spec fn days_as_keys(t: Seq<((i32, u32, u32), usize)>) -> Seq<(u128, usize)> {
    t.map_values(|e: ((i32, u32, u32), usize)| (day_key_of(e.0) as u128, e.1))
}

/// Two fields as a key.
fn key_of_two(a: &String, b: &String) -> (r: Vec<String>)
    ensures
        key_text(r) == seq![a@, b@],
{
    let mut k: Vec<String> = Vec::new();
    k.push(a.clone());
    k.push(b.clone());
    assert(key_text(k) =~= seq![a@, b@]);
    k
}

/// Three fields as a key.
fn key_of_three(a: &String, b: &String, c: &String) -> (r: Vec<String>)
    ensures
        key_text(r) == seq![a@, b@, c@],
{
    let mut k: Vec<String> = Vec::new();
    k.push(a.clone());
    k.push(b.clone());
    k.push(c.clone());
    assert(key_text(k) =~= seq![a@, b@, c@]);
    k
}

/// The keys the corpus description counts by: pairs, transmissions, and
/// pairs in a cycle.
fn content_keys(rows: &Vec<ContentRow>) -> (r: (Vec<Vec<String>>, Vec<Vec<String>>, Vec<Vec<String>>))
    ensures
        keys_text(r.0@) == pair_keys(rows@),
        keys_text(r.1@) == transmission_keys(rows@),
        keys_text(r.2@) == pair_cycle_keys(rows@),
{
    let mut pairs: Vec<Vec<String>> = Vec::new();
    let mut transmissions: Vec<Vec<String>> = Vec::new();
    let mut pair_cycles: Vec<Vec<String>> = Vec::new();
    let mut i: usize = 0;
    while i < rows.len()
        invariant
            i <= rows@.len(),
            keys_text(pairs@) == pair_keys(rows@).take(i as int),
            keys_text(transmissions@) == transmission_keys(rows@).take(i as int),
            keys_text(pair_cycles@) == pair_cycle_keys(rows@).take(i as int),
        decreases rows@.len() - i,
    {
        let row = &rows[i];
        let ghost (p0, t0, c0) = (keys_text(pairs@), keys_text(transmissions@), keys_text(pair_cycles@));
        let pk = key_of_two(&row.tx_call, &row.rx_call);
        let tk = key_of_two(&row.cycle, &row.tx_call);
        let ck = key_of_three(&row.tx_call, &row.rx_call, &row.cycle);
        pairs.push(pk);
        transmissions.push(tk);
        pair_cycles.push(ck);
        assert(keys_text(pairs@) =~= p0.push(key_text(pk)));
        assert(keys_text(transmissions@) =~= t0.push(key_text(tk)));
        assert(keys_text(pair_cycles@) =~= c0.push(key_text(ck)));
        assert(pair_keys(rows@).take(i + 1) =~= pair_keys(rows@).take(i as int).push(pair_keys(rows@)[i as int]));
        assert(transmission_keys(rows@).take(i + 1) =~= transmission_keys(rows@).take(i as int).push(transmission_keys(rows@)[i as int]));
        assert(pair_cycle_keys(rows@).take(i + 1) =~= pair_cycle_keys(rows@).take(i as int).push(pair_cycle_keys(rows@)[i as int]));
        i += 1;
    }
    assert(pair_keys(rows@).take(i as int) =~= pair_keys(rows@));
    assert(transmission_keys(rows@).take(i as int) =~= transmission_keys(rows@));
    assert(pair_cycle_keys(rows@).take(i as int) =~= pair_cycle_keys(rows@));
    (pairs, transmissions, pair_cycles)
}

/// The columns the corpus description tallies: transmitters, receivers,
/// bands, hour keys and day keys.
fn content_columns(rows: &Vec<ContentRow>) -> (r: (Vec<String>, Vec<String>, Vec<String>, Vec<u128>, Vec<u128>))
    ensures
        labels_text(r.0@) == call_column(rows@, true),
        labels_text(r.1@) == call_column(rows@, false),
        labels_text(r.2@) == band_column(rows@),
        r.3@ == hour_keys(rows@),
        r.4@ == day_keys(rows@),
{
    let mut txs: Vec<String> = Vec::new();
    let mut rxs: Vec<String> = Vec::new();
    let mut bands: Vec<String> = Vec::new();
    let mut hours: Vec<u128> = Vec::new();
    let mut days: Vec<u128> = Vec::new();
    let mut i: usize = 0;
    while i < rows.len()
        invariant
            i <= rows@.len(),
            labels_text(txs@) == call_column(rows@, true).take(i as int),
            labels_text(rxs@) == call_column(rows@, false).take(i as int),
            labels_text(bands@) == band_column(rows@).take(i as int),
            hours@ == hour_keys(rows@).take(i as int),
            days@ == day_keys(rows@).take(i as int),
        decreases rows@.len() - i,
    {
        let row = &rows[i];
        let ghost (x0, r0, b0) = (labels_text(txs@), labels_text(rxs@), labels_text(bands@));
        txs.push(row.tx_call.clone());
        rxs.push(row.rx_call.clone());
        bands.push(row.band.clone());
        hours.push(row.hour as u128);
        days.push(day_key(row.day));
        assert(labels_text(txs@) =~= x0.push(row.tx_call@));
        assert(labels_text(rxs@) =~= r0.push(row.rx_call@));
        assert(labels_text(bands@) =~= b0.push(row.band@));
        assert(call_column(rows@, true).take(i + 1) =~= call_column(rows@, true).take(i as int).push(row.tx_call@));
        assert(call_column(rows@, false).take(i + 1) =~= call_column(rows@, false).take(i as int).push(row.rx_call@));
        assert(band_column(rows@).take(i + 1) =~= band_column(rows@).take(i as int).push(row.band@));
        i += 1;
        assert(hours@ =~= hour_keys(rows@).take(i as int));
        assert(days@ =~= day_keys(rows@).take(i as int));
    }
    assert(call_column(rows@, true).take(i as int) =~= call_column(rows@, true));
    assert(call_column(rows@, false).take(i as int) =~= call_column(rows@, false));
    assert(band_column(rows@).take(i as int) =~= band_column(rows@));
    assert(hour_keys(rows@).take(i as int) =~= hour_keys(rows@));
    assert(day_keys(rows@).take(i as int) =~= day_keys(rows@));
    (txs, rxs, bands, hours, days)
}

/// A tally entry's key is one of the tallied values.
proof fn lemma_tally_key_occurs(s: Seq<u128>, t: Seq<(u128, usize)>, k: int)
    requires
        is_tally(s, t),
        0 <= k < t.len(),
    ensures
        exists|i: int| 0 <= i < s.len() && s[i] == t[k].0,
{
    lemma_occurrences_contains(s, t[k].0);
    assert(t[k].1 > 0);
}

/// The hour tally, keyed by hour again.
fn hours_of_tally(rows: &Vec<ContentRow>, t: Vec<(u128, usize)>) -> (r: Vec<(u32, usize)>)
    requires
        is_tally(hour_keys(rows@), t@),
    ensures
        hours_as_keys(r@) == t@,
{
    let mut out: Vec<(u32, usize)> = Vec::new();
    let mut k: usize = 0;
    while k < t.len()
        invariant
            is_tally(hour_keys(rows@), t@),
            k <= t@.len(),
            hours_as_keys(out@) == t@.take(k as int),
        decreases t@.len() - k,
    {
        proof {
            lemma_tally_key_occurs(hour_keys(rows@), t@, k as int);
        }
        let e = t[k];
        let ghost o0 = hours_as_keys(out@);
        out.push((e.0 as u32, e.1));
        assert(hours_as_keys(out@) =~= o0.push((e.0, e.1)));
        k += 1;
        assert(hours_as_keys(out@) =~= t@.take(k as int));
    }
    assert(t@.take(k as int) =~= t@);
    out
}

/// The day tally, keyed by day again.
fn days_of_tally(rows: &Vec<ContentRow>, t: Vec<(u128, usize)>) -> (r: Vec<((i32, u32, u32), usize)>)
    requires
        is_tally(day_keys(rows@), t@),
    ensures
        days_as_keys(r@) == t@,
{
    let mut out: Vec<((i32, u32, u32), usize)> = Vec::new();
    let mut k: usize = 0;
    while k < t.len()
        invariant
            is_tally(day_keys(rows@), t@),
            k <= t@.len(),
            days_as_keys(out@) == t@.take(k as int),
        decreases t@.len() - k,
    {
        proof {
            lemma_tally_key_occurs(day_keys(rows@), t@, k as int);
            let i = choose|i: int| 0 <= i < day_keys(rows@).len() && day_keys(rows@)[i] == t@[k as int].0;
            let d = rows@[i].day;
            assert(day_key_of(d) == t@[k as int].0) by {
                lemma_digits_ordered(d.1 as int, 0x1_0000_0000, d.2 as int, 0, 0x1_0000_0000);
                lemma_digits_ordered(d.0 + 0x8000_0000, 0x1_0000_0000, d.1 * 0x1_0000_0000 + d.2, 0, 0x1_0000_0000_0000_0000);
            }
        }
        let e = t[k];
        let day = day_of_key(e.0);
        let ghost o0 = days_as_keys(out@);
        out.push((day, e.1));
        assert(days_as_keys(out@) =~= o0.push((e.0, e.1)));
        k += 1;
        assert(days_as_keys(out@) =~= t@.take(k as int));
    }
    assert(t@.take(k as int) =~= t@);
    out
}

/// What a corpus contains: its size, its different transmitters and
/// receivers, its spots per band, hour and day, and the structure a
/// fixed-effects fit relies on.
pub fn describe_corpus(rows: &Vec<ContentRow>) -> (r: CorpusContents)
    ensures
        r.spots == rows@.len(),
        r.transmitters == distinct_values(call_column(rows@, true)),
        r.receivers == distinct_values(call_column(rows@, false)),
        is_label_tally(band_column(rows@), r.by_band@),
        is_tally(hour_keys(rows@), hours_as_keys(r.by_hour@)),
        is_tally(day_keys(rows@), days_as_keys(r.by_day@)),
        r.pairs == distinct_where(pair_keys(rows@), |k: Seq<Seq<char>>| true),
        r.reciprocal_pairs == distinct_where(
            pair_keys(rows@),
            |k: Seq<Seq<char>>| pair_keys(rows@).contains(k.reverse()),
        ),
        r.multi_rx == distinct_where(
            transmission_keys(rows@),
            |k: Seq<Seq<char>>| occurrences(transmission_keys(rows@), k) > 1,
        ),
        r.multi_band == distinct_where(
            pair_cycle_keys(rows@),
            |k: Seq<Seq<char>>| occurrences(pair_cycle_keys(rows@), k) > 1,
        ),
        // The same counts read off the rows' fields directly.
        r.multi_band == 0 <==> forall|i: int, j: int|
            0 <= i < j < rows@.len() ==> !((#[trigger] rows@[i]).tx_call@ == (
            #[trigger] rows@[j]).tx_call@ && rows@[i].rx_call@ == rows@[j].rx_call@
                && rows@[i].cycle@ == rows@[j].cycle@),
        r.multi_rx == 0 <==> forall|i: int, j: int|
            0 <= i < j < rows@.len() ==> !((#[trigger] rows@[i]).cycle@ == (
            #[trigger] rows@[j]).cycle@ && rows@[i].tx_call@ == rows@[j].tx_call@),
        r.reciprocal_pairs == 0 <==> forall|i: int, j: int|
            0 <= i < rows@.len() && 0 <= j < rows@.len() ==> !((#[trigger] rows@[i]).tx_call@ == (
            #[trigger] rows@[j]).rx_call@ && rows@[i].rx_call@ == rows@[j].tx_call@),
        r.pairs == 0 <==> rows@.len() == 0,
        r.transmitters == distinct_values(Seq::new(rows@.len(), |i: int| rows@[i].tx_call@)),
        r.receivers == distinct_values(Seq::new(rows@.len(), |i: int| rows@[i].rx_call@)),
{
    proof {
        law_keys_are_their_fields(rows@);
        assert(call_column(rows@, true) =~= Seq::new(rows@.len(), |i: int| rows@[i].tx_call@));
        assert(call_column(rows@, false) =~= Seq::new(rows@.len(), |i: int| rows@[i].rx_call@));
        law_multi_band_counts_repeated_pair_cycles(rows@);
        law_multi_rx_counts_repeated_transmissions(rows@);
        law_reciprocal_pairs_count_pairs_heard_both_ways(rows@);
        lemma_distinct_where_positive(pair_keys(rows@), |k: Seq<Seq<char>>| true);
        if rows@.len() > 0 {
            assert((|k: Seq<Seq<char>>| true)(pair_keys(rows@)[0]));
        }
    }
    let (pairs, transmissions, pair_cycles) = content_keys(rows);
    let (txs, rxs, bands, hours, days) = content_columns(rows);
    assert(crate::stations::views(txs@) =~= labels_text(txs@));
    assert(crate::stations::views(rxs@) =~= labels_text(rxs@));
    let hour_tally = count_by_key(&hours);
    let day_tally = count_by_key(&days);
    CorpusContents {
        spots: rows.len(),
        transmitters: crate::stations::distinct_count(&txs),
        receivers: crate::stations::distinct_count(&rxs),
        by_band: count_by_label(&bands),
        by_hour: hours_of_tally(rows, hour_tally),
        by_day: days_of_tally(rows, day_tally),
        pairs: distinct_keys(&pairs),
        reciprocal_pairs: reciprocal_keys(&pairs),
        multi_rx: repeated_keys(&transmissions),
        multi_band: repeated_keys(&pair_cycles),
    }
}

// ---------------------------------------------------------------------------
// Tallies are determined by what they count.
// ---------------------------------------------------------------------------

/// A tally of `s` is determined by `s`: two tallies of the same values are
/// the same list.
pub proof fn law_tally_is_determined(s: Seq<u128>, t1: Seq<(u128, usize)>, t2: Seq<(u128, usize)>)
    requires
        is_tally(s, t1),
        is_tally(s, t2),
    ensures
        t1 == t2,
{
    let lt = |a: (u128, usize), b: (u128, usize)| a.0 < b.0;
    assert forall|k: int| 0 <= k < t1.len() implies t2.contains(#[trigger] t1[k]) by {
        let x = t1[k].0;
        lemma_occurrences_contains(s, x);
        let i = choose|i: int| 0 <= i < s.len() && s[i] == x;
        assert(tallied(t2, s[i]));
        let m = choose|m: int| 0 <= m < t2.len() && (#[trigger] t2[m]).0 == s[i];
        assert(t2[m] == t1[k]);
    }
    assert forall|k: int| 0 <= k < t2.len() implies t1.contains(#[trigger] t2[k]) by {
        let x = t2[k].0;
        lemma_occurrences_contains(s, x);
        let i = choose|i: int| 0 <= i < s.len() && s[i] == x;
        assert(tallied(t1, s[i]));
        let m = choose|m: int| 0 <= m < t1.len() && (#[trigger] t1[m]).0 == s[i];
        assert(t1[m] == t2[k]);
    }
    lemma_sorted_lists_agree(t1, t2, lt);
}

/// A label tally as text and counts.
pub open spec fn label_tally_text(t: Seq<(String, usize)>) -> Seq<(Seq<char>, usize)> {
    t.map_values(|e: (String, usize)| (e.0@, e.1))
}

/// A tally of labels is determined by the labels: two tallies of the same
/// labels say the same labels with the same counts, in the same order.
pub proof fn law_label_tally_is_determined(
    s: Seq<Seq<char>>,
    t1: Seq<(String, usize)>,
    t2: Seq<(String, usize)>,
)
    requires
        is_label_tally(s, t1),
        is_label_tally(s, t2),
    ensures
        label_tally_text(t1) == label_tally_text(t2),
{
    let u1 = label_tally_text(t1);
    let u2 = label_tally_text(t2);
    let lt = |a: (Seq<char>, usize), b: (Seq<char>, usize)| text_lt(a.0, b.0);
    assert forall|a: (Seq<char>, usize)| !#[trigger] lt(a, a) by {
        lemma_text_lt_irreflexive(a.0);
    }
    assert forall|a: (Seq<char>, usize), b: (Seq<char>, usize), c: (Seq<char>, usize)|
        #[trigger] lt(a, b) && #[trigger] lt(b, c) implies lt(a, c) by {
        lemma_text_lt_transitive(a.0, b.0, c.0);
    }
    assert forall|j: int, k: int| 0 <= j < k < u1.len() implies lt(#[trigger] u1[j], #[trigger] u1[k]) by {
        assert(text_lt(t1[j].0@, t1[k].0@));
    }
    assert forall|j: int, k: int| 0 <= j < k < u2.len() implies lt(#[trigger] u2[j], #[trigger] u2[k]) by {
        assert(text_lt(t2[j].0@, t2[k].0@));
    }
    assert forall|k: int| 0 <= k < u1.len() implies u2.contains(#[trigger] u1[k]) by {
        let x = t1[k].0@;
        assert(t1[k].1 == occurrences(s, x) && t1[k].1 > 0);
        lemma_occurrences_contains(s, x);
        let i = choose|i: int| 0 <= i < s.len() && s[i] == x;
        assert(label_tallied(t2, s[i]));
        let m = choose|m: int| 0 <= m < t2.len() && (#[trigger] t2[m]).0@ == s[i];
        assert(u2[m] == u1[k]);
    }
    assert forall|k: int| 0 <= k < u2.len() implies u1.contains(#[trigger] u2[k]) by {
        let x = t2[k].0@;
        assert(t2[k].1 == occurrences(s, x) && t2[k].1 > 0);
        lemma_occurrences_contains(s, x);
        let i = choose|i: int| 0 <= i < s.len() && s[i] == x;
        assert(label_tallied(t1, s[i]));
        let m = choose|m: int| 0 <= m < t1.len() && (#[trigger] t1[m]).0@ == s[i];
        assert(u1[m] == u2[k]);
    }
    lemma_sorted_lists_agree(u1, u2, lt);
}

// ---------------------------------------------------------------------------
// The structure counts, read off the rows.
// ---------------------------------------------------------------------------

/// Some value of `s` satisfies `p` exactly when at least one different
/// value does.
pub proof fn lemma_distinct_where_positive<K>(s: Seq<K>, p: spec_fn(K) -> bool)
    ensures
        distinct_where(s, p) > 0 <==> exists|i: int| 0 <= i < s.len() && #[trigger] p(s[i]),
    decreases s.len(),
{
    if s.len() > 0 {
        let d = s.drop_last();
        lemma_distinct_where_positive(d, p);
        if exists|i: int| 0 <= i < s.len() && #[trigger] p(s[i]) {
            let i = choose|i: int| 0 <= i < s.len() && #[trigger] p(s[i]);
            if i < s.len() - 1 {
                assert(p(d[i]));
            } else if d.contains(s.last()) {
                let j = choose|j: int| 0 <= j < d.len() && d[j] == s.last();
                assert(p(d[j]));
            }
        }
        if distinct_where(d, p) > 0 {
            let i = choose|i: int| 0 <= i < d.len() && #[trigger] p(d[i]);
            assert(p(s[i]));
        }
        if p(s.last()) {
            assert(p(s[s.len() - 1]));
        }
    }
}

/// A value occurs more than once exactly when two different positions hold
/// it.
proof fn lemma_occurrences_twice<K>(s: Seq<K>, k: K)
    ensures
        occurrences(s, k) > 1 <==> exists|a: int, b: int|
            0 <= a < b < s.len() && #[trigger] s[a] == k && #[trigger] s[b] == k,
    decreases s.len(),
{
    if s.len() > 0 {
        let d = s.drop_last();
        let n = s.len() - 1;
        lemma_occurrences_twice(d, k);
        lemma_occurrences_contains(d, k);
        if exists|a: int, b: int| 0 <= a < b < s.len() && #[trigger] s[a] == k && #[trigger] s[b] == k {
            let (a, b) = choose|a: int, b: int|
                0 <= a < b < s.len() && #[trigger] s[a] == k && #[trigger] s[b] == k;
            assert(d[a] == k);
            if b < n {
                assert(d[b] == k);
            } else {
                assert(d.contains(k));
            }
        }
        if occurrences(d, k) > 1 {
            let (a, b) = choose|a: int, b: int|
                0 <= a < b < d.len() && #[trigger] d[a] == k && #[trigger] d[b] == k;
            assert(s[a] == k && s[b] == k);
        } else if occurrences(s, k) > 1 {
            assert(s[n] == k);
            assert(d.contains(k));
            let a = choose|a: int| 0 <= a < d.len() && d[a] == k;
            assert(s[a] == k);
        }
    }
}

/// No value of `s` occurs more than once exactly when all its positions
/// hold different values.
proof fn lemma_no_repeats<K>(s: Seq<K>)
    ensures
        distinct_where(s, |k: K| occurrences(s, k) > 1) == 0 <==> forall|i: int, j: int|
            0 <= i < j < s.len() ==> #[trigger] s[i] != #[trigger] s[j],
{
    let p = |k: K| occurrences(s, k) > 1;
    lemma_distinct_where_positive(s, p);
    if exists|i: int| 0 <= i < s.len() && #[trigger] p(s[i]) {
        let i = choose|i: int| 0 <= i < s.len() && #[trigger] p(s[i]);
        lemma_occurrences_twice(s, s[i]);
        let (a, b) = choose|a: int, b: int|
            0 <= a < b < s.len() && #[trigger] s[a] == s[i] && #[trigger] s[b] == s[i];
        assert(s[a] == s[b]);
    }
    if exists|i: int, j: int| 0 <= i < j < s.len() && #[trigger] s[i] == #[trigger] s[j] {
        let (i, j) = choose|i: int, j: int| 0 <= i < j < s.len() && #[trigger] s[i] == #[trigger] s[j];
        lemma_occurrences_twice(s, s[i]);
        assert(p(s[i]));
    }
}

/// No transmitter-to-receiver pair is counted as heard on several bands in
/// one cycle unless two rows share the transmitter, the receiver and the
/// cycle: the same pair in two different cycles never counts.
pub proof fn law_multi_band_counts_repeated_pair_cycles(rows: Seq<ContentRow>)
    ensures
        distinct_where(
            pair_cycle_keys(rows),
            |k: Seq<Seq<char>>| occurrences(pair_cycle_keys(rows), k) > 1,
        ) == 0 <==> forall|i: int, j: int|
            0 <= i < j < rows.len() ==> !((#[trigger] rows[i]).tx_call@ == (
            #[trigger] rows[j]).tx_call@ && rows[i].rx_call@ == rows[j].rx_call@ && rows[i].cycle@
                == rows[j].cycle@),
{
    let s = pair_cycle_keys(rows);
    lemma_no_repeats(s);
    let direct = forall|i: int, j: int|
        0 <= i < j < rows.len() ==> !((#[trigger] rows[i]).tx_call@ == (#[trigger] rows[j]).tx_call@
            && rows[i].rx_call@ == rows[j].rx_call@ && rows[i].cycle@ == rows[j].cycle@);
    let apart = forall|i: int, j: int| 0 <= i < j < s.len() ==> #[trigger] s[i] != #[trigger] s[j];
    if direct {
        assert forall|i: int, j: int| 0 <= i < j < s.len() implies #[trigger] s[i] != #[trigger] s[j] by {
            assert(!(rows[i].tx_call@ == rows[j].tx_call@ && rows[i].rx_call@ == rows[j].rx_call@
                && rows[i].cycle@ == rows[j].cycle@));
            if s[i] == s[j] {
                assert(s[i][0] == s[j][0] && s[i][1] == s[j][1] && s[i][2] == s[j][2]);
            }
        }
    }
    if apart {
        assert forall|i: int, j: int| 0 <= i < j < rows.len() implies !((#[trigger] rows[i]).tx_call@
            == (#[trigger] rows[j]).tx_call@ && rows[i].rx_call@ == rows[j].rx_call@
            && rows[i].cycle@ == rows[j].cycle@) by {
            assert(s[i] != s[j]);
            if rows[i].tx_call@ == rows[j].tx_call@ && rows[i].rx_call@ == rows[j].rx_call@
                && rows[i].cycle@ == rows[j].cycle@ {
                assert(s[i] =~= s[j]);
            }
        }
    }
    assert(direct <==> apart);
}

/// No transmission is counted as heard by several receivers unless two rows
/// share the cycle and the transmitter.
pub proof fn law_multi_rx_counts_repeated_transmissions(rows: Seq<ContentRow>)
    ensures
        distinct_where(
            transmission_keys(rows),
            |k: Seq<Seq<char>>| occurrences(transmission_keys(rows), k) > 1,
        ) == 0 <==> forall|i: int, j: int|
            0 <= i < j < rows.len() ==> !((#[trigger] rows[i]).cycle@ == (
            #[trigger] rows[j]).cycle@ && rows[i].tx_call@ == rows[j].tx_call@),
{
    let s = transmission_keys(rows);
    lemma_no_repeats(s);
    let direct = forall|i: int, j: int|
        0 <= i < j < rows.len() ==> !((#[trigger] rows[i]).cycle@ == (#[trigger] rows[j]).cycle@
            && rows[i].tx_call@ == rows[j].tx_call@);
    let apart = forall|i: int, j: int| 0 <= i < j < s.len() ==> #[trigger] s[i] != #[trigger] s[j];
    if direct {
        assert forall|i: int, j: int| 0 <= i < j < s.len() implies #[trigger] s[i] != #[trigger] s[j] by {
            assert(!(rows[i].cycle@ == rows[j].cycle@ && rows[i].tx_call@ == rows[j].tx_call@));
            if s[i] == s[j] {
                assert(s[i][0] == s[j][0] && s[i][1] == s[j][1]);
            }
        }
    }
    if apart {
        assert forall|i: int, j: int| 0 <= i < j < rows.len() implies !((#[trigger] rows[i]).cycle@
            == (#[trigger] rows[j]).cycle@ && rows[i].tx_call@ == rows[j].tx_call@) by {
            assert(s[i] != s[j]);
            if rows[i].cycle@ == rows[j].cycle@ && rows[i].tx_call@ == rows[j].tx_call@ {
                assert(s[i] =~= s[j]);
            }
        }
    }
    assert(direct <==> apart);
}

/// No pair is counted as heard both ways unless some row's transmitter is
/// another row's receiver and the other way round.
pub proof fn law_reciprocal_pairs_count_pairs_heard_both_ways(rows: Seq<ContentRow>)
    ensures
        distinct_where(
            pair_keys(rows),
            |k: Seq<Seq<char>>| pair_keys(rows).contains(k.reverse()),
        ) == 0 <==> forall|i: int, j: int|
            0 <= i < rows.len() && 0 <= j < rows.len() ==> !((#[trigger] rows[i]).tx_call@ == (
            #[trigger] rows[j]).rx_call@ && rows[i].rx_call@ == rows[j].tx_call@),
{
    let s = pair_keys(rows);
    let p = |k: Seq<Seq<char>>| s.contains(k.reverse());
    lemma_distinct_where_positive(s, p);
    assert forall|i: int, j: int| 0 <= i < rows.len() && 0 <= j < rows.len() implies (
    #[trigger] s[i].reverse() == #[trigger] s[j] <==> (rows[i].tx_call@ == rows[j].rx_call@
        && rows[i].rx_call@ == rows[j].tx_call@)) by {
        let r = s[i].reverse();
        assert(r.len() == 2 && r[0] == s[i][1] && r[1] == s[i][0]);
        if r == s[j] {
            assert(r[0] == s[j][0] && r[1] == s[j][1]);
        }
        if rows[i].tx_call@ == rows[j].rx_call@ && rows[i].rx_call@ == rows[j].tx_call@ {
            assert(r =~= s[j]);
        }
    }
    if exists|i: int| 0 <= i < s.len() && #[trigger] p(s[i]) {
        let i = choose|i: int| 0 <= i < s.len() && #[trigger] p(s[i]);
        let j = choose|j: int| 0 <= j < s.len() && s[j] == s[i].reverse();
        assert(rows[i].tx_call@ == rows[j].rx_call@ && rows[i].rx_call@ == rows[j].tx_call@);
    }
    if exists|i: int, j: int|
        0 <= i < rows.len() && 0 <= j < rows.len() && (#[trigger] rows[i]).tx_call@ == (
        #[trigger] rows[j]).rx_call@ && rows[i].rx_call@ == rows[j].tx_call@ {
        let (i, j) = choose|i: int, j: int|
            0 <= i < rows.len() && 0 <= j < rows.len() && (#[trigger] rows[i]).tx_call@ == (
            #[trigger] rows[j]).rx_call@ && rows[i].rx_call@ == rows[j].tx_call@;
        assert(s[i].reverse() == s[j]);
        assert(p(s[i]));
    }
}

/// The keys the description counts by are the rows' fields: two rows have
/// the same pair key exactly when they share transmitter and receiver, the
/// same transmission key exactly when they share cycle and transmitter, and
/// the same pair-in-cycle key exactly when they share transmitter, receiver
/// and cycle; a pair key reversed is another row's exactly when each row's
/// transmitter is the other's receiver.
pub proof fn law_keys_are_their_fields(rows: Seq<ContentRow>)
    ensures
        pair_keys(rows).len() == rows.len(),
        transmission_keys(rows).len() == rows.len(),
        pair_cycle_keys(rows).len() == rows.len(),
        forall|i: int, j: int|
            0 <= i < rows.len() && 0 <= j < rows.len() ==> {
                &&& (#[trigger] pair_keys(rows)[i] == #[trigger] pair_keys(rows)[j] <==> (
                rows[i].tx_call@ == rows[j].tx_call@ && rows[i].rx_call@ == rows[j].rx_call@))
                &&& (pair_keys(rows)[i].reverse() == pair_keys(rows)[j] <==> (rows[i].tx_call@
                    == rows[j].rx_call@ && rows[i].rx_call@ == rows[j].tx_call@))
                &&& (transmission_keys(rows)[i] == transmission_keys(rows)[j] <==> (
                rows[i].cycle@ == rows[j].cycle@ && rows[i].tx_call@ == rows[j].tx_call@))
                &&& (pair_cycle_keys(rows)[i] == pair_cycle_keys(rows)[j] <==> (
                rows[i].tx_call@ == rows[j].tx_call@ && rows[i].rx_call@ == rows[j].rx_call@
                    && rows[i].cycle@ == rows[j].cycle@))
            },
{
    assert forall|i: int, j: int| 0 <= i < rows.len() && 0 <= j < rows.len() implies {
        &&& (#[trigger] pair_keys(rows)[i] == #[trigger] pair_keys(rows)[j] <==> (
        rows[i].tx_call@ == rows[j].tx_call@ && rows[i].rx_call@ == rows[j].rx_call@))
        &&& (pair_keys(rows)[i].reverse() == pair_keys(rows)[j] <==> (rows[i].tx_call@
            == rows[j].rx_call@ && rows[i].rx_call@ == rows[j].tx_call@))
        &&& (transmission_keys(rows)[i] == transmission_keys(rows)[j] <==> (rows[i].cycle@
            == rows[j].cycle@ && rows[i].tx_call@ == rows[j].tx_call@))
        &&& (pair_cycle_keys(rows)[i] == pair_cycle_keys(rows)[j] <==> (rows[i].tx_call@
            == rows[j].tx_call@ && rows[i].rx_call@ == rows[j].rx_call@ && rows[i].cycle@
            == rows[j].cycle@))
    } by {
        let (p, q) = (pair_keys(rows)[i], pair_keys(rows)[j]);
        let (t, u) = (transmission_keys(rows)[i], transmission_keys(rows)[j]);
        let (c, e) = (pair_cycle_keys(rows)[i], pair_cycle_keys(rows)[j]);
        let r = p.reverse();
        assert(r.len() == 2 && r[0] == p[1] && r[1] == p[0]);
        if p == q {
            assert(p[0] == q[0] && p[1] == q[1]);
        }
        if rows[i].tx_call@ == rows[j].tx_call@ && rows[i].rx_call@ == rows[j].rx_call@ {
            assert(p =~= q);
        }
        if r == q {
            assert(r[0] == q[0] && r[1] == q[1]);
        }
        if rows[i].tx_call@ == rows[j].rx_call@ && rows[i].rx_call@ == rows[j].tx_call@ {
            assert(r =~= q);
        }
        if t == u {
            assert(t[0] == u[0] && t[1] == u[1]);
        }
        if rows[i].cycle@ == rows[j].cycle@ && rows[i].tx_call@ == rows[j].tx_call@ {
            assert(t =~= u);
        }
        if c == e {
            assert(c[0] == e[0] && c[1] == e[1] && c[2] == e[2]);
        }
        if rows[i].tx_call@ == rows[j].tx_call@ && rows[i].rx_call@ == rows[j].rx_call@
            && rows[i].cycle@ == rows[j].cycle@ {
            assert(c =~= e);
        }
    }
}

} // verus!
