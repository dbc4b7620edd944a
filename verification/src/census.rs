//! Negatives from one cycle-and-band census: which (transmitter, receiver)
//! pairs were attempted and did not decode.
//!
//! In a given cycle on a given band, transmitter A was on the air (somebody
//! spotted it), receiver W was awake and healthy on that band (it decoded
//! several different transmitters in that same cycle), and W did not spot A.
//! That pair is a path that was attempted and failed. This module decides
//! which pairs those are and in what order they come out; the distance
//! window applied to them afterwards is a matter of positions and is not
//! decided here.
use vstd::prelude::*;

use crate::stations::{distinct_values, Observation};

verus! {

/// How many DIFFERENT transmitters a receiver must have decoded, in the same
/// cycle and on the same band, before its silence about one more is evidence.
pub const MIN_RX_SPOTS_FOR_HEALTHY: usize = 3;

// ---------------------------------------------------------------------------
// The order calls are listed in.
// ---------------------------------------------------------------------------

/// Text order, character by character on code points, a proper prefix
/// first. This is the order of `str`: UTF-8 byte order agrees with code
/// point order.
pub open spec fn text_lt(a: Seq<char>, b: Seq<char>) -> bool
    decreases a.len(),
{
    if a.len() == 0 {
        b.len() > 0
    } else if b.len() == 0 {
        false
    } else if a[0] != b[0] {
        (a[0] as u32) < (b[0] as u32)
    } else {
        text_lt(a.drop_first(), b.drop_first())
    }
}

/// No text comes before itself.
pub proof fn lemma_text_lt_irreflexive(a: Seq<char>)
    ensures
        !text_lt(a, a),
    decreases a.len(),
{
    if a.len() > 0 {
        lemma_text_lt_irreflexive(a.drop_first());
    }
}

/// Text order is transitive.
pub proof fn lemma_text_lt_transitive(a: Seq<char>, b: Seq<char>, c: Seq<char>)
    requires
        text_lt(a, b),
        text_lt(b, c),
    ensures
        text_lt(a, c),
    decreases a.len(),
{
    if a.len() > 0 && b.len() > 0 && c.len() > 0 {
        if a[0] == b[0] && b[0] == c[0] {
            lemma_text_lt_transitive(a.drop_first(), b.drop_first(), c.drop_first());
        }
    }
}

/// Of two different texts, one comes first.
pub proof fn lemma_text_lt_total(a: Seq<char>, b: Seq<char>)
    requires
        a != b,
    ensures
        text_lt(a, b) || text_lt(b, a),
    decreases a.len(),
{
    if a.len() > 0 && b.len() > 0 {
        if a[0] == b[0] {
            if a.drop_first() == b.drop_first() {
                assert(a =~= seq![a[0]] + a.drop_first());
                assert(b =~= seq![b[0]] + b.drop_first());
            }
            lemma_text_lt_total(a.drop_first(), b.drop_first());
        } else {
            vstd::utf8::char_u32_cast(a[0], a[0] as u32);
            vstd::utf8::char_u32_cast(b[0], b[0] as u32);
        }
    } else if a.len() == 0 && b.len() == 0 {
        assert(a =~= b);
    }
}

/// Does `a` come before `b` in text order?
pub fn text_less(a: &String, b: &String) -> (r: bool)
    ensures
        r == text_lt(a@, b@),
{
    let x = crate::text::chars_of(a.as_str());
    let y = crate::text::chars_of(b.as_str());
    let mut i: usize = 0;
    assert(a@.skip(0) =~= a@);
    assert(b@.skip(0) =~= b@);
    while i < x.len() && i < y.len()
        invariant
            x@ == a@,
            y@ == b@,
            i <= x@.len(),
            i <= y@.len(),
            text_lt(a@, b@) == text_lt(a@.skip(i as int), b@.skip(i as int)),
        decreases x@.len() - i,
    {
        let c = x[i];
        let d = y[i];
        let ghost sa = a@.skip(i as int);
        let ghost sb = b@.skip(i as int);
        assert(sa[0] == c && sb[0] == d);
        if c != d {
            return (c as u32) < (d as u32);
        }
        assert(sa.drop_first() =~= a@.skip(i + 1));
        assert(sb.drop_first() =~= b@.skip(i + 1));
        i += 1;
    }
    i < y.len()
}

// ---------------------------------------------------------------------------
// The different calls of one column, in order.
// ---------------------------------------------------------------------------

/// The calls of one column of the census: transmitters when `by_tx`,
/// receivers otherwise.
pub open spec fn column<T>(s: Seq<Observation<T>>, by_tx: bool) -> Seq<Seq<char>> {
    Seq::new(s.len(), |i: int| if by_tx { s[i].tx_call@ } else { s[i].rx_call@ })
}

/// Row `i` is the first row of `keys` with its call.
pub open spec fn is_first(keys: Seq<Seq<char>>, i: int) -> bool {
    forall|j: int| 0 <= j < i ==> keys[j] != keys[i]
}

/// `rows` lists the first row of each different call among the first `n`
/// rows of `keys`, once each, in text order of the calls.
pub open spec fn lists_first_rows_upto(keys: Seq<Seq<char>>, rows: Seq<usize>, n: int) -> bool {
    &&& forall|k: int| 0 <= k < rows.len() ==> #[trigger] rows[k] < n
    &&& forall|k: int| 0 <= k < rows.len() ==> is_first(keys, #[trigger] rows[k] as int)
    &&& forall|a: int, b: int|
        0 <= a < b < rows.len() ==> text_lt(
            keys[#[trigger] rows[a] as int],
            keys[#[trigger] rows[b] as int],
        )
    &&& forall|i: int| 0 <= i < n ==> #[trigger] call_listed(keys, rows, keys[i])
}

/// Some entry of `rows` carries the call `c`.
pub open spec fn call_listed(keys: Seq<Seq<char>>, rows: Seq<usize>, c: Seq<char>) -> bool {
    exists|k: int| 0 <= k < rows.len() && keys[#[trigger] rows[k] as int] == c
}

/// `rows` lists the first row of each different call of `keys`, once each,
/// in text order of the calls.
pub open spec fn lists_first_rows(keys: Seq<Seq<char>>, rows: Seq<usize>) -> bool {
    lists_first_rows_upto(keys, rows, keys.len() as int)
}

/// A row whose call was seen before changes nothing.
proof fn lemma_seen_row(keys: Seq<Seq<char>>, rows: Seq<usize>, i: int)
    requires
        0 <= i < keys.len(),
        lists_first_rows_upto(keys, rows, i),
        exists|m: int| 0 <= m < i && keys[m] == keys[i],
    ensures
        lists_first_rows_upto(keys, rows, i + 1),
{
    let m = choose|m: int| 0 <= m < i && keys[m] == keys[i];
    assert(call_listed(keys, rows, keys[m]));
}

/// The calls after the insertion point of a new call come after it.
proof fn lemma_after_insertion_point(keys: Seq<Seq<char>>, rows: Seq<usize>, i: usize, p: int)
    requires
        0 <= i < keys.len(),
        0 <= p <= rows.len(),
        lists_first_rows_upto(keys, rows, i as int),
        is_first(keys, i as int),
        p < rows.len() ==> !text_lt(keys[rows[p] as int], keys[i as int]),
    ensures
        forall|q: int| p <= q < rows.len() ==> text_lt(keys[i as int], keys[#[trigger] rows[q] as int]),
{
    let ki = keys[i as int];
    assert forall|q: int| p <= q < rows.len() implies text_lt(ki, keys[#[trigger] rows[q] as int]) by {
        let kp = keys[rows[p] as int];
        assert(rows[p] < i);
        assert(kp != ki);
        lemma_text_lt_total(kp, ki);
        if q > p {
            lemma_text_lt_transitive(ki, kp, keys[rows[q] as int]);
        }
    }
}

/// Inserting a call between those before it and those after it keeps the
/// list in text order.
proof fn lemma_insert_sorted(keys: Seq<Seq<char>>, rows: Seq<usize>, i: usize, p: int)
    requires
        0 <= p <= rows.len(),
        forall|a: int, b: int|
            0 <= a < b < rows.len() ==> text_lt(
                keys[#[trigger] rows[a] as int],
                keys[#[trigger] rows[b] as int],
            ),
        forall|q: int| 0 <= q < p ==> text_lt(keys[#[trigger] rows[q] as int], keys[i as int]),
        forall|q: int| p <= q < rows.len() ==> text_lt(keys[i as int], keys[#[trigger] rows[q] as int]),
    ensures
        forall|a: int, b: int|
            0 <= a < b < rows.insert(p, i).len() ==> text_lt(
                keys[#[trigger] rows.insert(p, i)[a] as int],
                keys[#[trigger] rows.insert(p, i)[b] as int],
            ),
{
    let ki = keys[i as int];
    let new = rows.insert(p, i);
    assert forall|a: int, b: int| 0 <= a < b < new.len() implies text_lt(
        keys[#[trigger] new[a] as int],
        keys[#[trigger] new[b] as int],
    ) by {
        if b < p {
            assert(new[a] == rows[a] && new[b] == rows[b]);
        } else if b == p {
            assert(new[a] == rows[a]);
        } else if a < p {
            assert(new[a] == rows[a] && new[b] == rows[b - 1]);
            lemma_text_lt_transitive(keys[rows[a] as int], ki, keys[rows[b - 1] as int]);
        } else if a == p {
            assert(new[b] == rows[b - 1]);
        } else {
            assert(new[a] == rows[a - 1] && new[b] == rows[b - 1]);
        }
    }
}

/// A row with a new call goes in at its place in text order.
proof fn lemma_new_row(keys: Seq<Seq<char>>, rows: Seq<usize>, i: usize, p: int)
    requires
        0 <= i < keys.len(),
        0 <= p <= rows.len(),
        lists_first_rows_upto(keys, rows, i as int),
        is_first(keys, i as int),
        forall|q: int| 0 <= q < p ==> text_lt(keys[#[trigger] rows[q] as int], keys[i as int]),
        p < rows.len() ==> !text_lt(keys[rows[p] as int], keys[i as int]),
    ensures
        lists_first_rows_upto(keys, rows.insert(p, i), i + 1),
{
    let new = rows.insert(p, i);
    lemma_after_insertion_point(keys, rows, i, p);
    lemma_insert_sorted(keys, rows, i, p);
    assert forall|k: int| 0 <= k < new.len() implies is_first(keys, #[trigger] new[k] as int)
        && new[k] < i + 1 by {
        if k < p {
            assert(new[k] == rows[k]);
        } else if k > p {
            assert(new[k] == rows[k - 1]);
        }
    }
    assert forall|j: int| 0 <= j < i + 1 implies #[trigger] call_listed(keys, new, keys[j]) by {
        if j == i {
            assert(new[p] == i);
            assert(keys[new[p] as int] == keys[j]);
        } else {
            assert(call_listed(keys, rows, keys[j]));
            let k0 = choose|k: int| 0 <= k < rows.len() && keys[#[trigger] rows[k] as int] == keys[j];
            if k0 < p {
                assert(new[k0] == rows[k0]);
            } else {
                assert(new[k0 + 1] == rows[k0]);
            }
        }
    }
}

/// The call of row `i` in one column.
fn call_at<T>(census: &Vec<Observation<T>>, i: usize, by_tx: bool) -> (r: &String)
    requires
        i < census@.len(),
    ensures
        r@ == column(census@, by_tx)[i as int],
{
    if by_tx {
        &census[i].tx_call
    } else {
        &census[i].rx_call
    }
}

/// Does a row before `end` carry the call of row `i` in this column?
fn call_seen_before<T>(census: &Vec<Observation<T>>, end: usize, i: usize, by_tx: bool) -> (r: bool)
    requires
        end <= census@.len(),
        i < census@.len(),
    ensures
        r == exists|j: int| 0 <= j < end && column(census@, by_tx)[j] == column(census@, by_tx)[i as int],
{
    let ghost keys = column(census@, by_tx);
    let mut j: usize = 0;
    while j < end
        invariant
            keys == column(census@, by_tx),
            j <= end <= census@.len(),
            i < census@.len(),
            forall|m: int| 0 <= m < j ==> keys[m] != keys[i as int],
        decreases end - j,
    {
        if *call_at(census, j, by_tx) == *call_at(census, i, by_tx) {
            return true;
        }
        j += 1;
    }
    false
}

/// Where the call of row `i` goes in `rows`: after every call that comes
/// before it.
fn insertion_point<T>(census: &Vec<Observation<T>>, rows: &Vec<usize>, i: usize, by_tx: bool) -> (p: usize)
    requires
        i < census@.len(),
        forall|k: int| 0 <= k < rows@.len() ==> #[trigger] rows@[k] < census@.len(),
    ensures
        p <= rows@.len(),
        forall|q: int|
            0 <= q < p ==> text_lt(
                column(census@, by_tx)[#[trigger] rows@[q] as int],
                column(census@, by_tx)[i as int],
            ),
        p < rows@.len() ==> !text_lt(
            column(census@, by_tx)[rows@[p as int] as int],
            column(census@, by_tx)[i as int],
        ),
{
    let ghost keys = column(census@, by_tx);
    let mut p: usize = 0;
    while p < rows.len()
        invariant
            keys == column(census@, by_tx),
            i < census@.len(),
            p <= rows@.len(),
            forall|k: int| 0 <= k < rows@.len() ==> #[trigger] rows@[k] < census@.len(),
            forall|q: int| 0 <= q < p ==> text_lt(keys[#[trigger] rows@[q] as int], keys[i as int]),
        decreases rows@.len() - p,
    {
        if !text_less(call_at(census, rows[p], by_tx), call_at(census, i, by_tx)) {
            return p;
        }
        p += 1;
    }
    p
}

/// The first row of each different call of one column, in text order of
/// the calls.
fn first_rows_in_order<T>(census: &Vec<Observation<T>>, by_tx: bool) -> (r: Vec<usize>)
    ensures
        lists_first_rows(column(census@, by_tx), r@),
{
    let ghost keys = column(census@, by_tx);
    let mut rows: Vec<usize> = Vec::new();
    let mut i: usize = 0;
    while i < census.len()
        invariant
            keys == column(census@, by_tx),
            keys.len() == census@.len(),
            i <= census@.len(),
            lists_first_rows_upto(keys, rows@, i as int),
        decreases census@.len() - i,
    {
        if call_seen_before(census, i, i, by_tx) {
            proof {
                lemma_seen_row(keys, rows@, i as int);
            }
        } else {
            let p = insertion_point(census, &rows, i, by_tx);
            proof {
                lemma_new_row(keys, rows@, i, p as int);
            }
            rows.insert(p, i);
        }
        i += 1;
    }
    rows
}

// ---------------------------------------------------------------------------
// Who heard whom.
// ---------------------------------------------------------------------------

/// The transmitters `rx` decoded, row by row, repeats included.
pub open spec fn heard_by<T>(s: Seq<Observation<T>>, rx: Seq<char>) -> Seq<Seq<char>>
    decreases s.len(),
{
    if s.len() == 0 {
        Seq::<Seq<char>>::empty()
    } else {
        let before = heard_by(s.drop_last(), rx);
        if s.last().rx_call@ == rx {
            before.push(s.last().tx_call@)
        } else {
            before
        }
    }
}

/// How many different transmitters `rx` decoded.
pub open spec fn heard_count<T>(s: Seq<Observation<T>>, rx: Seq<char>) -> nat {
    distinct_values(heard_by(s, rx))
}

/// Some row says `rx` decoded `tx`.
pub open spec fn decoded<T>(s: Seq<Observation<T>>, tx: Seq<char>, rx: Seq<char>) -> bool {
    exists|i: int| 0 <= i < s.len() && #[trigger] s[i].tx_call@ == tx && s[i].rx_call@ == rx
}

/// Some row was transmitted by `tx`.
pub open spec fn transmitted<T>(s: Seq<Observation<T>>, tx: Seq<char>) -> bool {
    exists|i: int| 0 <= i < s.len() && #[trigger] s[i].tx_call@ == tx
}

/// `rx` heard `t` exactly when some row says so.
proof fn lemma_heard_by_contains<T>(s: Seq<Observation<T>>, rx: Seq<char>, t: Seq<char>)
    ensures
        heard_by(s, rx).contains(t) <==> decoded(s, t, rx),
    decreases s.len(),
{
    if s.len() > 0 {
        let d = s.drop_last();
        let n = s.len() - 1;
        let hd = heard_by(d, rx);
        let h = heard_by(s, rx);
        lemma_heard_by_contains(d, rx, t);
        let last_says = s[n].tx_call@ == t && s[n].rx_call@ == rx;
        if decoded(s, t, rx) {
            let i = choose|i: int|
                0 <= i < s.len() && #[trigger] s[i].tx_call@ == t && s[i].rx_call@ == rx;
            if i < n {
                assert(d[i] == s[i]);
                assert(decoded(d, t, rx));
            }
        }
        if decoded(d, t, rx) {
            let i = choose|i: int|
                0 <= i < d.len() && #[trigger] d[i].tx_call@ == t && d[i].rx_call@ == rx;
            assert(s[i] == d[i]);
            assert(decoded(s, t, rx));
        }
        if last_says {
            assert(decoded(s, t, rx));
        }
        // decoded(s, t, rx) == (decoded(d, t, rx) || last_says)
        if s[n].rx_call@ == rx {
            assert(h == hd.push(s[n].tx_call@));
            if h.contains(t) {
                let k = choose|k: int| 0 <= k < h.len() && h[k] == t;
                if k < hd.len() {
                    assert(hd[k] == t);
                    assert(hd.contains(t));
                }
            }
            if hd.contains(t) {
                let k = choose|k: int| 0 <= k < hd.len() && hd[k] == t;
                assert(h[k] == t);
            }
            if last_says {
                assert(h[hd.len() as int] == t);
            }
        } else {
            assert(h == hd);
        }
    }
}

/// A receiver that heard anybody appears as a receiver.
proof fn lemma_heard_means_received<T>(s: Seq<Observation<T>>, rx: Seq<char>)
    requires
        heard_count(s, rx) > 0,
    ensures
        exists|i: int| 0 <= i < s.len() && #[trigger] s[i].rx_call@ == rx,
{
    let h = heard_by(s, rx);
    assert(h.len() > 0);
    assert(h.contains(h[0]));
    lemma_heard_by_contains(s, rx, h[0]);
    let i = choose|i: int| 0 <= i < s.len() && #[trigger] s[i].tx_call@ == h[0] && s[i].rx_call@ == rx;
    assert(s[i].rx_call@ == rx);
}

/// Does a row before `end` say `rx` decoded `tx`?
fn decoded_before<T>(census: &Vec<Observation<T>>, end: usize, tx: &String, rx: &String) -> (r: bool)
    requires
        end <= census@.len(),
    ensures
        r == decoded(census@.take(end as int), tx@, rx@),
{
    let ghost s = census@.take(end as int);
    let mut j: usize = 0;
    while j < end
        invariant
            s == census@.take(end as int),
            j <= end <= census@.len(),
            forall|m: int| 0 <= m < j ==> !(census@[m].tx_call@ == tx@ && census@[m].rx_call@ == rx@),
        decreases end - j,
    {
        if census[j].tx_call == *tx && census[j].rx_call == *rx {
            assert(s[j as int] == census@[j as int]);
            return true;
        }
        j += 1;
    }
    assert forall|m: int| 0 <= m < s.len() implies !(#[trigger] s[m].tx_call@ == tx@ && s[m].rx_call@
        == rx@) by {
        assert(s[m] == census@[m]);
    }
    false
}

/// How many different transmitters `rx` decoded in the census.
fn heard_count_of<T>(census: &Vec<Observation<T>>, rx: &String) -> (r: usize)
    ensures
        r == heard_count(census@, rx@),
{
    let mut count: usize = 0;
    let mut i: usize = 0;
    assert(census@.take(0) =~= Seq::<Observation<T>>::empty());
    while i < census.len()
        invariant
            i <= census@.len(),
            count == heard_count(census@.take(i as int), rx@),
            count <= i,
        decreases census@.len() - i,
    {
        let ghost before = census@.take(i as int);
        let ghost now = census@.take(i + 1);
        assert(now.drop_last() =~= before);
        assert(now.last() == census@[i as int]);
        if census[i].rx_call == *rx {
            let seen = decoded_before(census, i, &census[i].tx_call, rx);
            proof {
                lemma_heard_by_contains(before, rx@, census@[i as int].tx_call@);
                let h = heard_by(before, rx@);
                assert(heard_by(now, rx@) == h.push(census@[i as int].tx_call@));
                assert(h.push(census@[i as int].tx_call@).drop_last() =~= h);
            }
            if !seen {
                count += 1;
            }
        }
        i += 1;
    }
    assert(census@.take(census@.len() as int) =~= census@);
    count
}

// ---------------------------------------------------------------------------
// The negatives of one census.
// ---------------------------------------------------------------------------

/// One attempted path that did not decode, by the census rows that carry
/// it: `tx_row` is the first row the transmitter transmitted, `rx_row` the
/// first row the receiver received, and `rx_heard` how many different
/// transmitters the receiver decoded (the evidence that its silence means
/// something).
#[derive(Clone, Copy, PartialEq, Eq, Debug, Structural)]
pub struct NegativeCandidate {
    pub tx_row: usize,
    pub rx_row: usize,
    pub rx_heard: usize,
}

/// The transmitter a candidate names.
pub open spec fn tx_text<T>(s: Seq<Observation<T>>, c: NegativeCandidate) -> Seq<char> {
    s[c.tx_row as int].tx_call@
}

/// The receiver a candidate names.
pub open spec fn rx_text<T>(s: Seq<Observation<T>>, c: NegativeCandidate) -> Seq<char> {
    s[c.rx_row as int].rx_call@
}

/// `tx` transmitted, `rx` decoded at least [`MIN_RX_SPOTS_FOR_HEALTHY`]
/// different transmitters, they are different stations, and `rx` did not
/// decode `tx`.
pub open spec fn is_negative<T>(s: Seq<Observation<T>>, tx: Seq<char>, rx: Seq<char>) -> bool {
    &&& transmitted(s, tx)
    &&& heard_count(s, rx) >= MIN_RX_SPOTS_FOR_HEALTHY
    &&& tx != rx
    &&& !decoded(s, tx, rx)
}

/// `c` names a negative of `s` by the first rows of its two stations, with
/// the receiver's count of different transmitters heard.
pub open spec fn candidate_fits<T>(s: Seq<Observation<T>>, c: NegativeCandidate) -> bool {
    &&& c.tx_row < s.len()
    &&& c.rx_row < s.len()
    &&& is_first(column(s, true), c.tx_row as int)
    &&& is_first(column(s, false), c.rx_row as int)
    &&& is_negative(s, tx_text(s, c), rx_text(s, c))
    &&& c.rx_heard == heard_count(s, rx_text(s, c))
}

/// Candidates come out by receiver, then by transmitter, both in text
/// order.
pub open spec fn comes_before<T>(s: Seq<Observation<T>>, c: NegativeCandidate, d: NegativeCandidate) -> bool {
    ||| text_lt(rx_text(s, c), rx_text(s, d))
    ||| (rx_text(s, c) == rx_text(s, d) && text_lt(tx_text(s, c), tx_text(s, d)))
}

/// Some candidate of `out` names the pair `(tx, rx)`.
pub open spec fn names_pair<T>(
    s: Seq<Observation<T>>,
    out: Seq<NegativeCandidate>,
    tx: Seq<char>,
    rx: Seq<char>,
) -> bool {
    exists|k: int| 0 <= k < out.len() && tx_text(s, #[trigger] out[k]) == tx && rx_text(s, out[k]) == rx
}

/// One of the first `a` entries of `rows` carries the call `c`.
pub open spec fn listed_before(keys: Seq<Seq<char>>, rows: Seq<usize>, c: Seq<char>, a: int) -> bool {
    exists|k: int| 0 <= k < a && keys[#[trigger] rows[k] as int] == c
}

/// What the walk over the receivers has built after the first `a` of them.
pub open spec fn built_for_receivers<T>(
    s: Seq<Observation<T>>,
    rxs: Seq<usize>,
    out: Seq<NegativeCandidate>,
    a: int,
) -> bool {
    &&& forall|k: int| 0 <= k < out.len() ==> candidate_fits(s, #[trigger] out[k])
    &&& forall|j: int, k: int|
        0 <= j < k < out.len() ==> comes_before(s, #[trigger] out[j], #[trigger] out[k])
    &&& a < rxs.len() ==> forall|k: int|
        0 <= k < out.len() ==> text_lt(rx_text(s, #[trigger] out[k]), column(s, false)[rxs[a] as int])
    &&& forall|tx: Seq<char>, rx: Seq<char>|
        #[trigger] is_negative(s, tx, rx) && listed_before(column(s, false), rxs, rx, a)
            ==> names_pair(s, out, tx, rx)
}

/// What the walk over the transmitters has built for receiver `rxs[a]`
/// after the first `b` transmitters.
pub open spec fn built_for_transmitters<T>(
    s: Seq<Observation<T>>,
    txs: Seq<usize>,
    rxs: Seq<usize>,
    out: Seq<NegativeCandidate>,
    a: int,
    b: int,
) -> bool {
    let cur = column(s, false)[rxs[a] as int];
    &&& forall|k: int| 0 <= k < out.len() ==> candidate_fits(s, #[trigger] out[k])
    &&& forall|j: int, k: int|
        0 <= j < k < out.len() ==> comes_before(s, #[trigger] out[j], #[trigger] out[k])
    &&& forall|k: int|
        0 <= k < out.len() ==> text_lt(rx_text(s, #[trigger] out[k]), cur) || (rx_text(s, out[k])
            == cur && (b < txs.len() ==> text_lt(tx_text(s, out[k]), column(s, true)[txs[b] as int])))
    &&& forall|tx: Seq<char>, rx: Seq<char>|
        #[trigger] is_negative(s, tx, rx) && listed_before(column(s, false), rxs, rx, a)
            ==> names_pair(s, out, tx, rx)
    &&& forall|tx: Seq<char>|
        #[trigger] is_negative(s, tx, cur) && listed_before(column(s, true), txs, tx, b)
            ==> names_pair(s, out, tx, cur)
}

/// Starting on a receiver.
proof fn lemma_start_receiver<T>(
    s: Seq<Observation<T>>,
    txs: Seq<usize>,
    rxs: Seq<usize>,
    out: Seq<NegativeCandidate>,
    a: int,
)
    requires
        0 <= a < rxs.len(),
        built_for_receivers(s, rxs, out, a),
    ensures
        built_for_transmitters(s, txs, rxs, out, a, 0),
{
}

/// Passing over a transmitter that is the receiver itself or that the
/// receiver decoded.
proof fn lemma_pass_transmitter<T>(
    s: Seq<Observation<T>>,
    txs: Seq<usize>,
    rxs: Seq<usize>,
    out: Seq<NegativeCandidate>,
    a: int,
    b: int,
)
    requires
        0 <= a < rxs.len(),
        0 <= b < txs.len(),
        lists_first_rows(column(s, true), txs),
        built_for_transmitters(s, txs, rxs, out, a, b),
        column(s, true)[txs[b] as int] == column(s, false)[rxs[a] as int] || decoded(
            s,
            column(s, true)[txs[b] as int],
            column(s, false)[rxs[a] as int],
        ),
    ensures
        built_for_transmitters(s, txs, rxs, out, a, b + 1),
{
    let kt = column(s, true);
    let cur = column(s, false)[rxs[a] as int];
    assert forall|k: int| 0 <= k < out.len() implies text_lt(rx_text(s, #[trigger] out[k]), cur) || (
    rx_text(s, out[k]) == cur && (b + 1 < txs.len() ==> text_lt(
        tx_text(s, out[k]),
        kt[txs[b + 1] as int],
    ))) by {
        if rx_text(s, out[k]) == cur && b + 1 < txs.len() {
            lemma_text_lt_irreflexive(cur);
            assert(text_lt(kt[txs[b] as int], kt[txs[b + 1] as int]));
            lemma_text_lt_transitive(tx_text(s, out[k]), kt[txs[b] as int], kt[txs[b + 1] as int]);
        }
    }
    assert forall|tx: Seq<char>|
        #[trigger] is_negative(s, tx, cur) && listed_before(kt, txs, tx, b + 1) implies names_pair(
        s,
        out,
        tx,
        cur,
    ) by {
        let k = choose|k: int| 0 <= k < b + 1 && kt[#[trigger] txs[k] as int] == tx;
        if k < b {
            assert(listed_before(kt, txs, tx, b));
        }
    }
}

/// Adding the pair of transmitter `txs[b]` and receiver `rxs[a]`.
proof fn lemma_add_pair<T>(
    s: Seq<Observation<T>>,
    txs: Seq<usize>,
    rxs: Seq<usize>,
    out: Seq<NegativeCandidate>,
    a: int,
    b: int,
    c: NegativeCandidate,
)
    requires
        0 <= a < rxs.len(),
        0 <= b < txs.len(),
        lists_first_rows(column(s, true), txs),
        lists_first_rows(column(s, false), rxs),
        built_for_transmitters(s, txs, rxs, out, a, b),
        c.tx_row == txs[b],
        c.rx_row == rxs[a],
        c.rx_heard == heard_count(s, column(s, false)[rxs[a] as int]),
        c.rx_heard >= MIN_RX_SPOTS_FOR_HEALTHY,
        column(s, true)[txs[b] as int] != column(s, false)[rxs[a] as int],
        !decoded(s, column(s, true)[txs[b] as int], column(s, false)[rxs[a] as int]),
    ensures
        built_for_transmitters(s, txs, rxs, out.push(c), a, b + 1),
{
    let kt = column(s, true);
    let kr = column(s, false);
    let cur = kr[rxs[a] as int];
    let new = out.push(c);
    assert(txs[b] < s.len() && rxs[a] < s.len());
    assert(tx_text(s, c) == kt[txs[b] as int]);
    assert(rx_text(s, c) == cur);
    assert(s[c.tx_row as int].tx_call@ == kt[txs[b] as int]);
    assert(transmitted(s, tx_text(s, c)));
    assert(candidate_fits(s, c));
    assert forall|k: int| 0 <= k < new.len() implies candidate_fits(s, #[trigger] new[k]) by {
        if k < out.len() {
            assert(new[k] == out[k]);
        }
    }
    assert forall|j: int, k: int| 0 <= j < k < new.len() implies comes_before(
        s,
        #[trigger] new[j],
        #[trigger] new[k],
    ) by {
        assert(new[j] == out[j]);
        if k < out.len() {
            assert(new[k] == out[k]);
        }
    }
    assert forall|k: int| 0 <= k < new.len() implies text_lt(rx_text(s, #[trigger] new[k]), cur) || (
    rx_text(s, new[k]) == cur && (b + 1 < txs.len() ==> text_lt(
        tx_text(s, new[k]),
        kt[txs[b + 1] as int],
    ))) by {
        if b + 1 < txs.len() {
            assert(text_lt(kt[txs[b] as int], kt[txs[b + 1] as int]));
            if k < out.len() {
                assert(new[k] == out[k]);
                if rx_text(s, out[k]) == cur {
                    lemma_text_lt_irreflexive(cur);
                    lemma_text_lt_transitive(
                        tx_text(s, out[k]),
                        kt[txs[b] as int],
                        kt[txs[b + 1] as int],
                    );
                }
            }
        }
    }
    assert forall|tx: Seq<char>, rx: Seq<char>|
        #[trigger] is_negative(s, tx, rx) && listed_before(kr, rxs, rx, a) implies names_pair(
        s,
        new,
        tx,
        rx,
    ) by {
        assert(names_pair(s, out, tx, rx));
        let k = choose|k: int|
            0 <= k < out.len() && tx_text(s, #[trigger] out[k]) == tx && rx_text(s, out[k]) == rx;
        assert(new[k] == out[k]);
    }
    assert forall|tx: Seq<char>|
        #[trigger] is_negative(s, tx, cur) && listed_before(kt, txs, tx, b + 1) implies names_pair(
        s,
        new,
        tx,
        cur,
    ) by {
        let k = choose|k: int| 0 <= k < b + 1 && kt[#[trigger] txs[k] as int] == tx;
        if k < b {
            assert(listed_before(kt, txs, tx, b));
            assert(names_pair(s, out, tx, cur));
            let m = choose|m: int|
                0 <= m < out.len() && tx_text(s, #[trigger] out[m]) == tx && rx_text(s, out[m]) == cur;
            assert(new[m] == out[m]);
        } else {
            assert(new[out.len() as int] == c);
        }
    }
}

/// Finishing a healthy receiver: every transmitter has been considered.
proof fn lemma_finish_receiver<T>(
    s: Seq<Observation<T>>,
    txs: Seq<usize>,
    rxs: Seq<usize>,
    out: Seq<NegativeCandidate>,
    a: int,
)
    requires
        0 <= a < rxs.len(),
        lists_first_rows(column(s, true), txs),
        lists_first_rows(column(s, false), rxs),
        built_for_transmitters(s, txs, rxs, out, a, txs.len() as int),
    ensures
        built_for_receivers(s, rxs, out, a + 1),
{
    let kt = column(s, true);
    let kr = column(s, false);
    let cur = kr[rxs[a] as int];
    if a + 1 < rxs.len() {
        assert(text_lt(cur, kr[rxs[a + 1] as int]));
        assert forall|k: int| 0 <= k < out.len() implies text_lt(
            rx_text(s, #[trigger] out[k]),
            kr[rxs[a + 1] as int],
        ) by {
            if rx_text(s, out[k]) != cur {
                lemma_text_lt_transitive(rx_text(s, out[k]), cur, kr[rxs[a + 1] as int]);
            }
        }
    }
    assert forall|tx: Seq<char>, rx: Seq<char>|
        #[trigger] is_negative(s, tx, rx) && listed_before(kr, rxs, rx, a + 1) implies names_pair(
        s,
        out,
        tx,
        rx,
    ) by {
        let k = choose|k: int| 0 <= k < a + 1 && kr[#[trigger] rxs[k] as int] == rx;
        if k < a {
            assert(listed_before(kr, rxs, rx, a));
        } else {
            let i = choose|i: int| 0 <= i < s.len() && #[trigger] s[i].tx_call@ == tx;
            assert(kt[i] == tx);
            assert(call_listed(kt, txs, kt[i]));
            let m = choose|m: int| 0 <= m < txs.len() && kt[#[trigger] txs[m] as int] == kt[i];
            assert(listed_before(kt, txs, tx, txs.len() as int));
        }
    }
}

/// Passing over a receiver that did not decode enough different
/// transmitters.
proof fn lemma_skip_receiver<T>(
    s: Seq<Observation<T>>,
    rxs: Seq<usize>,
    out: Seq<NegativeCandidate>,
    a: int,
)
    requires
        0 <= a < rxs.len(),
        lists_first_rows(column(s, false), rxs),
        built_for_receivers(s, rxs, out, a),
        heard_count(s, column(s, false)[rxs[a] as int]) < MIN_RX_SPOTS_FOR_HEALTHY,
    ensures
        built_for_receivers(s, rxs, out, a + 1),
{
    let kr = column(s, false);
    let cur = kr[rxs[a] as int];
    if a + 1 < rxs.len() {
        assert(text_lt(cur, kr[rxs[a + 1] as int]));
        assert forall|k: int| 0 <= k < out.len() implies text_lt(
            rx_text(s, #[trigger] out[k]),
            kr[rxs[a + 1] as int],
        ) by {
            lemma_text_lt_transitive(rx_text(s, out[k]), cur, kr[rxs[a + 1] as int]);
        }
    }
    assert forall|tx: Seq<char>, rx: Seq<char>|
        #[trigger] is_negative(s, tx, rx) && listed_before(kr, rxs, rx, a + 1) implies names_pair(
        s,
        out,
        tx,
        rx,
    ) by {
        let k = choose|k: int| 0 <= k < a + 1 && kr[#[trigger] rxs[k] as int] == rx;
        if k < a {
            assert(listed_before(kr, rxs, rx, a));
        }
    }
}

/// Once every receiver has been walked, every negative is named.
proof fn lemma_all_receivers<T>(s: Seq<Observation<T>>, rxs: Seq<usize>, out: Seq<NegativeCandidate>)
    requires
        lists_first_rows(column(s, false), rxs),
        built_for_receivers(s, rxs, out, rxs.len() as int),
    ensures
        forall|tx: Seq<char>, rx: Seq<char>|
            #[trigger] is_negative(s, tx, rx) ==> names_pair(s, out, tx, rx),
{
    let kr = column(s, false);
    assert forall|tx: Seq<char>, rx: Seq<char>| #[trigger] is_negative(s, tx, rx) implies names_pair(
        s,
        out,
        tx,
        rx,
    ) by {
        lemma_heard_means_received(s, rx);
        let i = choose|i: int| 0 <= i < s.len() && #[trigger] s[i].rx_call@ == rx;
        assert(kr[i] == rx);
        assert(call_listed(kr, rxs, kr[i]));
        let m = choose|m: int| 0 <= m < rxs.len() && kr[#[trigger] rxs[m] as int] == kr[i];
        assert(listed_before(kr, rxs, rx, rxs.len() as int));
    }
}

/// The negatives of one cycle-and-band census: every pair of a
/// transmitter that was on the air and a healthy receiver (one that decoded
/// at least [`MIN_RX_SPOTS_FOR_HEALTHY`] different transmitters) that did
/// not decode it, each once, by receiver and then transmitter in text
/// order.
///
/// The list is determined by this: see [`law_negatives_are_determined`].
pub fn negative_candidates<T>(census: &Vec<Observation<T>>) -> (r: Vec<NegativeCandidate>)
    ensures
        lists_negatives(census@, r@),
{
    let txs = first_rows_in_order(census, true);
    let rxs = first_rows_in_order(census, false);
    let ghost s = census@;
    let mut out: Vec<NegativeCandidate> = Vec::new();
    let mut a: usize = 0;
    while a < rxs.len()
        invariant
            s == census@,
            lists_first_rows(column(s, true), txs@),
            lists_first_rows(column(s, false), rxs@),
            a <= rxs@.len(),
            built_for_receivers(s, rxs@, out@, a as int),
        decreases rxs@.len() - a,
    {
        let rx_row = rxs[a];
        let rx = &census[rx_row].rx_call;
        let heard = heard_count_of(census, rx);
        if heard >= MIN_RX_SPOTS_FOR_HEALTHY {
            proof {
                lemma_start_receiver(s, txs@, rxs@, out@, a as int);
            }
            let mut b: usize = 0;
            while b < txs.len()
                invariant
                    s == census@,
                    lists_first_rows(column(s, true), txs@),
                    lists_first_rows(column(s, false), rxs@),
                    a < rxs@.len(),
                    rx_row == rxs@[a as int],
                    rx_row < s.len(),
                    rx@ == column(s, false)[rx_row as int],
                    heard == heard_count(s, rx@),
                    heard >= MIN_RX_SPOTS_FOR_HEALTHY,
                    b <= txs@.len(),
                    built_for_transmitters(s, txs@, rxs@, out@, a as int, b as int),
                decreases txs@.len() - b,
            {
                let tx_row = txs[b];
                let tx = &census[tx_row].tx_call;
                let same = *tx == *rx;
                if !same && !decoded_before(census, census.len(), tx, rx) {
                    let c = NegativeCandidate { tx_row, rx_row, rx_heard: heard };
                    proof {
                        assert(census@.take(census@.len() as int) =~= census@);
                        lemma_add_pair(s, txs@, rxs@, out@, a as int, b as int, c);
                    }
                    out.push(c);
                } else {
                    proof {
                        assert(census@.take(census@.len() as int) =~= census@);
                        lemma_pass_transmitter(s, txs@, rxs@, out@, a as int, b as int);
                    }
                }
                b += 1;
            }
            proof {
                lemma_finish_receiver(s, txs@, rxs@, out@, a as int);
            }
        } else {
            proof {
                lemma_skip_receiver(s, rxs@, out@, a as int);
            }
        }
        a += 1;
    }
    proof {
        lemma_all_receivers(s, rxs@, out@);
    }
    out
}

/// Two lists in the same strict order holding the same elements are the
/// same list.
pub proof fn lemma_sorted_lists_agree<A>(r1: Seq<A>, r2: Seq<A>, lt: spec_fn(A, A) -> bool)
    requires
        forall|a: A| !#[trigger] lt(a, a),
        forall|a: A, b: A, c: A| #[trigger] lt(a, b) && #[trigger] lt(b, c) ==> lt(a, c),
        forall|j: int, k: int| 0 <= j < k < r1.len() ==> lt(#[trigger] r1[j], #[trigger] r1[k]),
        forall|j: int, k: int| 0 <= j < k < r2.len() ==> lt(#[trigger] r2[j], #[trigger] r2[k]),
        forall|k: int| 0 <= k < r1.len() ==> r2.contains(#[trigger] r1[k]),
        forall|k: int| 0 <= k < r2.len() ==> r1.contains(#[trigger] r2[k]),
    ensures
        r1 == r2,
    decreases r1.len(),
{
    if r1.len() == 0 {
        if r2.len() > 0 {
            assert(r1.contains(r2[0]));
        }
        assert(r1 =~= r2);
    } else {
        if r2.len() == 0 {
            assert(r2.contains(r1[0]));
        }
        let a = r1[0];
        let b = r2[0];
        assert(r2.contains(a));
        assert(r1.contains(b));
        let m = choose|m: int| 0 <= m < r2.len() && r2[m] == a;
        let n = choose|n: int| 0 <= n < r1.len() && r1[n] == b;
        if m > 0 && n > 0 {
            assert(lt(r2[0], r2[m]));
            assert(lt(r1[0], r1[n]));
            assert(lt(a, a));
        }
        assert(a == b);
        let t1 = r1.drop_first();
        let t2 = r2.drop_first();
        assert forall|k: int| 0 <= k < t1.len() implies t2.contains(#[trigger] t1[k]) by {
            let x = t1[k];
            assert(x == r1[k + 1]);
            assert(lt(r1[0], r1[k + 1]));
            assert(r2.contains(x));
            let j = choose|j: int| 0 <= j < r2.len() && r2[j] == x;
            assert(j != 0);
            assert(t2[j - 1] == x);
        }
        assert forall|k: int| 0 <= k < t2.len() implies t1.contains(#[trigger] t2[k]) by {
            let x = t2[k];
            assert(x == r2[k + 1]);
            assert(lt(r2[0], r2[k + 1]));
            assert(r1.contains(x));
            let j = choose|j: int| 0 <= j < r1.len() && r1[j] == x;
            assert(j != 0);
            assert(t1[j - 1] == x);
        }
        assert forall|j: int, k: int| 0 <= j < k < t1.len() implies lt(
            #[trigger] t1[j],
            #[trigger] t1[k],
        ) by {
            assert(t1[j] == r1[j + 1] && t1[k] == r1[k + 1]);
        }
        assert forall|j: int, k: int| 0 <= j < k < t2.len() implies lt(
            #[trigger] t2[j],
            #[trigger] t2[k],
        ) by {
            assert(t2[j] == r2[j + 1] && t2[k] == r2[k + 1]);
        }
        lemma_sorted_lists_agree(t1, t2, lt);
        assert(r1 =~= seq![a] + t1);
        assert(r2 =~= seq![b] + t2);
    }
}

/// Two candidates that fit a census and name the same pair are the same
/// candidate.
proof fn lemma_candidate_determined<T>(s: Seq<Observation<T>>, c: NegativeCandidate, d: NegativeCandidate)
    requires
        candidate_fits(s, c),
        candidate_fits(s, d),
        tx_text(s, c) == tx_text(s, d),
        rx_text(s, c) == rx_text(s, d),
    ensures
        c == d,
{
    let kt = column(s, true);
    let kr = column(s, false);
    assert(kt[c.tx_row as int] == kt[d.tx_row as int]);
    assert(kr[c.rx_row as int] == kr[d.rx_row as int]);
}

/// What a list of negative candidates promises about a census: each
/// candidate fits it, they come in order, and every negative is named.
pub open spec fn lists_negatives<T>(s: Seq<Observation<T>>, r: Seq<NegativeCandidate>) -> bool {
    &&& forall|k: int| 0 <= k < r.len() ==> candidate_fits(s, #[trigger] r[k])
    &&& forall|j: int, k: int| 0 <= j < k < r.len() ==> comes_before(s, #[trigger] r[j], #[trigger] r[k])
    &&& forall|tx: Seq<char>, rx: Seq<char>| #[trigger] is_negative(s, tx, rx) ==> names_pair(s, r, tx, rx)
}

/// The negatives of a census are determined: two lists that both name every
/// negative, each by the first rows of its two stations, in order of
/// receiver and then transmitter, are the same list.
pub proof fn law_negatives_are_determined<T>(
    s: Seq<Observation<T>>,
    r1: Seq<NegativeCandidate>,
    r2: Seq<NegativeCandidate>,
)
    requires
        lists_negatives(s, r1),
        lists_negatives(s, r2),
    ensures
        r1 == r2,
{
    let lt = |c: NegativeCandidate, d: NegativeCandidate| comes_before(s, c, d);
    assert forall|a: NegativeCandidate| !#[trigger] lt(a, a) by {
        lemma_text_lt_irreflexive(rx_text(s, a));
        lemma_text_lt_irreflexive(tx_text(s, a));
    }
    assert forall|a: NegativeCandidate, b: NegativeCandidate, c: NegativeCandidate|
        #[trigger] lt(a, b) && #[trigger] lt(b, c) implies lt(a, c) by {
        let (ra, rb, rc) = (rx_text(s, a), rx_text(s, b), rx_text(s, c));
        let (ta, tb, tc) = (tx_text(s, a), tx_text(s, b), tx_text(s, c));
        if text_lt(ra, rb) && text_lt(rb, rc) {
            lemma_text_lt_transitive(ra, rb, rc);
        } else if text_lt(ra, rb) {
            assert(rb == rc);
        } else if text_lt(rb, rc) {
            assert(ra == rb);
        } else {
            lemma_text_lt_transitive(ta, tb, tc);
        }
    }
    assert forall|k: int| 0 <= k < r1.len() implies r2.contains(#[trigger] r1[k]) by {
        let c = r1[k];
        assert(candidate_fits(s, c));
        assert(is_negative(s, tx_text(s, c), rx_text(s, c)));
        let m = choose|m: int|
            0 <= m < r2.len() && tx_text(s, #[trigger] r2[m]) == tx_text(s, c) && rx_text(s, r2[m])
                == rx_text(s, c);
        lemma_candidate_determined(s, c, r2[m]);
    }
    assert forall|k: int| 0 <= k < r2.len() implies r1.contains(#[trigger] r2[k]) by {
        let c = r2[k];
        assert(candidate_fits(s, c));
        assert(is_negative(s, tx_text(s, c), rx_text(s, c)));
        let m = choose|m: int|
            0 <= m < r1.len() && tx_text(s, #[trigger] r1[m]) == tx_text(s, c) && rx_text(s, r1[m])
                == rx_text(s, c);
        lemma_candidate_determined(s, c, r1[m]);
    }
    lemma_sorted_lists_agree(r1, r2, lt);
}

} // verus!
