//! Station bookkeeping for a calibration corpus: which rows are the same
//! observation twice, how many distinct stations a set of rows holds, which
//! stations appear often enough for a fixed effect to be estimated, and the
//! text a spot's two-minute cycle is written and read back in.
use vstd::prelude::*;

use crate::text::{
    all_digits, chars_of, decimal_digits, format_integer, formatted_integer, lemma_parse_digits,
    lemma_split_join, lemma_split_single, lemma_zero_padded, parse_i32_result, parse_u32_result,
    parsed_i32_result, parsed_u32_result, split, split_on, string_of, zero_padded, IntErrorKind,
};

verus! {

/// Minimum spots a station must appear in before its fixed effect is
/// estimated. A station seen twice contributes two residuals and one unknown,
/// so its effect absorbs its own residual almost exactly and tells the fit
/// nothing about the physics.
pub const MIN_SPOTS_PER_STATION: usize = 10;

/// The text of each string.
pub open spec fn views(s: Seq<String>) -> Seq<Seq<char>> {
    s.map_values(|x: String| x@)
}

/// How many different values `s` holds.
pub open spec fn distinct_values<K>(s: Seq<K>) -> nat
    decreases s.len(),
{
    if s.len() == 0 {
        0
    } else {
        distinct_values(s.drop_last()) + if s.drop_last().contains(s.last()) {
            0nat
        } else {
            1nat
        }
    }
}

/// Does `keys` hold `key` before position `end`?
fn seen_before(keys: &Vec<String>, end: usize, key: &String) -> (r: bool)
    requires
        end <= keys@.len(),
    ensures
        r == views(keys@).take(end as int).contains(key@),
{
    let mut j: usize = 0;
    while j < end
        invariant
            j <= end <= keys@.len(),
            forall|k: int| 0 <= k < j ==> keys@[k]@ != key@,
        decreases end - j,
    {
        if keys[j] == *key {
            assert(views(keys@).take(end as int)[j as int] == key@);
            return true;
        }
        j += 1;
    }
    assert forall|k: int| 0 <= k < end implies views(keys@).take(end as int)[k] != key@ by {
        assert(views(keys@).take(end as int)[k] == keys@[k]@);
    }
    false
}

/// How many different strings `keys` holds.
pub fn distinct_count(keys: &Vec<String>) -> (r: usize)
    ensures
        r == distinct_values(views(keys@)),
{
    let n = keys.len();
    let mut count: usize = 0;
    let mut i: usize = 0;
    assert(views(keys@).take(0) =~= Seq::<Seq<char>>::empty());
    while i < n
        invariant
            n == keys@.len(),
            i <= n,
            count == distinct_values(views(keys@).take(i as int)),
            count <= i,
        decreases n - i,
    {
        let seen = seen_before(keys, i, &keys[i]);
        let ghost prefix = views(keys@).take(i as int + 1);
        assert(prefix.drop_last() =~= views(keys@).take(i as int));
        assert(prefix.last() == keys@[i as int]@);
        if !seen {
            count += 1;
        }
        i += 1;
    }
    assert(views(keys@).take(n as int) =~= views(keys@));
    count
}

// ---------------------------------------------------------------------------
// Stations that appear often enough.
// ---------------------------------------------------------------------------

/// One row as the station bookkeeping sees it: who transmitted, who
/// received, and the row itself.
#[derive(Debug)]
pub struct Observation<T> {
    pub tx_call: String,
    pub rx_call: String,
    pub item: T,
}

/// How many rows of `s` `call` transmitted.
pub open spec fn tx_count<T>(s: Seq<Observation<T>>, call: Seq<char>) -> nat
    decreases s.len(),
{
    if s.len() == 0 {
        0
    } else {
        tx_count(s.drop_last(), call) + if s.last().tx_call@ == call {
            1nat
        } else {
            0nat
        }
    }
}

/// How many rows of `s` `call` received.
pub open spec fn rx_count<T>(s: Seq<Observation<T>>, call: Seq<char>) -> nat
    decreases s.len(),
{
    if s.len() == 0 {
        0
    } else {
        rx_count(s.drop_last(), call) + if s.last().rx_call@ == call {
            1nat
        } else {
            0nat
        }
    }
}

/// Both stations of `o` appear in at least `MIN_SPOTS_PER_STATION` rows of
/// `s`, at their own end.
pub open spec fn well_attested<T>(s: Seq<Observation<T>>, o: Observation<T>) -> bool {
    tx_count(s, o.tx_call@) >= MIN_SPOTS_PER_STATION && rx_count(s, o.rx_call@)
        >= MIN_SPOTS_PER_STATION
}

/// The elements of `s` whose flag is set, in order.
pub open spec fn kept_by<T>(s: Seq<T>, keep: Seq<bool>) -> Seq<T>
    decreases s.len(),
{
    if s.len() == 0 {
        Seq::<T>::empty()
    } else {
        let before = kept_by(s.drop_last(), keep.drop_last());
        if keep.last() {
            before.push(s.last())
        } else {
            before
        }
    }
}

/// One pass of the filter: the rows of `s` whose stations are both well
/// attested in `s`.
pub open spec fn one_pass<T>(s: Seq<Observation<T>>) -> Seq<Observation<T>> {
    kept_by(s, Seq::new(s.len(), |i: int| well_attested(s, s[i])))
}

/// The filter run to its fixed point.
pub open spec fn identifiable<T>(s: Seq<Observation<T>>) -> Seq<Observation<T>>
    decreases s.len(),
{
    let p = one_pass(s);
    if p.len() >= s.len() {
        s
    } else {
        identifiable(p)
    }
}

/// A filter keeps at most what it is given, and keeps everything only when
/// every flag is set.
proof fn lemma_kept_by_len<T>(s: Seq<T>, keep: Seq<bool>)
    requires
        keep.len() == s.len(),
    ensures
        kept_by(s, keep).len() <= s.len(),
        kept_by(s, keep).len() == s.len() ==> kept_by(s, keep) == s && forall|i: int|
            0 <= i < s.len() ==> #[trigger] keep[i],
        forall|i: int|
            0 <= i < kept_by(s, keep).len() ==> s.contains(#[trigger] kept_by(s, keep)[i]),
    decreases s.len(),
{
    if s.len() > 0 {
        lemma_kept_by_len(s.drop_last(), keep.drop_last());
        let before = kept_by(s.drop_last(), keep.drop_last());
        if kept_by(s, keep).len() == s.len() {
            assert(keep.last());
            assert(before == s.drop_last());
            assert(s.drop_last().push(s.last()) =~= s);
            assert forall|i: int| 0 <= i < s.len() implies #[trigger] keep[i] by {
                if i < s.len() - 1 {
                    assert(keep.drop_last()[i] == keep[i]);
                }
            }
        }
        assert forall|i: int| 0 <= i < kept_by(s, keep).len() implies s.contains(
            #[trigger] kept_by(s, keep)[i],
        ) by {
            if i < before.len() {
                assert(kept_by(s, keep)[i] == before[i]);
                let j = choose|j: int| 0 <= j < s.drop_last().len() && s.drop_last()[j] == before[i];
                assert(s[j] == before[i]);
            } else {
                assert(kept_by(s, keep)[i] == s[s.len() - 1]);
            }
        }
    }
}

/// How many rows of `spots` `call` transmitted.
fn count_tx<T>(spots: &Vec<Observation<T>>, call: &String) -> (r: usize)
    ensures
        r == tx_count(spots@, call@),
{
    let mut count: usize = 0;
    let mut j: usize = 0;
    assert(spots@.take(0) =~= Seq::<Observation<T>>::empty());
    while j < spots.len()
        invariant
            j <= spots@.len(),
            count == tx_count(spots@.take(j as int), call@),
            count <= j,
        decreases spots@.len() - j,
    {
        assert(spots@.take(j + 1).drop_last() =~= spots@.take(j as int));
        if spots[j].tx_call == *call {
            count += 1;
        }
        j += 1;
    }
    assert(spots@.take(spots@.len() as int) =~= spots@);
    count
}

/// How many rows of `spots` `call` received.
fn count_rx<T>(spots: &Vec<Observation<T>>, call: &String) -> (r: usize)
    ensures
        r == rx_count(spots@, call@),
{
    let mut count: usize = 0;
    let mut j: usize = 0;
    assert(spots@.take(0) =~= Seq::<Observation<T>>::empty());
    while j < spots.len()
        invariant
            j <= spots@.len(),
            count == rx_count(spots@.take(j as int), call@),
            count <= j,
        decreases spots@.len() - j,
    {
        assert(spots@.take(j + 1).drop_last() =~= spots@.take(j as int));
        if spots[j].rx_call == *call {
            count += 1;
        }
        j += 1;
    }
    assert(spots@.take(spots@.len() as int) =~= spots@);
    count
}

/// For each row, whether both of its stations are well attested.
fn attested_flags<T>(spots: &Vec<Observation<T>>) -> (r: Vec<bool>)
    ensures
        r@ == Seq::new(spots@.len(), |i: int| well_attested(spots@, spots@[i])),
{
    let mut flags: Vec<bool> = Vec::new();
    let mut i: usize = 0;
    while i < spots.len()
        invariant
            i <= spots@.len(),
            flags@ == Seq::new(i as nat, |k: int| well_attested(spots@, spots@[k])),
        decreases spots@.len() - i,
    {
        let tx = count_tx(spots, &spots[i].tx_call);
        let rx = count_rx(spots, &spots[i].rx_call);
        flags.push(tx >= MIN_SPOTS_PER_STATION && rx >= MIN_SPOTS_PER_STATION);
        i += 1;
        assert(flags@ =~= Seq::new(i as nat, |k: int| well_attested(spots@, spots@[k])));
    }
    flags
}

/// The items whose flag is set, in order.
pub fn keep_flagged<T>(items: Vec<T>, keep: &Vec<bool>) -> (r: Vec<T>)
    requires
        keep@.len() == items@.len(),
    ensures
        r@ == kept_by(items@, keep@),
{
    let ghost all = items@;
    let n = items.len();
    let mut rest = items;
    let mut reversed: Vec<T> = Vec::new();
    while rest.len() > 0
        invariant
            all.len() == n,
            rest@.len() <= n,
            rest@ == all.take(rest@.len() as int),
            reversed@ == all.skip(rest@.len() as int).reverse(),
        decreases rest@.len(),
    {
        let ghost before = rest@.len() as int;
        let x = rest.pop().unwrap();
        assert(x == all[before - 1]);
        reversed.push(x);
        assert(rest@ =~= all.take(before - 1));
        assert(reversed@ =~= all.skip(before - 1).reverse());
    }
    let mut out: Vec<T> = Vec::new();
    let mut i: usize = 0;
    assert(all.take(0) =~= Seq::<T>::empty());
    while reversed.len() > 0
        invariant
            all.len() == n,
            keep@.len() == n,
            i + reversed@.len() == n,
            reversed@ == all.skip(i as int).reverse(),
            out@ == kept_by(all.take(i as int), keep@.take(i as int)),
        decreases reversed@.len(),
    {
        let x = reversed.pop().unwrap();
        assert(x == all[i as int]);
        assert(all.take(i + 1).drop_last() =~= all.take(i as int));
        assert(keep@.take(i + 1).drop_last() =~= keep@.take(i as int));
        if keep[i] {
            out.push(x);
        }
        i += 1;
        assert(reversed@ =~= all.skip(i as int).reverse());
    }
    assert(all.take(n as int) =~= all);
    assert(keep@.take(n as int) =~= keep@);
    out
}

/// Drop spots whose TX or RX station appears fewer than
/// [`MIN_SPOTS_PER_STATION`] times, iterating until the corpus is stable,
/// and count what went in `station_too_rare`.
///
/// One pass is not enough: removing a rare receiver's spots can take a
/// transmitter below the threshold, which can take another receiver below it.
pub fn require_identifiable_stations<T>(
    spots: Vec<Observation<T>>,
    station_too_rare: &mut usize,
) -> (r: Vec<Observation<T>>)
    requires
        *old(station_too_rare) + spots@.len() <= usize::MAX,
    ensures
        r@ == identifiable(spots@),
        *final(station_too_rare) == *old(station_too_rare) + spots@.len() - r@.len(),
        forall|k: int|
            0 <= k < r@.len() ==> tx_count(r@, (#[trigger] r@[k]).tx_call@) >= MIN_SPOTS_PER_STATION
                && rx_count(r@, r@[k].rx_call@) >= MIN_SPOTS_PER_STATION,
        forall|k: int| 0 <= k < r@.len() ==> spots@.contains(#[trigger] r@[k]),
        (forall|k: int|
            0 <= k < spots@.len() ==> tx_count(spots@, (#[trigger] spots@[k]).tx_call@)
                >= MIN_SPOTS_PER_STATION && rx_count(spots@, spots@[k].rx_call@)
                >= MIN_SPOTS_PER_STATION) ==> r@ == spots@,
        // Nothing is removed that some selection of the rows, counted on
        // its own, could keep.
        forall|m: Seq<bool>|
            m.len() == spots@.len() && attested_per_role(#[trigger] kept_by(spots@, m)) ==> forall|
                k: int,
            | 0 <= k < kept_by(spots@, m).len() ==> r@.contains(#[trigger] kept_by(spots@, m)[k]),
{
    let ghost given = spots@;
    let ghost start = *station_too_rare;
    let mut rows = spots;
    loop
        invariant
            identifiable(rows@) == identifiable(given),
            rows@.len() <= given.len(),
            *station_too_rare == start + given.len() - rows@.len(),
            start + given.len() <= usize::MAX,
            given == spots@,
            start == *old(station_too_rare),
        decreases rows@.len(),
    {
        let flags = attested_flags(&rows);
        let before = rows.len();
        let ghost prior = rows@;
        proof {
            lemma_kept_by_len(prior, flags@);
            assert(flags@ == Seq::new(prior.len(), |i: int| well_attested(prior, prior[i])));
            assert(kept_by(prior, flags@) == one_pass(prior));
        }
        rows = keep_flagged(rows, &flags);
        let removed = before - rows.len();
        *station_too_rare += removed;
        if removed == 0 {
            assert(rows@ == prior);
            assert(identifiable(prior) == prior);
            proof {
                law_kept_stations_counted_per_role(given);
                law_attested_rows_are_all_kept(given);
                assert forall|m: Seq<bool>|
                    m.len() == given.len() && attested_per_role(#[trigger] kept_by(given, m)) implies forall|
                        k: int,
                    | 0 <= k < kept_by(given, m).len() ==> rows@.contains(
                        #[trigger] kept_by(given, m)[k],
                    ) by {
                    law_filter_keeps_every_attested_selection(given, kept_by(given, m));
                }
            }
            return rows;
        }
        assert(identifiable(prior) == identifiable(rows@));
    }
}

/// After the filter, every remaining spot's transmitter and receiver each
/// appear at least [`MIN_SPOTS_PER_STATION`] times in what remains, and
/// every remaining spot was in the input.
pub proof fn law_identifiable_stations<T>(s: Seq<Observation<T>>)
    ensures
        forall|i: int|
            0 <= i < identifiable(s).len() ==> well_attested(
                identifiable(s),
                #[trigger] identifiable(s)[i],
            ),
        forall|i: int| 0 <= i < identifiable(s).len() ==> s.contains(#[trigger] identifiable(s)[i]),
        identifiable(s).len() <= s.len(),
    decreases s.len(),
{
    let flags = Seq::new(s.len(), |i: int| well_attested(s, s[i]));
    lemma_kept_by_len(s, flags);
    let p = one_pass(s);
    if p.len() >= s.len() {
        assert forall|i: int| 0 <= i < s.len() implies well_attested(s, #[trigger] s[i]) by {
            assert(flags[i]);
        }
        assert forall|i: int| 0 <= i < s.len() implies s.contains(#[trigger] s[i]) by {
        }
    } else {
        law_identifiable_stations(p);
        assert forall|i: int| 0 <= i < identifiable(p).len() implies s.contains(
            #[trigger] identifiable(p)[i],
        ) by {
            let x = identifiable(p)[i];
            assert(p.contains(x));
            let j = choose|j: int| 0 <= j < p.len() && p[j] == x;
            assert(s.contains(p[j]));
        }
    }
}


/// Every station the filter keeps is counted in the column it stands in:
/// each kept row's transmitter transmitted in at least
/// [`MIN_SPOTS_PER_STATION`] kept rows, and its receiver received in at
/// least that many. A station's rows at the other end do not count.
pub proof fn law_kept_stations_counted_per_role<T>(s: Seq<Observation<T>>)
    ensures
        forall|k: int|
            0 <= k < identifiable(s).len() ==> tx_count(
                identifiable(s),
                (#[trigger] identifiable(s)[k]).tx_call@,
            ) >= MIN_SPOTS_PER_STATION && rx_count(identifiable(s), identifiable(s)[k].rx_call@)
                >= MIN_SPOTS_PER_STATION,
        forall|k: int| 0 <= k < identifiable(s).len() ==> s.contains(#[trigger] identifiable(s)[k]),
{
    law_identifiable_stations(s);
    let x = identifiable(s);
    assert forall|k: int| 0 <= k < x.len() implies tx_count(x, (#[trigger] x[k]).tx_call@)
        >= MIN_SPOTS_PER_STATION && rx_count(x, x[k].rx_call@) >= MIN_SPOTS_PER_STATION by {
        assert(well_attested(x, x[k]));
    }
}

/// Rows whose stations all already appear often enough, each in its own
/// column, are kept whole: the filter removes nothing it need not.
pub proof fn law_attested_rows_are_all_kept<T>(s: Seq<Observation<T>>)
    ensures
        (forall|k: int|
            0 <= k < s.len() ==> tx_count(s, (#[trigger] s[k]).tx_call@) >= MIN_SPOTS_PER_STATION
                && rx_count(s, s[k].rx_call@) >= MIN_SPOTS_PER_STATION) ==> identifiable(s) == s,
{
    if forall|k: int|
        0 <= k < s.len() ==> tx_count(s, (#[trigger] s[k]).tx_call@) >= MIN_SPOTS_PER_STATION
            && rx_count(s, s[k].rx_call@) >= MIN_SPOTS_PER_STATION {
        let flags = Seq::new(s.len(), |i: int| well_attested(s, s[i]));
        assert forall|i: int| 0 <= i < s.len() implies #[trigger] flags[i] by {
            assert(tx_count(s, s[i].tx_call@) >= MIN_SPOTS_PER_STATION);
        }
        lemma_kept_all(s, flags);
        assert(one_pass(s) == s);
    }
}

/// `x` is `s` with some rows left out and the rest in their order.
pub open spec fn is_selection<T>(x: Seq<Observation<T>>, s: Seq<Observation<T>>) -> bool {
    exists|m: Seq<bool>| m.len() == s.len() && #[trigger] kept_by(s, m) == x
}

/// Every row's transmitter transmitted, and its receiver received, in at
/// least [`MIN_SPOTS_PER_STATION`] rows of `x`.
pub open spec fn attested_per_role<T>(x: Seq<Observation<T>>) -> bool {
    forall|k: int|
        0 <= k < x.len() ==> tx_count(x, (#[trigger] x[k]).tx_call@) >= MIN_SPOTS_PER_STATION
            && rx_count(x, x[k].rx_call@) >= MIN_SPOTS_PER_STATION
}

/// Leaving rows out never raises a station's count.
proof fn lemma_selection_counts<T>(s: Seq<Observation<T>>, m: Seq<bool>, c: Seq<char>)
    requires
        m.len() == s.len(),
    ensures
        tx_count(kept_by(s, m), c) <= tx_count(s, c),
        rx_count(kept_by(s, m), c) <= rx_count(s, c),
    decreases s.len(),
{
    if s.len() > 0 {
        lemma_selection_counts(s.drop_last(), m.drop_last(), c);
        let before = kept_by(s.drop_last(), m.drop_last());
        if m.last() {
            assert(before.push(s.last()).drop_last() =~= before);
        }
    }
}

/// A row whose flag is set is among the rows kept.
proof fn lemma_flagged_row_kept<T>(s: Seq<T>, m: Seq<bool>, i: int)
    requires
        m.len() == s.len(),
        0 <= i < s.len(),
        m[i],
    ensures
        kept_by(s, m).contains(s[i]),
    decreases s.len(),
{
    let before = kept_by(s.drop_last(), m.drop_last());
    if i == s.len() - 1 {
        assert(kept_by(s, m)[before.len() as int] == s[i]);
    } else {
        assert(m.drop_last()[i]);
        lemma_flagged_row_kept(s.drop_last(), m.drop_last(), i);
        let k = choose|k: int| 0 <= k < before.len() && before[k] == s[i];
        if m.last() {
            assert(kept_by(s, m)[k] == before[k]);
        }
    }
}

/// Keeping by `m` is keeping by `f` and then by what `m` says of the rows
/// `f` kept, when `m` keeps only rows `f` keeps.
proof fn lemma_keep_in_two_steps<T>(s: Seq<T>, m: Seq<bool>, f: Seq<bool>)
    requires
        m.len() == s.len(),
        f.len() == s.len(),
        forall|i: int| 0 <= i < s.len() && #[trigger] m[i] ==> f[i],
    ensures
        kept_by(m, f).len() == kept_by(s, f).len(),
        kept_by(s, m) == kept_by(kept_by(s, f), kept_by(m, f)),
    decreases s.len(),
{
    if s.len() > 0 {
        let (d, md, fd) = (s.drop_last(), m.drop_last(), f.drop_last());
        assert forall|i: int| 0 <= i < d.len() && #[trigger] md[i] implies fd[i] by {
            assert(m[i] && f[i] == fd[i]);
        }
        lemma_keep_in_two_steps(d, md, fd);
        let a = kept_by(d, fd);
        let b = kept_by(md, fd);
        if f.last() {
            assert(a.push(s.last()).drop_last() =~= a);
            assert(b.push(m.last()).drop_last() =~= b);
        } else {
            assert(!m[s.len() - 1]);
        }
    }
}

/// The filter keeps every row of every selection of `s` whose stations are
/// all counted often enough in it: what it returns is the largest such
/// selection, since it is one itself.
pub proof fn law_filter_keeps_every_attested_selection<T>(
    s: Seq<Observation<T>>,
    x: Seq<Observation<T>>,
)
    requires
        is_selection(x, s),
        attested_per_role(x),
    ensures
        is_selection(x, identifiable(s)),
        forall|k: int| 0 <= k < x.len() ==> identifiable(s).contains(#[trigger] x[k]),
    decreases s.len(),
{
    let p = one_pass(s);
    let f = Seq::new(s.len(), |i: int| well_attested(s, s[i]));
    lemma_kept_by_len(s, f);
    if p.len() < s.len() {
        let m = choose|m: Seq<bool>| m.len() == s.len() && #[trigger] kept_by(s, m) == x;
        assert forall|i: int| 0 <= i < s.len() && #[trigger] m[i] implies f[i] by {
            lemma_flagged_row_kept(s, m, i);
            let k = choose|k: int| 0 <= k < x.len() && x[k] == s[i];
            assert(tx_count(x, x[k].tx_call@) >= MIN_SPOTS_PER_STATION);
            lemma_selection_counts(s, m, s[i].tx_call@);
            lemma_selection_counts(s, m, s[i].rx_call@);
        }
        lemma_keep_in_two_steps(s, m, f);
        assert(kept_by(p, kept_by(m, f)) == x);
        assert(is_selection(x, p));
        law_filter_keeps_every_attested_selection(p, x);
    }
    let i_s = identifiable(s);
    let m2 = choose|m: Seq<bool>| m.len() == i_s.len() && #[trigger] kept_by(i_s, m) == x;
    lemma_kept_by_len(i_s, m2);
}

/// A filter whose every flag is set keeps everything.
proof fn lemma_kept_all<T>(s: Seq<T>, keep: Seq<bool>)
    requires
        keep.len() == s.len(),
        forall|i: int| 0 <= i < s.len() ==> #[trigger] keep[i],
    ensures
        kept_by(s, keep) == s,
    decreases s.len(),
{
    if s.len() > 0 {
        assert forall|i: int| 0 <= i < s.drop_last().len() implies #[trigger] keep.drop_last()[i] by {
            assert(keep.drop_last()[i] == keep[i]);
        }
        lemma_kept_all(s.drop_last(), keep.drop_last());
        assert(keep.last());
        assert(s.drop_last().push(s.last()) =~= s);
    }
}

/// Filtering what the filter kept removes nothing more: its result is a
/// fixed point.
pub proof fn law_identifiable_is_a_fixed_point<T>(s: Seq<Observation<T>>)
    ensures
        identifiable(identifiable(s)) == identifiable(s),
{
    let x = identifiable(s);
    law_identifiable_stations(s);
    let flags = Seq::new(x.len(), |i: int| well_attested(x, x[i]));
    lemma_kept_all(x, flags);
    assert(one_pass(x) == x);
}

// ---------------------------------------------------------------------------
// Cycles and duplicates.
// ---------------------------------------------------------------------------

/// A spot's UTC timestamp: `(year, month, day, hour, minute)`.
pub type Stamp = (i32, u32, u32, u32, u32);

/// `YYYY-MM-DD HH:MM`, the two-minute cycle as the archive spells it.
pub open spec fn stamp_text(t: Stamp) -> Seq<char> {
    formatted_integer(t.0 as int, 4) + seq!['-'] + formatted_integer(t.1 as int, 2) + seq!['-']
        + formatted_integer(t.2 as int, 2) + seq![' '] + formatted_integer(t.3 as int, 2) + seq![
        ':',
    ] + formatted_integer(t.4 as int, 2)
}

/// The two-minute cycle a spot belongs to, as the archive spells it.
pub fn format_stamp(t: Stamp) -> (r: String)
    ensures
        r@ == stamp_text(t),
{
    let mut text = format_integer(t.0 as i64, 4);
    text.push('-');
    let mut part = format_integer(t.1 as i64, 2);
    text.append(&mut part);
    text.push('-');
    let mut part = format_integer(t.2 as i64, 2);
    text.append(&mut part);
    text.push(' ');
    let mut part = format_integer(t.3 as i64, 2);
    text.append(&mut part);
    text.push(':');
    let mut part = format_integer(t.4 as i64, 2);
    text.append(&mut part);
    assert(text@ =~= stamp_text(t));
    string_of(&text)
}

/// Why a cycle's text could not be read back as a timestamp.
#[derive(Clone, Copy, PartialEq, Eq, Debug, Structural)]
pub enum StampError {
    /// No space or underscore between the date and the time.
    NoSeparator,
    /// Not three `-`-separated date fields and at least two `:`-separated
    /// time fields.
    NotDateTime,
    /// The year is not an `i32`.
    BadYear(IntErrorKind),
    /// A month, day, hour or minute that is not a `u32`.
    BadField(IntErrorKind),
}

/// The characters that may separate a cycle's date from its time.
pub open spec fn is_stamp_separator(c: char) -> bool {
    c == ' ' || c == '_'
}

/// Where the first separator of `s` is, or `s.len()` when there is none.
pub open spec fn separator_at(s: Seq<char>) -> int
    decreases s.len(),
{
    if s.len() == 0 {
        0
    } else if is_stamp_separator(s[0]) {
        0
    } else {
        1 + separator_at(s.drop_first())
    }
}

/// What [`parse_stamp`] reads from `s`: the text up to the first space or
/// underscore is the date, three `-`-separated fields; the rest is the time,
/// at least two `:`-separated fields of which the first two count. The year
/// is read as an `i32`, the other fields as `u32`, in the order they are
/// written; the first that cannot be read is the error.
pub open spec fn parsed_stamp(s: Seq<char>) -> Result<Stamp, StampError> {
    let i = separator_at(s);
    if i >= s.len() {
        Err(StampError::NoSeparator)
    } else {
        let d = split(s.take(i), '-');
        let t = split(s.skip(i + 1), ':');
        if d.len() != 3 || t.len() < 2 {
            Err(StampError::NotDateTime)
        } else {
            match parsed_i32_result(d[0]) {
                Err(e) => Err(StampError::BadYear(e)),
                Ok(y) => match parsed_u32_result(d[1]) {
                    Err(e) => Err(StampError::BadField(e)),
                    Ok(mo) => match parsed_u32_result(d[2]) {
                        Err(e) => Err(StampError::BadField(e)),
                        Ok(dd) => match parsed_u32_result(t[0]) {
                            Err(e) => Err(StampError::BadField(e)),
                            Ok(h) => match parsed_u32_result(t[1]) {
                                Err(e) => Err(StampError::BadField(e)),
                                Ok(mi) => Ok((y, mo, dd, h, mi)),
                            },
                        },
                    },
                },
            }
        }
    }
}

/// The characters of `s` from `lo` up to `hi`.
fn chars_between(s: &Vec<char>, lo: usize, hi: usize) -> (r: Vec<char>)
    requires
        lo <= hi <= s@.len(),
    ensures
        r@ == s@.subrange(lo as int, hi as int),
{
    let mut out: Vec<char> = Vec::new();
    let mut k: usize = lo;
    while k < hi
        invariant
            lo <= k <= hi <= s@.len(),
            out@ == s@.subrange(lo as int, k as int),
        decreases hi - k,
    {
        out.push(s[k]);
        k += 1;
        assert(out@ =~= s@.subrange(lo as int, k as int));
    }
    out
}

/// A cycle's timestamp read back from its text, `YYYY-MM-DD HH:MM` as the
/// archive and the corpus files write it (an underscore may stand for the
/// space).
pub fn parse_stamp(text: &str) -> (r: Result<Stamp, StampError>)
    ensures
        r == parsed_stamp(text@),
{
    let chars = chars_of(text);
    let ghost s = text@;
    let n = chars.len();
    let mut i: usize = 0;
    assert(s.skip(0) =~= s);
    while i < n && !(chars[i] == ' ' || chars[i] == '_')
        invariant
            chars@ == s,
            n == s.len(),
            i <= n,
            separator_at(s) == i + separator_at(s.skip(i as int)),
        decreases n - i,
    {
        assert(s.skip(i as int)[0] == chars@[i as int]);
        assert(s.skip(i as int).drop_first() =~= s.skip(i + 1));
        i += 1;
    }
    if i >= n {
        return Err(StampError::NoSeparator);
    }
    assert(s.skip(i as int)[0] == chars@[i as int]);
    assert(separator_at(s) == i);
    let date = chars_between(&chars, 0, i);
    let time = chars_between(&chars, i + 1, n);
    assert(date@ =~= s.take(i as int));
    assert(time@ =~= s.skip(i + 1));
    let d = split_on(&date, '-');
    let t = split_on(&time, ':');
    if d.len() != 3 || t.len() < 2 {
        return Err(StampError::NotDateTime);
    }
    let year = match parse_i32_result(&d[0]) {
        Ok(v) => v,
        Err(e) => return Err(StampError::BadYear(e)),
    };
    let month = match parse_u32_result(&d[1]) {
        Ok(v) => v,
        Err(e) => return Err(StampError::BadField(e)),
    };
    let day = match parse_u32_result(&d[2]) {
        Ok(v) => v,
        Err(e) => return Err(StampError::BadField(e)),
    };
    let hour = match parse_u32_result(&t[0]) {
        Ok(v) => v,
        Err(e) => return Err(StampError::BadField(e)),
    };
    let minute = match parse_u32_result(&t[1]) {
        Ok(v) => v,
        Err(e) => return Err(StampError::BadField(e)),
    };
    Ok((year, month, day, hour, minute))
}

/// A number of at least `width` zero-padded digits: digits, none a
/// separator, spelling the number.
proof fn lemma_padded_field(n: nat, width: int)
    ensures
        zero_padded(decimal_digits(n), width).len() >= 1,
        all_digits(zero_padded(decimal_digits(n), width)),
        forall|i: int|
            0 <= i < zero_padded(decimal_digits(n), width).len() ==> {
                let c = #[trigger] zero_padded(decimal_digits(n), width)[i];
                c != '-' && c != ':' && c != ' ' && c != '_'
            },
        crate::text::decimal_value(zero_padded(decimal_digits(n), width)) == n,
{
    lemma_zero_padded(n, width);
    let z = zero_padded(decimal_digits(n), width);
    assert forall|i: int| 0 <= i < z.len() implies {
        let c = #[trigger] z[i];
        c != '-' && c != ':' && c != ' ' && c != '_'
    } by {
        assert(crate::text::is_digit(z[i]));
    }
}

/// The first separator of `a`, a space, then `b` is that space, when `a`
/// has none.
proof fn lemma_separator_after(a: Seq<char>, b: Seq<char>)
    requires
        forall|i: int| 0 <= i < a.len() ==> !is_stamp_separator(#[trigger] a[i]),
    ensures
        separator_at(a + seq![' '] + b) == a.len(),
    decreases a.len(),
{
    let s = a + seq![' '] + b;
    if a.len() > 0 {
        assert(s[0] == a[0]);
        assert(s.drop_first() =~= a.drop_first() + seq![' '] + b);
        assert forall|i: int| 0 <= i < a.drop_first().len() implies !is_stamp_separator(
            #[trigger] a.drop_first()[i],
        ) by {
            assert(a.drop_first()[i] == a[i + 1]);
        }
        lemma_separator_after(a.drop_first(), b);
    } else {
        assert(s[0] == ' ');
    }
}

/// A cycle with a year of 0 or later reads back from its own text:
/// `parse_stamp(&format_stamp(t)) == Ok(t)`.
pub proof fn law_stamp_text_round_trip(t: Stamp)
    requires
        t.0 >= 0,
    ensures
        parsed_stamp(stamp_text(t)) == Ok::<Stamp, StampError>(t),
{
    let y = zero_padded(decimal_digits(t.0 as nat), 4);
    let mo = zero_padded(decimal_digits(t.1 as nat), 2);
    let d = zero_padded(decimal_digits(t.2 as nat), 2);
    let h = zero_padded(decimal_digits(t.3 as nat), 2);
    let mi = zero_padded(decimal_digits(t.4 as nat), 2);
    lemma_padded_field(t.0 as nat, 4);
    lemma_padded_field(t.1 as nat, 2);
    lemma_padded_field(t.2 as nat, 2);
    lemma_padded_field(t.3 as nat, 2);
    lemma_padded_field(t.4 as nat, 2);
    assert(formatted_integer(t.0 as int, 4) == y);
    let date = y + seq!['-'] + (mo + seq!['-'] + d);
    let time = h + seq![':'] + mi;
    let text = stamp_text(t);
    assert(text =~= date + seq![' '] + time);
    assert forall|i: int| 0 <= i < date.len() implies !is_stamp_separator(#[trigger] date[i]) by {
        if i < y.len() {
            assert(date[i] == y[i]);
        } else if i == y.len() {
        } else if i < y.len() + 1 + mo.len() {
            assert(date[i] == mo[i - y.len() - 1]);
        } else if i == y.len() + 1 + mo.len() {
        } else {
            assert(date[i] == d[i - y.len() - 2 - mo.len()]);
        }
    }
    lemma_separator_after(date, time);
    assert(text.take(date.len() as int) =~= date);
    assert(text.skip(date.len() as int + 1) =~= time);
    lemma_split_join(y, '-', mo + seq!['-'] + d);
    lemma_split_join(mo, '-', d);
    lemma_split_single(y, '-');
    lemma_split_single(mo, '-');
    lemma_split_single(d, '-');
    assert(split(date, '-') =~= seq![y, mo, d]);
    lemma_split_join(h, ':', mi);
    lemma_split_single(h, ':');
    lemma_split_single(mi, ':');
    assert(split(time, ':') =~= seq![h, mi]);
    lemma_parse_digits(y, true, i32::MIN as int, i32::MAX as int);
    lemma_parse_digits(mo, false, 0, u32::MAX as int);
    lemma_parse_digits(d, false, 0, u32::MAX as int);
    lemma_parse_digits(h, false, 0, u32::MAX as int);
    lemma_parse_digits(mi, false, 0, u32::MAX as int);
}

/// Timestamps in time order (field by field).
pub open spec fn stamp_le(a: Stamp, b: Stamp) -> bool {
    a.0 < b.0 || (a.0 == b.0 && (a.1 < b.1 || (a.1 == b.1 && (a.2 < b.2 || (a.2 == b.2 && (a.3
        < b.3 || (a.3 == b.3 && a.4 <= b.4)))))))
}

/// `a` is no later than `b` in calendar time: the two are the same
/// moment, or the first field in which they differ (year, month, day, hour,
/// minute, in that order) is smaller in `a`.
pub open spec fn no_later(a: Stamp, b: Stamp) -> bool {
    ||| a == b
    ||| a.0 < b.0
    ||| (a.0 == b.0 && a.1 < b.1)
    ||| (a.0 == b.0 && a.1 == b.1 && a.2 < b.2)
    ||| (a.0 == b.0 && a.1 == b.1 && a.2 == b.2 && a.3 < b.3)
    ||| (a.0 == b.0 && a.1 == b.1 && a.2 == b.2 && a.3 == b.3 && a.4 < b.4)
}

/// The order timestamps are compared in is calendar order.
pub proof fn law_stamp_order_is_calendar_order()
    ensures
        forall|a: Stamp, b: Stamp| #[trigger] stamp_le(a, b) <==> no_later(a, b),
{
}

fn stamp_leq(a: Stamp, b: Stamp) -> (r: bool)
    ensures
        r == stamp_le(a, b),
{
    a.0 < b.0 || (a.0 == b.0 && (a.1 < b.1 || (a.1 == b.1 && (a.2 < b.2 || (a.2 == b.2 && (a.3
        < b.3 || (a.3 == b.3 && a.4 <= b.4)))))))
}

/// The first and the last cycle of a set of spots, as text.
pub fn time_span(times: &Vec<Stamp>) -> (r: (String, String))
    requires
        times@.len() > 0,
    ensures
        exists|i: int|
            0 <= i < times@.len() && r.0@ == stamp_text(times@[i]) && forall|j: int|
                0 <= j < times@.len() ==> stamp_le(times@[i], #[trigger] times@[j]),
        exists|i: int|
            0 <= i < times@.len() && r.1@ == stamp_text(times@[i]) && forall|j: int|
                0 <= j < times@.len() ==> stamp_le(#[trigger] times@[j], times@[i]),
        // The same, with calendar order written out: year, then month, then
        // day, then hour, then minute.
        exists|i: int|
            0 <= i < times@.len() && r.0@ == stamp_text(times@[i]) && forall|j: int|
                0 <= j < times@.len() ==> no_later(times@[i], #[trigger] times@[j]),
        exists|i: int|
            0 <= i < times@.len() && r.1@ == stamp_text(times@[i]) && forall|j: int|
                0 <= j < times@.len() ==> no_later(#[trigger] times@[j], times@[i]),
{
    proof {
        law_stamp_order_is_calendar_order();
    }
    let mut first: usize = 0;
    let mut last: usize = 0;
    let mut i: usize = 1;
    while i < times.len()
        invariant
            1 <= i <= times@.len(),
            first < i,
            last < i,
            forall|j: int| 0 <= j < i ==> stamp_le(times@[first as int], #[trigger] times@[j]),
            forall|j: int| 0 <= j < i ==> stamp_le(#[trigger] times@[j], times@[last as int]),
        decreases times@.len() - i,
    {
        if !stamp_leq(times[first], times[i]) {
            first = i;
        }
        if !stamp_leq(times[i], times[last]) {
            last = i;
        }
        i += 1;
    }
    (format_stamp(times[first]), format_stamp(times[last]))
}

/// What makes two rows one observation: the same transmission (cycle and
/// transmitter) heard by the same receiver on the same band (rounded kHz).
pub struct SpotKey {
    pub cycle: String,
    pub tx_call: String,
    pub rx_call: String,
    pub band_key: i64,
}

pub open spec fn same_key(a: SpotKey, b: SpotKey) -> bool {
    a.cycle@ == b.cycle@ && a.tx_call@ == b.tx_call@ && a.rx_call@ == b.rx_call@ && a.band_key
        == b.band_key
}

/// Two rows are one observation exactly when they agree in cycle,
/// transmitter, receiver and band; rows of different transmitters never are.
pub proof fn law_same_observation_is_field_equality()
    ensures
        forall|a: SpotKey, b: SpotKey| #[trigger]
            same_key(a, b) <==> (a.cycle@ == b.cycle@ && a.tx_call@ == b.tx_call@ && a.rx_call@
                == b.rx_call@ && a.band_key == b.band_key),
{
}

fn keys_equal(a: &SpotKey, b: &SpotKey) -> (r: bool)
    ensures
        r == same_key(*a, *b),
{
    a.cycle == b.cycle && a.tx_call == b.tx_call && a.rx_call == b.rx_call && a.band_key
        == b.band_key
}

/// For each row, whether an earlier row is the same observation.
pub fn duplicate_flags(keys: &Vec<SpotKey>) -> (r: Vec<bool>)
    ensures
        r@.len() == keys@.len(),
        forall|i: int|
            0 <= i < keys@.len() ==> #[trigger] r@[i] == exists|j: int|
                0 <= j < i && same_key(keys@[j], keys@[i]),
        // A row is a duplicate exactly when an earlier row has the same
        // cycle, transmitter, receiver and band.
        forall|i: int|
            0 <= i < keys@.len() ==> #[trigger] r@[i] == exists|j: int|
                0 <= j < i && (#[trigger] keys@[j]).cycle@ == keys@[i].cycle@ && keys@[j].tx_call@
                    == keys@[i].tx_call@ && keys@[j].rx_call@ == keys@[i].rx_call@
                    && keys@[j].band_key == keys@[i].band_key,
{
    proof {
        law_same_observation_is_field_equality();
    }
    let mut flags: Vec<bool> = Vec::new();
    let mut i: usize = 0;
    while i < keys.len()
        invariant
            i <= keys@.len(),
            flags@.len() == i,
            forall|k: int|
                0 <= k < i ==> #[trigger] flags@[k] == exists|j: int|
                    0 <= j < k && same_key(keys@[j], keys@[k]),
        decreases keys@.len() - i,
    {
        let mut seen = false;
        let mut j: usize = 0;
        while j < i
            invariant
                j <= i < keys@.len(),
                seen == exists|m: int| 0 <= m < j && same_key(keys@[m], keys@[i as int]),
            decreases i - j,
        {
            if keys_equal(&keys[j], &keys[i]) {
                seen = true;
            }
            j += 1;
        }
        flags.push(seen);
        i += 1;
    }
    flags
}

/// The rows a de-duplication keeps hold pairwise different observations.
pub proof fn law_kept_rows_are_distinct(keys: Seq<SpotKey>, flags: Seq<bool>)
    requires
        flags.len() == keys.len(),
        forall|i: int|
            0 <= i < keys.len() ==> #[trigger] flags[i] == exists|j: int|
                0 <= j < i && same_key(keys[j], keys[i]),
    ensures
        forall|i: int, k: int|
            0 <= i < k < keys.len() && !flags[i] && !flags[k] ==> !same_key(
                #[trigger] keys[i],
                #[trigger] keys[k],
            ),
{
    assert forall|i: int, k: int|
        0 <= i < k < keys.len() && !flags[i] && !flags[k] implies !same_key(
        #[trigger] keys[i],
        #[trigger] keys[k],
    ) by {
        if same_key(keys[i], keys[k]) {
            assert(flags[k]);
        }
    }
}

} // verus!
