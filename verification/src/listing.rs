//! Picking rows out of a table: the rows that a mask keeps, and the rows
//! that carry a sort key, in the order of their keys.

use vstd::prelude::*;
use crate::models::views;
use crate::sibling::{unique_keys, Keyed, Row};

verus! {

/// The rows that the mask keeps, in the order of the table.
pub open spec fn masked<V>(rows: Seq<V>, keep: Seq<bool>) -> Seq<V>
    decreases rows.len(),
{
    if rows.len() == 0 || keep.len() != rows.len() {
        Seq::empty()
    } else if keep.last() {
        masked(rows.drop_last(), keep.drop_last()).push(rows.last())
    } else {
        masked(rows.drop_last(), keep.drop_last())
    }
}

/// A mask that says of each row whether `pred` holds keeps the rows that
/// `filter` keeps.
pub proof fn lemma_masked_is_filter<V>(rows: Seq<V>, keep: Seq<bool>, pred: spec_fn(V) -> bool)
    requires
        keep.len() == rows.len(),
        forall|i: int| 0 <= i < rows.len() ==> #[trigger] keep[i] == pred(rows[i]),
    ensures
        masked(rows, keep) == rows.filter(pred),
    decreases rows.len(),
{
    reveal(Seq::filter);
    if rows.len() > 0 {
        assert(keep.last() == keep[keep.len() - 1]);
        lemma_masked_is_filter(rows.drop_last(), keep.drop_last(), pred);
    }
}

/// Copies of the rows that the mask keeps.
pub fn kept<T: Row>(rows: &Vec<T>, keep: &Vec<bool>) -> (r: Vec<T>)
    requires
        keep.len() == rows.len(),
    ensures
        views(r@) == masked(views(rows@), keep@),
        r.len() <= rows.len(),
{
    let mut out: Vec<T> = Vec::new();
    let mut i: usize = 0;
    assert(views(out@) =~= masked(views(rows@).take(0), keep@.take(0)));
    while i < rows.len()
        invariant
            i <= rows.len(),
            keep.len() == rows.len(),
            out.len() <= i,
            views(out@) == masked(views(rows@).take(i as int), keep@.take(i as int)),
        decreases rows.len() - i,
    {
        proof {
            assert(views(rows@).take(i + 1).drop_last() =~= views(rows@).take(i as int));
            assert(keep@.take(i + 1).drop_last() =~= keep@.take(i as int));
            assert(views(rows@).take(i + 1).last() == rows[i as int]@);
        }
        if keep[i] {
            let ghost before = views(out@);
            out.push(rows[i].copy());
            assert(views(out@) =~= before.push(rows[i as int]@));
        }
        i += 1;
    }
    proof {
        assert(views(rows@).take(rows.len() as int) =~= views(rows@));
        assert(keep@.take(rows.len() as int) =~= keep@);
    }
    out
}

/// A sort key: a value with an order in which any two keys compare.
pub trait Ranked: View + Sized {
    /// Whether key `a` stands at or before key `b`.
    spec fn le(a: Self::V, b: Self::V) -> bool;

    proof fn lemma_total(a: Self::V, b: Self::V)
        ensures
            Self::le(a, b) || Self::le(b, a),
    ;

    proof fn lemma_transitive(a: Self::V, b: Self::V, c: Self::V)
        requires
            Self::le(a, b),
            Self::le(b, c),
        ensures
            Self::le(a, c),
    ;

    fn is_le(&self, other: &Self) -> (r: bool)
        ensures
            r == Self::le(self@, other@),
    ;
}

/// A number as a sort key.
pub struct Number(pub i64);

impl View for Number {
    type V = int;

    open spec fn view(&self) -> int {
        self.0 as int
    }
}

impl Ranked for Number {
    open spec fn le(a: int, b: int) -> bool {
        a <= b
    }

    proof fn lemma_total(a: int, b: int) {
    }

    proof fn lemma_transitive(a: int, b: int, c: int) {
    }

    fn is_le(&self, other: &Number) -> (r: bool) {
        self.0 <= other.0
    }
}

/// The keys of a table as the listing reads them: a row without a key is
/// left out.
pub open spec fn key_views<K: View>(keys: Seq<Option<K>>) -> Seq<Option<K::V>> {
    keys.map_values(|k: Option<K>| key_view(k))
}

/// A key, if there is one, by its view.
pub open spec fn key_view<K: View>(key: Option<K>) -> Option<K::V> {
    match key {
        Some(k) => Some(k@),
        None => None,
    }
}

/// Whether a row with key `a` may stand before a row with key `b`.
pub open spec fn in_order<K: Ranked>(a: K::V, b: K::V, descending: bool) -> bool {
    if descending {
        K::le(b, a)
    } else {
        K::le(a, b)
    }
}

/// The place at which a row with key `x` joins the rows listed so far:
/// behind the last of them that may stand before it.
pub open spec fn insertion_point<K: Ranked>(
    keys: Seq<Option<K::V>>,
    order: Seq<int>,
    x: K::V,
    descending: bool,
) -> int
    decreases order.len(),
{
    if order.len() == 0 {
        0
    } else if in_order::<K>(keys[order.last()].unwrap(), x, descending) {
        order.len() as int
    } else {
        insertion_point::<K>(keys, order.drop_last(), x, descending)
    }
}

/// The listing of the first `n` rows: the places of those that carry a key,
/// in the order of their keys; rows with keys of equal rank keep the order
/// of the table.
pub open spec fn ordering_upto<K: Ranked>(keys: Seq<Option<K::V>>, n: nat, descending: bool) -> Seq<
    int,
>
    decreases n,
{
    if n == 0 {
        Seq::empty()
    } else {
        let rest = ordering_upto::<K>(keys, (n - 1) as nat, descending);
        match keys[n - 1] {
            None => rest,
            Some(x) => rest.insert(insertion_point::<K>(keys, rest, x, descending), n - 1),
        }
    }
}

/// The listing of a table by its keys.
pub open spec fn ordering<K: Ranked>(keys: Seq<Option<K::V>>, descending: bool) -> Seq<int> {
    ordering_upto::<K>(keys, keys.len(), descending)
}

/// The rows at the given places.
pub open spec fn picked<V>(rows: Seq<V>, order: Seq<int>) -> Seq<V> {
    order.map_values(|i: int| rows[i])
}

/// The listing holds places of rows that carry a key, and at most one place
/// for each row.
pub proof fn lemma_ordering_places<K: Ranked>(keys: Seq<Option<K::V>>, n: nat, descending: bool)
    requires
        n <= keys.len(),
    ensures
        ordering_upto::<K>(keys, n, descending).len() <= n,
        forall|t: int|
            0 <= t < ordering_upto::<K>(keys, n, descending).len() ==> 0 <= (
            #[trigger] ordering_upto::<K>(keys, n, descending)[t]) < n && keys[ordering_upto::<K>(
                keys,
                n,
                descending,
            )[t]] is Some,
    decreases n,
{
    if n > 0 {
        lemma_ordering_places::<K>(keys, (n - 1) as nat, descending);
        let rest = ordering_upto::<K>(keys, (n - 1) as nat, descending);
        if keys[n - 1] is Some {
            lemma_insertion_point_bounds::<K>(keys, rest, keys[n - 1].unwrap(), descending);
        }
    }
}

pub proof fn lemma_insertion_point_bounds<K: Ranked>(
    keys: Seq<Option<K::V>>,
    order: Seq<int>,
    x: K::V,
    descending: bool,
)
    ensures
        0 <= insertion_point::<K>(keys, order, x, descending) <= order.len(),
    decreases order.len(),
{
    if order.len() > 0 {
        lemma_insertion_point_bounds::<K>(keys, order.drop_last(), x, descending);
    }
}

/// The places of a table as integers.
pub open spec fn places(order: Seq<usize>) -> Seq<int> {
    order.map_values(|i: usize| i as int)
}

/// The places of the rows that carry a key, in the order of their keys,
/// ascending or descending; rows with keys of equal rank keep the order of
/// the table.
pub fn ordered_places<K: Ranked>(keys: &Vec<Option<K>>, descending: bool) -> (order: Vec<usize>)
    ensures
        places(order@) == ordering::<K>(key_views(keys@), descending),
        order.len() <= keys.len(),
        forall|t: int| 0 <= t < order.len() ==> (#[trigger] order[t]) < keys.len(),
{
    let ghost kv = key_views(keys@);
    let mut order: Vec<usize> = Vec::new();
    let mut i: usize = 0;
    assert(places(order@) =~= ordering_upto::<K>(kv, 0, descending));
    while i < keys.len()
        invariant
            i <= keys.len(),
            kv == key_views(keys@),
            places(order@) == ordering_upto::<K>(kv, i as nat, descending),
        decreases keys.len() - i,
    {
        proof {
            lemma_ordering_places::<K>(kv, i as nat, descending);
        }
        match &keys[i] {
            None => {},
            Some(x) => {
                let ghost listed = places(order@);
                let mut j: usize = order.len();
                let mut searching = true;
                assert(listed.take(j as int) =~= listed);
                while searching && j > 0
                    invariant
                        j <= order.len(),
                        order.len() <= i,
                        i < keys.len(),
                        kv == key_views(keys@),
                        listed == places(order@),
                        keys[i as int] == Some(*x),
                        forall|t: int|
                            0 <= t < listed.len() ==> 0 <= (#[trigger] listed[t]) < i
                                && kv[listed[t]] is Some,
                        searching ==> insertion_point::<K>(kv, listed, x@, descending)
                            == insertion_point::<K>(kv, listed.take(j as int), x@, descending),
                        !searching ==> insertion_point::<K>(kv, listed, x@, descending) == j,
                    decreases j + if searching { 1int } else { 0int },
                {
                    proof {
                        assert(listed.take(j as int).drop_last() =~= listed.take(j - 1));
                        assert(listed.take(j as int).last() == listed[j - 1]);
                        assert(listed[j - 1] == order[j - 1] as int);
                    }
                    let at = order[j - 1];
                    let fits = match &keys[at] {
                        Some(y) => if descending {
                            x.is_le(y)
                        } else {
                            y.is_le(x)
                        },
                        None => false,
                    };
                    if fits {
                        searching = false;
                    } else {
                        j -= 1;
                    }
                }
                proof {
                    if searching {
                        assert(listed.take(0).len() == 0);
                    }
                }
                order.insert(j, i);
                proof {
                    assert(places(order@) =~= listed.insert(j as int, i as int));
                    assert(kv[i as int] == Some(x@));
                }
            },
        }
        i += 1;
    }
    proof {
        lemma_ordering_places::<K>(kv, keys.len() as nat, descending);
        assert forall|t: int| 0 <= t < order.len() implies (#[trigger] order[t]) < keys.len() by {
            assert(places(order@)[t] == order[t] as int);
        }
    }
    order
}

/// Copies of the rows at the given places.
pub fn pick<T: Row>(rows: &Vec<T>, order: &Vec<usize>) -> (r: Vec<T>)
    requires
        forall|t: int| 0 <= t < order.len() ==> (#[trigger] order[t]) < rows.len(),
    ensures
        views(r@) == picked(views(rows@), places(order@)),
{
    let mut out: Vec<T> = Vec::new();
    let mut t: usize = 0;
    while t < order.len()
        invariant
            t <= order.len(),
            out.len() == t,
            forall|t: int| 0 <= t < order.len() ==> (#[trigger] order[t]) < rows.len(),
            forall|u: int| 0 <= u < t ==> (#[trigger] out[u])@ == rows[order[u] as int]@,
        decreases order.len() - t,
    {
        out.push(rows[order[t]].copy());
        t += 1;
    }
    assert(views(out@) =~= picked(views(rows@), places(order@)));
    out
}


/// The rows that `key` gives a number, in the order of their numbers.
pub open spec fn listed_by_number<V>(
    rows: Seq<V>,
    key: spec_fn(V) -> Option<int>,
    descending: bool,
) -> Seq<V> {
    picked(rows, ordering::<Number>(rows.map_values(key), descending))
}

/// The rows that `key` gives a text, in the order of their texts.
pub open spec fn listed_by_text<V>(rows: Seq<V>, key: spec_fn(V) -> Option<Seq<char>>) -> Seq<V> {
    picked(rows, ordering::<String>(rows.map_values(key), false))
}

/// Copies of the rows that carry a key, in the order of their keys.
pub fn list_by<T: Row, K: Ranked>(rows: &Vec<T>, keys: &Vec<Option<K>>, descending: bool) -> (r:
    Vec<T>)
    requires
        keys.len() == rows.len(),
    ensures
        views(r@) == picked(views(rows@), ordering::<K>(key_views(keys@), descending)),
{
    let order = ordered_places(keys, descending);
    pick(rows, &order)
}


/// Every row that a mask keeps is a row of the table that the mask marks,
/// and the kept rows stand in the order of the table.
pub proof fn lemma_masked_rows<V>(rows: Seq<V>, keep: Seq<bool>, t: int) -> (i: int)
    requires
        keep.len() == rows.len(),
        0 <= t < masked(rows, keep).len(),
    ensures
        t <= i < rows.len(),
        keep[i],
        masked(rows, keep)[t] == rows[i],
        masked(rows, keep).len() <= rows.len(),
    decreases rows.len(),
{
    let rest = masked(rows.drop_last(), keep.drop_last());
    lemma_masked_len(rows.drop_last(), keep.drop_last());
    if keep.last() && t == rest.len() {
        rows.len() - 1
    } else {
        lemma_masked_rows(rows.drop_last(), keep.drop_last(), t)
    }
}

pub proof fn lemma_masked_len<V>(rows: Seq<V>, keep: Seq<bool>)
    ensures
        masked(rows, keep).len() <= rows.len(),
    decreases rows.len(),
{
    if rows.len() > 0 && keep.len() == rows.len() {
        lemma_masked_len(rows.drop_last(), keep.drop_last());
    }
}

/// Keeping some of the rows keeps their identifiers different.
pub proof fn lemma_masked_keeps_keys<T: Keyed>(rows: Seq<T::V>, keep: Seq<bool>)
    requires
        keep.len() == rows.len(),
        unique_keys::<T>(rows),
    ensures
        unique_keys::<T>(masked(rows, keep)),
    decreases rows.len(),
{
    if rows.len() > 0 {
        let rest = masked(rows.drop_last(), keep.drop_last());
        assert forall|i: int, j: int| 0 <= i < j < rows.drop_last().len() implies T::key_of(
            #[trigger] rows.drop_last()[i],
        ) != T::key_of(#[trigger] rows.drop_last()[j]) by {
            assert(T::key_of(rows[i]) != T::key_of(rows[j]));
        }
        lemma_masked_keeps_keys::<T>(rows.drop_last(), keep.drop_last());
        let after = masked(rows, keep);
        assert forall|i: int, j: int| 0 <= i < j < after.len() implies T::key_of(
            #[trigger] after[i],
        ) != T::key_of(#[trigger] after[j]) by {
            if j == rest.len() {
                let a = lemma_masked_rows(rows.drop_last(), keep.drop_last(), i);
                assert(T::key_of(rows[a]) != T::key_of(rows[rows.len() - 1]));
            } else {
                assert(T::key_of(rest[i]) != T::key_of(rest[j]));
            }
        }
    }
}


/// Two rows that a mask keeps stand in the table in the order in which they
/// are kept.
pub proof fn lemma_masked_pair<V>(rows: Seq<V>, keep: Seq<bool>, i: int, j: int) -> (r: (int, int))
    requires
        keep.len() == rows.len(),
        0 <= i < j < masked(rows, keep).len(),
    ensures
        0 <= r.0 < r.1 < rows.len(),
        keep[r.0],
        keep[r.1],
        masked(rows, keep)[i] == rows[r.0],
        masked(rows, keep)[j] == rows[r.1],
    decreases rows.len(),
{
    let rest = masked(rows.drop_last(), keep.drop_last());
    lemma_masked_len(rows.drop_last(), keep.drop_last());
    if keep.last() && j == rest.len() {
        let a = lemma_masked_rows(rows.drop_last(), keep.drop_last(), i);
        (a, rows.len() - 1)
    } else {
        lemma_masked_pair(rows.drop_last(), keep.drop_last(), i, j)
    }
}


/// Copies of all rows of a table.
pub fn copies<T: Row>(rows: &Vec<T>) -> (r: Vec<T>)
    ensures
        views(r@) == views(rows@),
{
    let mut out: Vec<T> = Vec::new();
    let mut i: usize = 0;
    while i < rows.len()
        invariant
            i <= rows.len(),
            out.len() == i,
            forall|j: int| 0 <= j < i ==> (#[trigger] out[j])@ == rows[j]@,
        decreases rows.len() - i,
    {
        out.push(rows[i].copy());
        i += 1;
    }
    assert(views(out@) =~= views(rows@));
    out
}


/// Where a key joins: behind a row that may stand before it, and before
/// rows that may not.
pub proof fn lemma_insertion_point<K: Ranked>(
    keys: Seq<Option<K::V>>,
    order: Seq<int>,
    x: K::V,
    descending: bool,
)
    ensures
        ({
            let p = insertion_point::<K>(keys, order, x, descending);
            &&& 0 <= p <= order.len()
            &&& p > 0 ==> in_order::<K>(keys[order[p - 1]].unwrap(), x, descending)
            &&& forall|t: int|
                p <= t < order.len() ==> !in_order::<K>(
                    keys[#[trigger] order[t]].unwrap(),
                    x,
                    descending,
                )
        }),
    decreases order.len(),
{
    if order.len() > 0 {
        lemma_insertion_point::<K>(keys, order.drop_last(), x, descending);
        let p = insertion_point::<K>(keys, order, x, descending);
        assert forall|t: int| p <= t < order.len() implies !in_order::<K>(
            keys[#[trigger] order[t]].unwrap(),
            x,
            descending,
        ) by {
            if t < order.len() - 1 {
                assert(order.drop_last()[t] == order[t]);
            }
        }
        if p > 0 && p < order.len() {
            assert(order.drop_last()[p - 1] == order[p - 1]);
        }
    }
}

/// The listing is in the order of the keys, and rows whose keys rank alike
/// stand in the order of the table.
pub proof fn lemma_ordering_sorted<K: Ranked>(keys: Seq<Option<K::V>>, n: nat, descending: bool)
    requires
        n <= keys.len(),
    ensures
        forall|a: int, b: int|
            0 <= a < b < ordering_upto::<K>(keys, n, descending).len() ==> {
                let first = #[trigger] ordering_upto::<K>(keys, n, descending)[a];
                let second = #[trigger] ordering_upto::<K>(keys, n, descending)[b];
                &&& in_order::<K>(keys[first].unwrap(), keys[second].unwrap(), descending)
                &&& in_order::<K>(keys[second].unwrap(), keys[first].unwrap(), descending)
                    ==> first < second
            },
    decreases n,
{
    if n > 0 {
        lemma_ordering_sorted::<K>(keys, (n - 1) as nat, descending);
        lemma_ordering_places::<K>(keys, (n - 1) as nat, descending);
        let rest = ordering_upto::<K>(keys, (n - 1) as nat, descending);
        let now = ordering_upto::<K>(keys, n, descending);
        if keys[n - 1] is Some {
            let x = keys[n - 1].unwrap();
            let p = insertion_point::<K>(keys, rest, x, descending);
            lemma_insertion_point::<K>(keys, rest, x, descending);
            assert forall|a: int, b: int| 0 <= a < b < now.len() implies {
                let first = #[trigger] now[a];
                let second = #[trigger] now[b];
                &&& in_order::<K>(keys[first].unwrap(), keys[second].unwrap(), descending)
                &&& in_order::<K>(keys[second].unwrap(), keys[first].unwrap(), descending)
                    ==> first < second
            } by {
                let first = now[a];
                let second = now[b];
                if b == p {
                    // A row before the new one.
                    assert(first == rest[a]);
                    if a < p - 1 {
                        assert(in_order::<K>(
                            keys[rest[a]].unwrap(),
                            keys[rest[p - 1]].unwrap(),
                            descending,
                        ));
                        if descending {
                            K::lemma_transitive(
                                x,
                                keys[rest[p - 1]].unwrap(),
                                keys[first].unwrap(),
                            );
                        } else {
                            K::lemma_transitive(
                                keys[first].unwrap(),
                                keys[rest[p - 1]].unwrap(),
                                x,
                            );
                        }
                    }
                } else if a == p {
                    // A row behind the new one.
                    assert(second == rest[b - 1]);
                    assert(!in_order::<K>(keys[rest[b - 1]].unwrap(), x, descending));
                    K::lemma_total(x, keys[second].unwrap());
                } else {
                    let i = if a < p {
                        a
                    } else {
                        a - 1
                    };
                    let j = if b < p {
                        b
                    } else {
                        b - 1
                    };
                    assert(first == rest[i] && second == rest[j]);
                }
            }
        }
    }
}

/// The listing holds the place of every row that carries a key, once.
pub proof fn lemma_ordering_complete<K: Ranked>(keys: Seq<Option<K::V>>, n: nat, descending: bool)
    requires
        n <= keys.len(),
    ensures
        ordering_upto::<K>(keys, n, descending).no_duplicates(),
        forall|i: int|
            0 <= i < n && (#[trigger] keys[i]) is Some ==> ordering_upto::<K>(
                keys,
                n,
                descending,
            ).contains(i),
    decreases n,
{
    if n > 0 {
        lemma_ordering_complete::<K>(keys, (n - 1) as nat, descending);
        lemma_ordering_places::<K>(keys, (n - 1) as nat, descending);
        let rest = ordering_upto::<K>(keys, (n - 1) as nat, descending);
        let now = ordering_upto::<K>(keys, n, descending);
        if keys[n - 1] is Some {
            let p = insertion_point::<K>(keys, rest, keys[n - 1].unwrap(), descending);
            lemma_insertion_point_bounds::<K>(keys, rest, keys[n - 1].unwrap(), descending);
            assert forall|a: int, b: int| 0 <= a < now.len() && 0 <= b < now.len() && a
                != b implies now[a] != now[b] by {
                let i = if a < p {
                    a
                } else {
                    a - 1
                };
                let j = if b < p {
                    b
                } else {
                    b - 1
                };
                if a != p && b != p {
                    assert(now[a] == rest[i] && now[b] == rest[j]);
                } else if a == p {
                    assert(now[b] == rest[j]);
                } else {
                    assert(now[a] == rest[i]);
                }
            }
            assert forall|i: int| 0 <= i < n && (#[trigger] keys[i]) is Some implies now.contains(
                i,
            ) by {
                if i == n - 1 {
                    assert(now[p] == i);
                } else {
                    let t = choose|t: int| 0 <= t < rest.len() && rest[t] == i;
                    if t < p {
                        assert(now[t] == i);
                    } else {
                        assert(now[t + 1] == i);
                    }
                }
            }
        } else {
            assert forall|i: int| 0 <= i < n && (#[trigger] keys[i]) is Some implies now.contains(
                i,
            ) by {
                assert(i < n - 1);
            }
        }
    }
}

} // verus!
