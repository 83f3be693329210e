//! Rows that are found by their identifier, and rows that are ordered among
//! the children of one parent. The operations here work on one table of such
//! rows and are stated over the rows' views; each of them does to the rows'
//! slots what the position index says.

use vstd::prelude::*;
use vstd::string::StringExecFns;
use crate::models::views;
use crate::position::{
    highest, inserted, moved, reached, reinserted, removed, shift, shift_slot, Slot,
};

verus! {

/// A row of a table: a value that can be copied out of it.
pub trait Row: View + Sized {
    fn copy(&self) -> (r: Self)
        ensures
            r@ == self@,
    ;
}

/// A row that has an identifier of its own.
pub trait Keyed: Row {
    /// The identifier that a row's view carries.
    spec fn key_of(v: Self::V) -> Seq<char>;

    fn key(&self) -> (k: &String)
        ensures
            k@ == Self::key_of(self@),
    ;
}

/// No two rows carry the same identifier.
pub open spec fn unique_keys<T: Keyed>(rows: Seq<T::V>) -> bool {
    forall|i: int, j: int|
        0 <= i < j < rows.len() ==> T::key_of(#[trigger] rows[i]) != T::key_of(#[trigger] rows[j])
}

/// Whether `k` is the place of the first row that carries `id`.
pub open spec fn first_with_key<T: Keyed>(rows: Seq<T::V>, id: Seq<char>, k: int) -> bool {
    &&& 0 <= k < rows.len()
    &&& T::key_of(rows[k]) == id
    &&& forall|j: int| 0 <= j < k ==> T::key_of(#[trigger] rows[j]) != id
}

/// Whether some row carries `id`.
pub open spec fn has_key<T: Keyed>(rows: Seq<T::V>, id: Seq<char>) -> bool {
    exists|j: int| 0 <= j < rows.len() && T::key_of(#[trigger] rows[j]) == id
}

/// The place of the first row that carries `id`, if there is one.
pub open spec fn lookup<T: Keyed>(rows: Seq<T::V>, id: Seq<char>) -> Option<int> {
    if has_key::<T>(rows, id) {
        Some(choose|k: int| first_with_key::<T>(rows, id, k))
    } else {
        None
    }
}

/// A place that meets `first_with_key` is the one that `lookup` gives.
pub proof fn lemma_lookup_found<T: Keyed>(rows: Seq<T::V>, id: Seq<char>, k: int)
    requires
        first_with_key::<T>(rows, id, k),
    ensures
        lookup::<T>(rows, id) == Some(k),
{
    assert(T::key_of(rows[k]) == id);
    let c = choose|c: int| first_with_key::<T>(rows, id, c);
    assert(first_with_key::<T>(rows, id, c));
    if c < k {
        assert(T::key_of(rows[c]) != id);
    }
    if k < c {
        assert(T::key_of(rows[k]) != id);
    }
}

/// Where `lookup` gives a place, the row there carries the identifier.
pub proof fn lemma_lookup_some<T: Keyed>(rows: Seq<T::V>, id: Seq<char>)
    requires
        lookup::<T>(rows, id) is Some,
    ensures
        first_with_key::<T>(rows, id, lookup::<T>(rows, id).unwrap()),
{
    let j = choose|j: int| 0 <= j < rows.len() && T::key_of(#[trigger] rows[j]) == id;
    lemma_first_exists::<T>(rows, id, j);
}

proof fn lemma_first_exists<T: Keyed>(rows: Seq<T::V>, id: Seq<char>, j: int)
    requires
        0 <= j < rows.len(),
        T::key_of(rows[j]) == id,
    ensures
        exists|k: int| first_with_key::<T>(rows, id, k),
    decreases j,
{
    if exists|i: int| 0 <= i < j && T::key_of(#[trigger] rows[i]) == id {
        let i = choose|i: int| 0 <= i < j && T::key_of(#[trigger] rows[i]) == id;
        lemma_first_exists::<T>(rows, id, i);
    } else {
        assert(first_with_key::<T>(rows, id, j));
    }
}

/// Finds the row that carries `id`.
pub fn find_row<T: Keyed>(rows: &Vec<T>, id: &str) -> (r: Option<usize>)
    ensures
        match r {
            Some(k) => lookup::<T>(views(rows@), id@) == Some(k as int) && k < rows.len()
                && T::key_of(rows[k as int]@) == id@,
            None => lookup::<T>(views(rows@), id@) is None && !has_key::<T>(views(rows@), id@),
        },
{
    let wanted = String::from_str(id);
    let mut i: usize = 0;
    while i < rows.len()
        invariant
            i <= rows.len(),
            wanted@ == id@,
            forall|j: int| 0 <= j < i ==> T::key_of(#[trigger] views(rows@)[j]) != id@,
        decreases rows.len() - i,
    {
        if *rows[i].key() == wanted {
            proof {
                assert(views(rows@)[i as int] == rows[i as int]@);
                lemma_lookup_found::<T>(views(rows@), id@, i as int);
            }
            return Some(i);
        }
        proof {
            assert(views(rows@)[i as int] == rows[i as int]@);
        }
        i += 1;
    }
    None
}

/// A row that is ordered among the children of one parent.
pub trait Sibling: Keyed {
    /// Where the row stands.
    spec fn slot_of(v: Self::V) -> Slot;

    /// The row at another position, touched at `now`.
    spec fn placed(v: Self::V, position: int, now: int) -> Self::V;

    /// The row in the bin since `now`.
    spec fn binned(v: Self::V, now: int) -> Self::V;

    /// The row out of the bin, touched at `now`.
    spec fn revived(v: Self::V, now: int) -> Self::V;

    /// Placing, binning and reviving change of a row's slot only what their
    /// names say, and leave its identifier.
    proof fn lemma_slots(v: Self::V, position: int, now: int)
        ensures
            Self::slot_of(Self::placed(v, position, now)) == (Slot {
                position: position,
                ..Self::slot_of(v)
            }),
            Self::slot_of(Self::binned(v, now)) == (Slot { active: false, ..Self::slot_of(v) }),
            Self::slot_of(Self::revived(v, now)) == (Slot { active: true, ..Self::slot_of(v) }),
            Self::key_of(Self::placed(v, position, now)) == Self::key_of(v),
            Self::key_of(Self::binned(v, now)) == Self::key_of(v),
            Self::key_of(Self::revived(v, now)) == Self::key_of(v),
    ;

    /// Whether the row's dates agree: it was not changed before it was
    /// made, and a row in the bin was last changed when it went there.
    spec fn dated(v: Self::V) -> bool;

    /// Whether the row was made at `now` or before.
    spec fn made_by(v: Self::V, now: int) -> bool;

    /// Placing, binning and reviving a row at an instant that is not before
    /// its making keeps its dates in agreement.
    proof fn lemma_dates(v: Self::V, position: int, now: int)
        requires
            Self::dated(v),
            Self::made_by(v, now),
        ensures
            Self::slot_of(v).active ==> Self::dated(Self::placed(v, position, now)),
            Self::dated(Self::binned(v, now)),
            Self::dated(Self::revived(v, now)),
            forall|later: int|
                Self::made_by(v, later) ==> Self::made_by(Self::placed(v, position, now), later)
                    && Self::made_by(Self::binned(v, now), later) && Self::made_by(
                    Self::revived(v, now),
                    later,
                ),
    ;

    /// A stored row's position is a 32-bit integer.
    proof fn lemma_position_fits(&self)
        ensures
            i32::MIN <= Self::slot_of(self@).position <= i32::MAX,
    ;

    fn scope(&self) -> (s: &String)
        ensures
            s@ == Self::slot_of(self@).scope,
    ;

    fn position(&self) -> (p: i32)
        ensures
            p as int == Self::slot_of(self@).position,
    ;

    fn is_active(&self) -> (b: bool)
        ensures
            b == Self::slot_of(self@).active,
    ;

    fn place(&mut self, position: i32, now: i64)
        ensures
            final(self)@ == Self::placed(old(self)@, position as int, now as int),
    ;

    fn bin(&mut self, now: i64)
        ensures
            final(self)@ == Self::binned(old(self)@, now as int),
    ;

    fn revive(&mut self, now: i64)
        ensures
            final(self)@ == Self::revived(old(self)@, now as int),
    ;
}

/// The slots of a table of rows, one for one.
pub open spec fn slots<T: Sibling>(rows: Seq<T::V>) -> Seq<Slot> {
    rows.map_values(|v: T::V| T::slot_of(v))
}

/// The row after a shift: moved by `delta` and touched at `now` where the
/// shift reaches it.
pub open spec fn shift_row<T: Sibling>(
    v: T::V,
    scope: Seq<char>,
    lo: int,
    hi: Option<int>,
    delta: int,
    now: int,
) -> T::V {
    if reached(T::slot_of(v), scope, lo, hi) {
        T::placed(v, T::slot_of(v).position + delta, now)
    } else {
        v
    }
}

/// The table after a shift of `scope` over the span.
pub open spec fn rows_shifted<T: Sibling>(
    rows: Seq<T::V>,
    scope: Seq<char>,
    lo: int,
    hi: Option<int>,
    delta: int,
    now: int,
) -> Seq<T::V> {
    rows.map_values(|v: T::V| shift_row::<T>(v, scope, lo, hi, delta, now))
}

/// The table after `row` is inserted at the position it carries.
pub open spec fn rows_inserted<T: Sibling>(rows: Seq<T::V>, row: T::V, now: int) -> Seq<T::V> {
    rows_shifted::<T>(rows, T::slot_of(row).scope, T::slot_of(row).position, None, 1, now).push(
        row,
    )
}

/// The table after row `k` is moved to `index` within its scope.
pub open spec fn rows_moved<T: Sibling>(rows: Seq<T::V>, k: int, index: int, now: int) -> Seq<
    T::V,
> {
    let from = T::slot_of(rows[k]).position;
    let scope = T::slot_of(rows[k]).scope;
    let shifted = if index > from {
        rows_shifted::<T>(rows, scope, from + 1, Some(index), -1, now)
    } else if index < from {
        rows_shifted::<T>(rows, scope, index, Some(from - 1), 1, now)
    } else {
        rows
    };
    shifted.update(k, T::placed(rows[k], index, now))
}

/// The table after row `k` goes to the bin.
pub open spec fn rows_removed<T: Sibling>(rows: Seq<T::V>, k: int, now: int) -> Seq<T::V> {
    rows_shifted::<T>(
        rows.update(k, T::binned(rows[k], now)),
        T::slot_of(rows[k]).scope,
        T::slot_of(rows[k]).position + 1,
        None,
        -1,
        now,
    )
}

/// The table after row `k` comes back from the bin to the position it kept.
pub open spec fn rows_reinserted<T: Sibling>(rows: Seq<T::V>, k: int, now: int) -> Seq<T::V> {
    rows_shifted::<T>(
        rows,
        T::slot_of(rows[k]).scope,
        T::slot_of(rows[k]).position,
        None,
        1,
        now,
    ).update(k, T::revived(rows[k], now))
}

/// A shift of the rows is the same shift of their slots, and leaves their
/// identifiers.
pub proof fn lemma_rows_shifted<T: Sibling>(
    rows: Seq<T::V>,
    scope: Seq<char>,
    lo: int,
    hi: Option<int>,
    delta: int,
    now: int,
)
    ensures
        slots::<T>(rows_shifted::<T>(rows, scope, lo, hi, delta, now)) == shift(
            slots::<T>(rows),
            scope,
            lo,
            hi,
            delta,
        ),
        unique_keys::<T>(rows) ==> unique_keys::<T>(
            rows_shifted::<T>(rows, scope, lo, hi, delta, now),
        ),
        forall|i: int|
            0 <= i < rows.len() ==> T::key_of(
                #[trigger] rows_shifted::<T>(rows, scope, lo, hi, delta, now)[i],
            ) == T::key_of(rows[i]),
{
    let after = rows_shifted::<T>(rows, scope, lo, hi, delta, now);
    assert forall|i: int| 0 <= i < rows.len() implies T::slot_of(#[trigger] after[i])
        == shift_slot(T::slot_of(rows[i]), scope, lo, hi, delta) && T::key_of(after[i])
        == T::key_of(rows[i]) by {
        T::lemma_slots(rows[i], T::slot_of(rows[i]).position + delta, now);
    }
    assert(slots::<T>(after) =~= shift(slots::<T>(rows), scope, lo, hi, delta));
    if unique_keys::<T>(rows) {
        assert forall|i: int, j: int| 0 <= i < j < after.len() implies T::key_of(
            #[trigger] after[i],
        ) != T::key_of(#[trigger] after[j]) by {
            assert(T::key_of(rows[i]) != T::key_of(rows[j]));
        }
    }
}

/// A shift leaves the rows in the bin, and the rows of other parents, as
/// they are: a row in the bin keeps the position it had when it went there.
pub proof fn lemma_shift_spares<T: Sibling>(
    rows: Seq<T::V>,
    scope: Seq<char>,
    lo: int,
    hi: Option<int>,
    delta: int,
    now: int,
)
    ensures
        forall|i: int|
            0 <= i < rows.len() && (!T::slot_of(rows[i]).active || T::slot_of(rows[i]).scope
                != scope) ==> #[trigger] rows_shifted::<T>(rows, scope, lo, hi, delta, now)[i]
                == rows[i],
{
}

/// Inserting a row inserts its slot.
pub proof fn lemma_rows_inserted<T: Sibling>(rows: Seq<T::V>, row: T::V, now: int)
    requires
        T::slot_of(row).active,
    ensures
        slots::<T>(rows_inserted::<T>(rows, row, now)) == inserted(
            slots::<T>(rows),
            T::slot_of(row).scope,
            T::slot_of(row).position,
        ),
{
    lemma_rows_shifted::<T>(rows, T::slot_of(row).scope, T::slot_of(row).position, None, 1, now);
    assert(slots::<T>(rows_inserted::<T>(rows, row, now)) =~= inserted(
        slots::<T>(rows),
        T::slot_of(row).scope,
        T::slot_of(row).position,
    ));
}

/// Moving a row moves its slot.
pub proof fn lemma_rows_moved<T: Sibling>(rows: Seq<T::V>, k: int, index: int, now: int)
    requires
        0 <= k < rows.len(),
    ensures
        slots::<T>(rows_moved::<T>(rows, k, index, now)) == moved(slots::<T>(rows), k, index),
        unique_keys::<T>(rows) ==> unique_keys::<T>(rows_moved::<T>(rows, k, index, now)),
        rows_moved::<T>(rows, k, index, now).len() == rows.len(),
        forall|i: int|
            0 <= i < rows.len() ==> T::key_of(#[trigger] rows_moved::<T>(rows, k, index, now)[i])
                == T::key_of(rows[i]),
{
    let from = T::slot_of(rows[k]).position;
    let scope = T::slot_of(rows[k]).scope;
    lemma_rows_shifted::<T>(rows, scope, from + 1, Some(index), -1, now);
    lemma_rows_shifted::<T>(rows, scope, index, Some(from - 1), 1, now);
    T::lemma_slots(rows[k], index, now);
    let after = rows_moved::<T>(rows, k, index, now);
    assert(slots::<T>(after) =~= moved(slots::<T>(rows), k, index));
    assert forall|i: int| 0 <= i < rows.len() implies T::key_of(#[trigger] after[i])
        == T::key_of(rows[i]) by {}
    if unique_keys::<T>(rows) {
        assert forall|i: int, j: int| 0 <= i < j < after.len() implies T::key_of(
            #[trigger] after[i],
        ) != T::key_of(#[trigger] after[j]) by {
            assert(T::key_of(rows[i]) != T::key_of(rows[j]));
        }
    }
}

/// Sending a row to the bin removes its slot.
pub proof fn lemma_rows_removed<T: Sibling>(rows: Seq<T::V>, k: int, now: int)
    requires
        0 <= k < rows.len(),
    ensures
        slots::<T>(rows_removed::<T>(rows, k, now)) == removed(slots::<T>(rows), k),
        unique_keys::<T>(rows) ==> unique_keys::<T>(rows_removed::<T>(rows, k, now)),
        rows_removed::<T>(rows, k, now).len() == rows.len(),
        forall|i: int|
            0 <= i < rows.len() ==> T::key_of(#[trigger] rows_removed::<T>(rows, k, now)[i])
                == T::key_of(rows[i]),
{
    let scope = T::slot_of(rows[k]).scope;
    let from = T::slot_of(rows[k]).position;
    let gone = rows.update(k, T::binned(rows[k], now));
    T::lemma_slots(rows[k], 0, now);
    lemma_rows_shifted::<T>(gone, scope, from + 1, None, -1, now);
    let after = rows_removed::<T>(rows, k, now);
    assert(slots::<T>(gone) =~= slots::<T>(rows).update(
        k,
        Slot { active: false, ..slots::<T>(rows)[k] },
    ));
    assert forall|i: int| 0 <= i < rows.len() implies T::key_of(#[trigger] after[i])
        == T::key_of(rows[i]) by {
        assert(T::key_of(gone[i]) == T::key_of(rows[i]));
    }
    if unique_keys::<T>(rows) {
        assert forall|i: int, j: int| 0 <= i < j < after.len() implies T::key_of(
            #[trigger] after[i],
        ) != T::key_of(#[trigger] after[j]) by {
            assert(T::key_of(rows[i]) != T::key_of(rows[j]));
        }
    }
}

/// Bringing a row back from the bin reinserts its slot.
pub proof fn lemma_rows_reinserted<T: Sibling>(rows: Seq<T::V>, k: int, now: int)
    requires
        0 <= k < rows.len(),
    ensures
        slots::<T>(rows_reinserted::<T>(rows, k, now)) == reinserted(slots::<T>(rows), k),
        unique_keys::<T>(rows) ==> unique_keys::<T>(rows_reinserted::<T>(rows, k, now)),
        rows_reinserted::<T>(rows, k, now).len() == rows.len(),
        forall|i: int|
            0 <= i < rows.len() ==> T::key_of(#[trigger] rows_reinserted::<T>(rows, k, now)[i])
                == T::key_of(rows[i]),
{
    let scope = T::slot_of(rows[k]).scope;
    let from = T::slot_of(rows[k]).position;
    T::lemma_slots(rows[k], 0, now);
    lemma_rows_shifted::<T>(rows, scope, from, None, 1, now);
    let after = rows_reinserted::<T>(rows, k, now);
    assert(slots::<T>(after) =~= reinserted(slots::<T>(rows), k));
    assert forall|i: int| 0 <= i < rows.len() implies T::key_of(#[trigger] after[i])
        == T::key_of(rows[i]) by {}
    if unique_keys::<T>(rows) {
        assert forall|i: int, j: int| 0 <= i < j < after.len() implies T::key_of(
            #[trigger] after[i],
        ) != T::key_of(#[trigger] after[j]) by {
            assert(T::key_of(rows[i]) != T::key_of(rows[j]));
        }
    }
}


/// An optional bound as the span of a shift reads it.
pub open spec fn bound(hi: Option<i64>) -> Option<int> {
    match hi {
        Some(h) => Some(h as int),
        None => None,
    }
}

/// One step up or one step down.
pub open spec fn step(up: bool) -> int {
    if up {
        1
    } else {
        -1
    }
}

/// The highest position among the active children of `scope`, if it has any.
pub fn highest_position<T: Sibling>(rows: &Vec<T>, scope: &str) -> (r: Option<i32>)
    ensures
        match r {
            Some(p) => highest(slots::<T>(views(rows@)), scope@) == Some(p as int),
            None => highest(slots::<T>(views(rows@)), scope@) is None,
        },
{
    let wanted = String::from_str(scope);
    let mut best: Option<i32> = None;
    let mut i: usize = 0;
    while i < rows.len()
        invariant
            i <= rows.len(),
            wanted@ == scope@,
            match best {
                Some(p) => highest(slots::<T>(views(rows@)).take(i as int), scope@) == Some(
                    p as int,
                ),
                None => highest(slots::<T>(views(rows@)).take(i as int), scope@) is None,
            },
        decreases rows.len() - i,
    {
        proof {
            let all = slots::<T>(views(rows@));
            assert(all.take(i + 1).drop_last() =~= all.take(i as int));
            assert(all.take(i + 1).last() == T::slot_of(rows[i as int]@));
        }
        if rows[i].is_active() && *rows[i].scope() == wanted {
            let p = rows[i].position();
            best =
            match best {
                Some(b) => if b < p {
                    Some(p)
                } else {
                    Some(b)
                },
                None => Some(p),
            };
        }
        i += 1;
    }
    proof {
        let all = slots::<T>(views(rows@));
        assert(all.take(rows.len() as int) =~= all);
    }
    best
}

/// Moves every active child of `scope` whose position lies in the span one
/// step up or down, and touches it at `now`.
pub fn shift_rows<T: Sibling>(
    rows: &mut Vec<T>,
    scope: &String,
    lo: i64,
    hi: Option<i64>,
    up: bool,
    now: i64,
)
    requires
        forall|i: int|
            0 <= i < old(rows).len() && reached(
                T::slot_of(#[trigger] old(rows)[i]@),
                scope@,
                lo as int,
                bound(hi),
            ) ==> i32::MIN <= T::slot_of(old(rows)[i]@).position + step(up) <= i32::MAX,
    ensures
        final(rows).len() == old(rows).len(),
        views(final(rows)@) == rows_shifted::<T>(
            views(old(rows)@),
            scope@,
            lo as int,
            bound(hi),
            step(up),
            now as int,
        ),
{
    let ghost before = views(old(rows)@);
    let ghost after = rows_shifted::<T>(before, scope@, lo as int, bound(hi), step(up), now as int);
    let mut i: usize = 0;
    while i < rows.len()
        invariant
            i <= rows.len(),
            rows.len() == old(rows).len(),
            before == views(old(rows)@),
            after == rows_shifted::<T>(before, scope@, lo as int, bound(hi), step(up), now as int),
            forall|j: int| i <= j < rows.len() ==> rows[j] == old(rows)[j],
            forall|j: int| 0 <= j < i ==> #[trigger] rows[j]@ == after[j],
            forall|i: int|
                0 <= i < old(rows).len() && reached(
                    T::slot_of(#[trigger] old(rows)[i]@),
                    scope@,
                    lo as int,
                    bound(hi),
                ) ==> i32::MIN <= T::slot_of(old(rows)[i]@).position + step(up) <= i32::MAX,
        decreases rows.len() - i,
    {
        let p = rows[i].position();
        let below = match hi {
            Some(h) => p as i64 <= h,
            None => true,
        };
        if rows[i].is_active() && *rows[i].scope() == *scope && lo <= p as i64 && below {
            let q: i32 = if up {
                p + 1
            } else {
                p - 1
            };
            rows[i].place(q, now);
        }
        proof {
            assert(before[i as int] == old(rows)[i as int]@);
        }
        i += 1;
    }
    assert(views(rows@) =~= after);
}

/// Inserts `row` at the position it carries: the active children of its
/// scope at or after that position move up by one.
pub fn insert_row<T: Sibling>(rows: &mut Vec<T>, row: T, now: i64)
    requires
        forall|i: int|
            0 <= i < old(rows).len() && reached(
                T::slot_of(#[trigger] old(rows)[i]@),
                T::slot_of(row@).scope,
                T::slot_of(row@).position,
                None,
            ) ==> T::slot_of(old(rows)[i]@).position < i32::MAX,
    ensures
        views(final(rows)@) == rows_inserted::<T>(views(old(rows)@), row@, now as int),
{
    let scope = row.scope().clone();
    let at = row.position();
    proof {
        assert forall|i: int| 0 <= i < rows.len() implies i32::MIN <= T::slot_of(
            #[trigger] rows[i]@,
        ).position <= i32::MAX by {
            rows[i].lemma_position_fits();
        }
    }
    shift_rows(rows, &scope, at as i64, None, true, now);
    rows.push(row);
    assert(views(rows@) =~= rows_inserted::<T>(views(old(rows)@), row@, now as int));
}

/// Moves row `k` to `index` within its scope.
pub fn move_row<T: Sibling>(rows: &mut Vec<T>, k: usize, index: i32, now: i64)
    requires
        k < old(rows).len(),
    ensures
        views(final(rows)@) == rows_moved::<T>(
            views(old(rows)@),
            k as int,
            index as int,
            now as int,
        ),
{
    let scope = rows[k].scope().clone();
    let from = rows[k].position();
    let ghost before = views(old(rows)@);
    assert(before[k as int] == old(rows)[k as int]@);
    proof {
        assert forall|i: int| 0 <= i < rows.len() implies i32::MIN <= T::slot_of(
            #[trigger] rows[i]@,
        ).position <= i32::MAX by {
            rows[i].lemma_position_fits();
        }
    }
    if index > from {
        shift_rows(rows, &scope, from as i64 + 1, Some(index as i64), false, now);
    } else if index < from {
        shift_rows(rows, &scope, index as i64, Some(from as i64 - 1), true, now);
    }
    proof {
        T::lemma_slots(before[k as int], from + 1, now as int);
        assert(views(rows@)[k as int] == rows[k as int]@);
        assert(!reached(T::slot_of(before[k as int]), scope@, from + 1, Some(index as int)));
        assert(!reached(T::slot_of(before[k as int]), scope@, index as int, Some(from - 1)));
        assert(rows[k as int]@ == before[k as int]);
    }
    rows[k].place(index, now);
    assert(views(rows@) =~= rows_moved::<T>(before, k as int, index as int, now as int));
}

/// Sends row `k` to the bin: it keeps its position, and the active children
/// of its scope after it move down by one.
pub fn remove_row<T: Sibling>(rows: &mut Vec<T>, k: usize, now: i64)
    requires
        k < old(rows).len(),
    ensures
        views(final(rows)@) == rows_removed::<T>(views(old(rows)@), k as int, now as int),
{
    let scope = rows[k].scope().clone();
    let from = rows[k].position();
    let ghost before = views(old(rows)@);
    assert(before[k as int] == old(rows)[k as int]@);
    rows[k].bin(now);
    assert(views(rows@) =~= before.update(k as int, T::binned(before[k as int], now as int)));
    proof {
        assert forall|i: int| 0 <= i < rows.len() implies i32::MIN <= T::slot_of(
            #[trigger] rows[i]@,
        ).position <= i32::MAX by {
            rows[i].lemma_position_fits();
        }
    }
    shift_rows(rows, &scope, from as i64 + 1, None, false, now);
}

/// Brings row `k` back from the bin to the position it kept: the active
/// children of its scope at or after that position move up by one.
pub fn reinsert_row<T: Sibling>(rows: &mut Vec<T>, k: usize, now: i64)
    requires
        k < old(rows).len(),
        !T::slot_of(old(rows)[k as int]@).active,
        forall|i: int|
            0 <= i < old(rows).len() && reached(
                T::slot_of(#[trigger] old(rows)[i]@),
                T::slot_of(old(rows)[k as int]@).scope,
                T::slot_of(old(rows)[k as int]@).position,
                None,
            ) ==> T::slot_of(old(rows)[i]@).position < i32::MAX,
    ensures
        views(final(rows)@) == rows_reinserted::<T>(views(old(rows)@), k as int, now as int),
{
    let scope = rows[k].scope().clone();
    let from = rows[k].position();
    let ghost before = views(old(rows)@);
    assert(before[k as int] == old(rows)[k as int]@);
    proof {
        assert forall|i: int| 0 <= i < rows.len() implies i32::MIN <= T::slot_of(
            #[trigger] rows[i]@,
        ).position <= i32::MAX by {
            rows[i].lemma_position_fits();
        }
    }
    shift_rows(rows, &scope, from as i64, None, true, now);
    proof {
        assert(views(rows@)[k as int] == rows[k as int]@);
        assert(!reached(T::slot_of(before[k as int]), scope@, from as int, None));
        assert(rows[k as int]@ == before[k as int]);
    }
    rows[k].revive(now);
    assert(views(rows@) =~= rows_reinserted::<T>(before, k as int, now as int));
}


/// The highest position that the active children of `scope` would hold after
/// a shift of `moving` over the span, if `scope` has any. The rows stay as
/// they are.
pub fn highest_position_after_shift<T: Sibling>(
    rows: &Vec<T>,
    scope: &str,
    moving: &String,
    lo: i64,
    hi: Option<i64>,
    up: bool,
) -> (r: Option<i64>)
    ensures
        match r {
            Some(p) => highest(
                shift(slots::<T>(views(rows@)), moving@, lo as int, bound(hi), step(up)),
                scope@,
            ) == Some(p as int),
            None => highest(
                shift(slots::<T>(views(rows@)), moving@, lo as int, bound(hi), step(up)),
                scope@,
            ) is None,
        },
{
    let wanted = String::from_str(scope);
    let mut best: Option<i64> = None;
    let mut i: usize = 0;
    let ghost all = shift(slots::<T>(views(rows@)), moving@, lo as int, bound(hi), step(up));
    while i < rows.len()
        invariant
            i <= rows.len(),
            wanted@ == scope@,
            all == shift(slots::<T>(views(rows@)), moving@, lo as int, bound(hi), step(up)),
            match best {
                Some(p) => highest(all.take(i as int), scope@) == Some(p as int),
                None => highest(all.take(i as int), scope@) is None,
            },
        decreases rows.len() - i,
    {
        proof {
            assert(all.take(i + 1).drop_last() =~= all.take(i as int));
            assert(all.take(i + 1).last() == shift_slot(
                T::slot_of(rows[i as int]@),
                moving@,
                lo as int,
                bound(hi),
                step(up),
            ));
            rows[i as int].lemma_position_fits();
        }
        if rows[i].is_active() && *rows[i].scope() == wanted {
            let at = rows[i].position() as i64;
            let below = match hi {
                Some(h) => at <= h,
                None => true,
            };
            let p: i64 = if *rows[i].scope() == *moving && lo <= at && below {
                if up {
                    at + 1
                } else {
                    at - 1
                }
            } else {
                at
            };
            best =
            match best {
                Some(b) => if b < p {
                    Some(p)
                } else {
                    Some(b)
                },
                None => Some(p),
            };
        }
        i += 1;
    }
    proof {
        assert(all.take(rows.len() as int) =~= all);
    }
    best
}

/// Putting a row with the same identifier in a row's place keeps the
/// identifiers different.
pub proof fn lemma_update_keeps_keys<T: Keyed>(rows: Seq<T::V>, k: int, v: T::V)
    requires
        0 <= k < rows.len(),
        T::key_of(v) == T::key_of(rows[k]),
        unique_keys::<T>(rows),
    ensures
        unique_keys::<T>(rows.update(k, v)),
{
    let after = rows.update(k, v);
    assert forall|i: int, j: int| 0 <= i < j < after.len() implies T::key_of(#[trigger] after[i])
        != T::key_of(#[trigger] after[j]) by {
        assert(T::key_of(rows[i]) != T::key_of(rows[j]));
    }
}

/// Adding a row whose identifier no row carries keeps the identifiers
/// different.
pub proof fn lemma_push_keeps_keys<T: Keyed>(rows: Seq<T::V>, v: T::V)
    requires
        !has_key::<T>(rows, T::key_of(v)),
        unique_keys::<T>(rows),
    ensures
        unique_keys::<T>(rows.push(v)),
{
    let after = rows.push(v);
    assert forall|i: int, j: int| 0 <= i < j < after.len() implies T::key_of(#[trigger] after[i])
        != T::key_of(#[trigger] after[j]) by {
        if j < rows.len() {
            assert(T::key_of(rows[i]) != T::key_of(rows[j]));
        } else {
            assert(T::key_of(rows[i]) != T::key_of(v));
        }
    }
}

/// A shift leaves `lookup` as it was.
pub proof fn lemma_same_keys_lookup<T: Keyed>(a: Seq<T::V>, b: Seq<T::V>, id: Seq<char>)
    requires
        a.len() == b.len(),
        forall|i: int| 0 <= i < a.len() ==> T::key_of(#[trigger] b[i]) == T::key_of(a[i]),
    ensures
        lookup::<T>(b, id) == lookup::<T>(a, id),
{
    if has_key::<T>(a, id) {
        lemma_lookup_some::<T>(a, id);
        let k = lookup::<T>(a, id).unwrap();
        assert(T::key_of(b[k]) == id);
        assert forall|j: int| 0 <= j < k implies T::key_of(#[trigger] b[j]) != id by {
            assert(T::key_of(a[j]) != id);
        }
        lemma_lookup_found::<T>(b, id, k);
    } else {
        if has_key::<T>(b, id) {
            let j = choose|j: int| 0 <= j < b.len() && T::key_of(#[trigger] b[j]) == id;
            assert(T::key_of(a[j]) == id);
        }
    }
}


/// A row that joins the table leaves the place at which an identifier was
/// found; an identifier that was not found is found at the new row's place
/// if the row carries it, and not at all if it does not.
pub proof fn lemma_lookup_push<T: Keyed>(rows: Seq<T::V>, row: T::V, id: Seq<char>)
    ensures
        lookup::<T>(rows, id) is Some ==> lookup::<T>(rows.push(row), id) == lookup::<T>(rows, id),
        lookup::<T>(rows, id) is None && T::key_of(row) == id ==> lookup::<T>(rows.push(row), id)
            == Some(rows.len() as int),
        lookup::<T>(rows, id) is None && T::key_of(row) != id ==> lookup::<T>(rows.push(row), id)
            is None,
{
    let after = rows.push(row);
    if lookup::<T>(rows, id) is Some {
        lemma_lookup_some::<T>(rows, id);
        let k = lookup::<T>(rows, id).unwrap();
        assert(after[k] == rows[k]);
        assert forall|j: int| 0 <= j < k implies T::key_of(#[trigger] after[j]) != id by {
            assert(after[j] == rows[j]);
            assert(T::key_of(rows[j]) != id);
        }
        lemma_lookup_found::<T>(after, id, k);
    } else if T::key_of(row) == id {
        assert forall|j: int| 0 <= j < rows.len() implies T::key_of(#[trigger] after[j]) != id by {
            assert(after[j] == rows[j]);
            assert(T::key_of(rows[j]) != id);
        }
        assert(T::key_of(after[rows.len() as int]) == id);
        lemma_lookup_found::<T>(after, id, rows.len() as int);
    } else {
        if has_key::<T>(after, id) {
            let j = choose|j: int| 0 <= j < after.len() && T::key_of(#[trigger] after[j]) == id;
            assert(after[j] == rows[j]);
            assert(T::key_of(rows[j]) == id);
        }
    }
}

/// Where no identifier occurs twice, a row is found under its identifier
/// at its own place.
pub proof fn lemma_lookup_own<T: Keyed>(rows: Seq<T::V>, k: int)
    requires
        unique_keys::<T>(rows),
        0 <= k < rows.len(),
    ensures
        lookup::<T>(rows, T::key_of(rows[k])) == Some(k),
{
    assert forall|j: int| 0 <= j < k implies T::key_of(#[trigger] rows[j]) != T::key_of(
        rows[k],
    ) by {}
    lemma_lookup_found::<T>(rows, T::key_of(rows[k]), k);
}

} // verus!
