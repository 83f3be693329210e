//! The position index: the rule that keeps the active rows of one parent at
//! the positions `0, 1, .., n - 1`, each taken once.
//!
//! The rule is stated over [`Slot`]s, which hold of a row only what the rule
//! reads: its parent, its position and whether it is active. Columns within a
//! deck and cards within a column are the two instances.

use vstd::prelude::*;
use vstd::set_lib::*;

verus! {

/// What the position index reads of a row.
pub struct Slot {
    /// The identifier of the parent whose children are ordered together.
    pub scope: Seq<char>,
    pub position: int,
    /// Whether the row is active, that is, not in the bin.
    pub active: bool,
}

/// Whether the slot is an active child of `scope`.
pub open spec fn member(s: Slot, scope: Seq<char>) -> bool {
    s.active && s.scope == scope
}

/// The number of active children of `scope`.
pub open spec fn count(slots: Seq<Slot>, scope: Seq<char>) -> nat
    decreases slots.len(),
{
    if slots.len() == 0 {
        0
    } else {
        count(slots.drop_last(), scope) + if member(slots.last(), scope) {
            1nat
        } else {
            0nat
        }
    }
}

/// The highest position among the active children of `scope`, if it has any.
pub open spec fn highest(slots: Seq<Slot>, scope: Seq<char>) -> Option<int>
    decreases slots.len(),
{
    if slots.len() == 0 {
        None
    } else {
        let rest = highest(slots.drop_last(), scope);
        if member(slots.last(), scope) && (rest is None || rest.unwrap() < slots.last().position) {
            Some(slots.last().position)
        } else {
            rest
        }
    }
}

/// The position that a row appended to `scope` takes: one past the highest,
/// or zero where the scope has no active child.
pub open spec fn next_position(slots: Seq<Slot>, scope: Seq<char>) -> int {
    match highest(slots, scope) {
        Some(m) => m + 1,
        None => 0,
    }
}

/// The positions that the active children of `scope` hold.
pub open spec fn occupied(slots: Seq<Slot>, scope: Seq<char>) -> Set<int>
    decreases slots.len(),
{
    if slots.len() == 0 {
        Set::empty()
    } else if member(slots.last(), scope) {
        occupied(slots.drop_last(), scope).insert(slots.last().position)
    } else {
        occupied(slots.drop_last(), scope)
    }
}

/// No two active children of `scope` hold the same position.
pub open spec fn distinct(slots: Seq<Slot>, scope: Seq<char>) -> bool {
    forall|i: int, j: int|
        0 <= i < j < slots.len() && member(#[trigger] slots[i], scope) && member(
            #[trigger] slots[j],
            scope,
        ) ==> slots[i].position != slots[j].position
}

/// The active children of `scope` hold positions below their number, each a
/// different one: together, exactly the positions `0, .., n - 1`
/// (see [`lemma_gap_free_occupies_range`]).
pub open spec fn gap_free(slots: Seq<Slot>, scope: Seq<char>) -> bool {
    &&& forall|i: int|
        0 <= i < slots.len() && member(#[trigger] slots[i], scope) ==> 0 <= slots[i].position
            < count(slots, scope)
    &&& distinct(slots, scope)
}

/// Whether `position` lies at or above `lo` and, where `hi` is given, at or
/// below it.
pub open spec fn in_span(position: int, lo: int, hi: Option<int>) -> bool {
    lo <= position && match hi {
        Some(h) => position <= h,
        None => true,
    }
}

/// Whether a shift of `scope` over the span reaches the slot.
pub open spec fn reached(s: Slot, scope: Seq<char>, lo: int, hi: Option<int>) -> bool {
    member(s, scope) && in_span(s.position, lo, hi)
}

/// The slot after a shift: moved by `delta` where the shift reaches it.
pub open spec fn shift_slot(
    s: Slot,
    scope: Seq<char>,
    lo: int,
    hi: Option<int>,
    delta: int,
) -> Slot {
    if reached(s, scope, lo, hi) {
        Slot { position: s.position + delta, ..s }
    } else {
        s
    }
}

/// Every active child of `scope` whose position lies in the span moves by
/// `delta`; nothing else changes.
pub open spec fn shift(
    slots: Seq<Slot>,
    scope: Seq<char>,
    lo: int,
    hi: Option<int>,
    delta: int,
) -> Seq<Slot> {
    slots.map_values(|s: Slot| shift_slot(s, scope, lo, hi, delta))
}

pub proof fn lemma_count_push(slots: Seq<Slot>, x: Slot, scope: Seq<char>)
    ensures
        count(slots.push(x), scope) == count(slots, scope) + if member(x, scope) {
            1nat
        } else {
            0nat
        },
{
    assert(slots.push(x).drop_last() =~= slots);
}

/// Two sequences with the same members, place by place, have the same count.
pub proof fn lemma_count_same(a: Seq<Slot>, b: Seq<Slot>, scope: Seq<char>)
    requires
        a.len() == b.len(),
        forall|i: int| 0 <= i < a.len() ==> member(#[trigger] a[i], scope) == member(b[i], scope),
    ensures
        count(a, scope) == count(b, scope),
    decreases a.len(),
{
    if a.len() > 0 {
        assert forall|i: int| 0 <= i < a.drop_last().len() implies member(
            #[trigger] a.drop_last()[i],
            scope,
        ) == member(b.drop_last()[i], scope) by {
            assert(a.drop_last()[i] == a[i]);
        }
        lemma_count_same(a.drop_last(), b.drop_last(), scope);
        assert(member(a[a.len() - 1], scope) == member(b[a.len() - 1], scope));
    }
}

pub proof fn lemma_count_update(slots: Seq<Slot>, k: int, x: Slot, scope: Seq<char>)
    requires
        0 <= k < slots.len(),
    ensures
        count(slots.update(k, x), scope) + (if member(slots[k], scope) {
            1nat
        } else {
            0nat
        }) == count(slots, scope) + (if member(x, scope) {
            1nat
        } else {
            0nat
        }),
    decreases slots.len(),
{
    if k == slots.len() - 1 {
        assert(slots.update(k, x).drop_last() =~= slots.drop_last());
    } else {
        lemma_count_update(slots.drop_last(), k, x, scope);
        assert(slots.update(k, x).drop_last() =~= slots.drop_last().update(k, x));
    }
}

pub proof fn lemma_count_shift(
    slots: Seq<Slot>,
    scope: Seq<char>,
    lo: int,
    hi: Option<int>,
    delta: int,
    other: Seq<char>,
)
    ensures
        count(shift(slots, scope, lo, hi, delta), other) == count(slots, other),
{
    lemma_count_same(shift(slots, scope, lo, hi, delta), slots, other);
}

/// A scope with an active child has a count of at least one.
pub proof fn lemma_count_member(slots: Seq<Slot>, k: int, scope: Seq<char>)
    requires
        0 <= k < slots.len(),
        member(slots[k], scope),
    ensures
        count(slots, scope) >= 1,
    decreases slots.len(),
{
    if k < slots.len() - 1 {
        lemma_count_member(slots.drop_last(), k, scope);
    }
}

/// What `occupied` holds: the positions of the active children, a finite set.
pub proof fn lemma_occupied(slots: Seq<Slot>, scope: Seq<char>)
    ensures
        occupied(slots, scope).finite(),
        forall|p: int| #[trigger]
            occupied(slots, scope).contains(p) <==> exists|i: int|
                0 <= i < slots.len() && member(#[trigger] slots[i], scope) && slots[i].position
                    == p,
    decreases slots.len(),
{
    if slots.len() > 0 {
        let rest = slots.drop_last();
        lemma_occupied(rest, scope);
        assert forall|p: int| #[trigger]
            occupied(slots, scope).contains(p) <==> exists|i: int|
                0 <= i < slots.len() && member(#[trigger] slots[i], scope) && slots[i].position
                    == p by {
            if occupied(slots, scope).contains(p) {
                if occupied(rest, scope).contains(p) {
                    let i = choose|i: int|
                        0 <= i < rest.len() && member(#[trigger] rest[i], scope)
                            && rest[i].position == p;
                    assert(slots[i] == rest[i]);
                } else {
                    assert(member(slots[slots.len() - 1], scope));
                }
            }
            if exists|i: int|
                0 <= i < slots.len() && member(#[trigger] slots[i], scope) && slots[i].position
                    == p {
                let i = choose|i: int|
                    0 <= i < slots.len() && member(#[trigger] slots[i], scope)
                        && slots[i].position == p;
                if i < slots.len() - 1 {
                    assert(rest[i] == slots[i]);
                    assert(occupied(rest, scope).contains(p));
                }
            }
        }
    }
}

/// Where the active children hold different positions, there are as many
/// positions held as there are active children.
pub proof fn lemma_occupied_len(slots: Seq<Slot>, scope: Seq<char>)
    requires
        distinct(slots, scope),
    ensures
        occupied(slots, scope).finite(),
        occupied(slots, scope).len() == count(slots, scope),
    decreases slots.len(),
{
    lemma_occupied(slots, scope);
    if slots.len() > 0 {
        let rest = slots.drop_last();
        assert forall|i: int, j: int|
            0 <= i < j < rest.len() && member(#[trigger] rest[i], scope) && member(
                #[trigger] rest[j],
                scope,
            ) implies rest[i].position != rest[j].position by {
            assert(rest[i] == slots[i] && rest[j] == slots[j]);
        }
        lemma_occupied_len(rest, scope);
        lemma_occupied(rest, scope);
        if member(slots.last(), scope) {
            if occupied(rest, scope).contains(slots.last().position) {
                let i = choose|i: int|
                    0 <= i < rest.len() && member(#[trigger] rest[i], scope) && rest[i].position
                        == slots.last().position;
                assert(rest[i] == slots[i]);
                assert(member(slots[slots.len() - 1], scope));
                assert(false);
            }
        }
    }
}

/// The gap-free invariant in the words of sets: the positions held by the
/// active children of a gap-free scope are exactly `0, .., n - 1`, where `n`
/// is their number.
pub proof fn lemma_gap_free_occupies_range(slots: Seq<Slot>, scope: Seq<char>)
    requires
        gap_free(slots, scope),
    ensures
        occupied(slots, scope) == set_int_range(0, count(slots, scope) as int),
{
    let n = count(slots, scope) as int;
    lemma_occupied(slots, scope);
    lemma_occupied_len(slots, scope);
    lemma_int_range(0, n);
    assert(occupied(slots, scope).subset_of(set_int_range(0, n))) by {
        assert forall|p: int| occupied(slots, scope).contains(p) implies set_int_range(
            0,
            n,
        ).contains(p) by {
            let i = choose|i: int|
                0 <= i < slots.len() && member(#[trigger] slots[i], scope) && slots[i].position
                    == p;
        }
    }
    lemma_subset_equality(occupied(slots, scope), set_int_range(0, n));
}

/// In a gap-free scope every position below the count is held by some
/// active child.
pub proof fn lemma_gap_free_holder(slots: Seq<Slot>, scope: Seq<char>, p: int) -> (i: int)
    requires
        gap_free(slots, scope),
        0 <= p < count(slots, scope),
    ensures
        0 <= i < slots.len(),
        member(slots[i], scope),
        slots[i].position == p,
{
    lemma_gap_free_occupies_range(slots, scope);
    lemma_occupied(slots, scope);
    assert(set_int_range(0, count(slots, scope) as int).contains(p));
    assert(occupied(slots, scope).contains(p));
    choose|i: int|
        0 <= i < slots.len() && member(#[trigger] slots[i], scope) && slots[i].position == p
}

/// What `highest` holds: nothing where the scope has no active child, else a
/// position that some active child holds and none exceeds.
pub proof fn lemma_highest(slots: Seq<Slot>, scope: Seq<char>)
    ensures
        highest(slots, scope) is None <==> count(slots, scope) == 0,
        forall|i: int|
            0 <= i < slots.len() && member(#[trigger] slots[i], scope) ==> highest(slots, scope)
                is Some && slots[i].position <= highest(slots, scope).unwrap(),
        highest(slots, scope) is Some ==> exists|i: int|
            0 <= i < slots.len() && member(#[trigger] slots[i], scope) && slots[i].position
                == highest(slots, scope).unwrap(),
    decreases slots.len(),
{
    if slots.len() > 0 {
        let rest = slots.drop_last();
        lemma_highest(rest, scope);
        assert forall|i: int|
            0 <= i < slots.len() && member(#[trigger] slots[i], scope) implies highest(
            slots,
            scope,
        ) is Some && slots[i].position <= highest(slots, scope).unwrap() by {
            if i < slots.len() - 1 {
                assert(rest[i] == slots[i]);
            }
        }
        if highest(slots, scope) is Some {
            if highest(slots, scope) == highest(rest, scope) {
                let i = choose|i: int|
                    0 <= i < rest.len() && member(#[trigger] rest[i], scope) && rest[i].position
                        == highest(rest, scope).unwrap();
                assert(slots[i] == rest[i]);
            } else {
                assert(member(slots[slots.len() - 1], scope));
            }
        }
    }
}

/// In a gap-free scope a row is appended at the number of active children.
pub proof fn lemma_gap_free_next(slots: Seq<Slot>, scope: Seq<char>)
    requires
        gap_free(slots, scope),
    ensures
        next_position(slots, scope) == count(slots, scope),
{
    lemma_highest(slots, scope);
    let n = count(slots, scope) as int;
    if n > 0 {
        let i = lemma_gap_free_holder(slots, scope, n - 1);
        let j = choose|j: int|
            0 <= j < slots.len() && member(#[trigger] slots[j], scope) && slots[j].position
                == highest(slots, scope).unwrap();
    }
}


/// The slots after a row is appended to `scope`.
pub open spec fn appended(slots: Seq<Slot>, scope: Seq<char>) -> Seq<Slot> {
    slots.push(Slot { scope: scope, position: next_position(slots, scope), active: true })
}

/// The slots after a row is inserted into `scope` at `index`: the active
/// children at or after `index` move up by one, then the row takes `index`.
pub open spec fn inserted(slots: Seq<Slot>, scope: Seq<char>, index: int) -> Seq<Slot> {
    shift(slots, scope, index, None, 1).push(Slot { scope: scope, position: index, active: true })
}

/// The slots after row `k` is moved to `index` within its scope: the rows
/// between the old and the new position close the gap, then the row takes
/// `index`.
pub open spec fn moved(slots: Seq<Slot>, k: int, index: int) -> Seq<Slot> {
    let from = slots[k].position;
    let scope = slots[k].scope;
    let shifted = if index > from {
        shift(slots, scope, from + 1, Some(index), -1)
    } else if index < from {
        shift(slots, scope, index, Some(from - 1), 1)
    } else {
        slots
    };
    shifted.update(k, Slot { position: index, ..slots[k] })
}

/// The slots after row `k` goes to the bin: it keeps its position, and the
/// active children after it move down by one.
pub open spec fn removed(slots: Seq<Slot>, k: int) -> Seq<Slot> {
    shift(
        slots.update(k, Slot { active: false, ..slots[k] }),
        slots[k].scope,
        slots[k].position + 1,
        None,
        -1,
    )
}

/// The slots after row `k` comes back from the bin to the position it kept:
/// the active children at or after that position move up by one.
pub open spec fn reinserted(slots: Seq<Slot>, k: int) -> Seq<Slot> {
    shift(slots, slots[k].scope, slots[k].position, None, 1).update(
        k,
        Slot { active: true, ..slots[k] },
    )
}

/// The slots after row `k` leaves its scope for the end of `scope`: the
/// active children after it move down by one, then the row is appended to
/// `scope`.
pub open spec fn transferred(slots: Seq<Slot>, k: int, scope: Seq<char>) -> Seq<Slot> {
    let shifted = shift(slots, slots[k].scope, slots[k].position + 1, None, -1);
    shifted.update(k, Slot { scope: scope, position: next_position(shifted, scope), ..slots[k] })
}

/// A change that leaves the active children of `scope` and their positions
/// as they were leaves the scope gap-free.
pub proof fn lemma_gap_free_same(a: Seq<Slot>, b: Seq<Slot>, scope: Seq<char>)
    requires
        a.len() == b.len(),
        forall|i: int|
            0 <= i < a.len() ==> member(#[trigger] b[i], scope) == member(a[i], scope) && (member(
                a[i],
                scope,
            ) ==> b[i].position == a[i].position),
        gap_free(a, scope),
    ensures
        gap_free(b, scope),
        count(b, scope) == count(a, scope),
{
    lemma_count_same(b, a, scope);
    assert forall|i: int| 0 <= i < b.len() && member(#[trigger] b[i], scope) implies 0
        <= b[i].position < count(b, scope) by {
        assert(member(a[i], scope));
    }
    assert forall|i: int, j: int|
        0 <= i < j < b.len() && member(#[trigger] b[i], scope) && member(
            #[trigger] b[j],
            scope,
        ) implies b[i].position != b[j].position by {
        assert(member(a[i], scope) && member(a[j], scope));
    }
}

/// A shift of one scope leaves every other scope gap-free.
pub proof fn lemma_shift_frame(
    slots: Seq<Slot>,
    scope: Seq<char>,
    lo: int,
    hi: Option<int>,
    delta: int,
    other: Seq<char>,
)
    requires
        other != scope,
        gap_free(slots, other),
    ensures
        gap_free(shift(slots, scope, lo, hi, delta), other),
        count(shift(slots, scope, lo, hi, delta), other) == count(slots, other),
        highest(shift(slots, scope, lo, hi, delta), other) == highest(slots, other),
{
    lemma_gap_free_same(slots, shift(slots, scope, lo, hi, delta), other);
    lemma_highest_frame(slots, scope, lo, hi, delta, other);
}

/// A shift of one scope leaves the highest position of every other scope.
pub proof fn lemma_highest_frame(
    slots: Seq<Slot>,
    scope: Seq<char>,
    lo: int,
    hi: Option<int>,
    delta: int,
    other: Seq<char>,
)
    requires
        other != scope,
    ensures
        highest(shift(slots, scope, lo, hi, delta), other) == highest(slots, other),
    decreases slots.len(),
{
    if slots.len() > 0 {
        lemma_highest_frame(slots.drop_last(), scope, lo, hi, delta, other);
        assert(shift(slots, scope, lo, hi, delta).drop_last() =~= shift(
            slots.drop_last(),
            scope,
            lo,
            hi,
            delta,
        ));
    }
}

/// Appending keeps every gap-free scope gap-free.
pub proof fn lemma_appended_gap_free(slots: Seq<Slot>, scope: Seq<char>, other: Seq<char>)
    requires
        gap_free(slots, other),
    ensures
        gap_free(appended(slots, scope), other),
{
    let after = appended(slots, scope);
    lemma_count_push(slots, after.last(), other);
    if other == scope {
        lemma_gap_free_next(slots, scope);
    }
    assert forall|i: int| 0 <= i < after.len() && member(#[trigger] after[i], other) implies 0
        <= after[i].position < count(after, other) by {
        if i < slots.len() {
            assert(after[i] == slots[i]);
        }
    }
    assert forall|i: int, j: int|
        0 <= i < j < after.len() && member(#[trigger] after[i], other) && member(
            #[trigger] after[j],
            other,
        ) implies after[i].position != after[j].position by {
        assert(after[i] == slots[i]);
        if j < slots.len() {
            assert(after[j] == slots[j]);
        }
    }
}

/// Inserting at an index from zero up to the number of active children keeps
/// the scope gap-free; every other gap-free scope stays so.
pub proof fn lemma_inserted_gap_free(
    slots: Seq<Slot>,
    scope: Seq<char>,
    index: int,
    other: Seq<char>,
)
    requires
        gap_free(slots, other),
        other == scope ==> 0 <= index <= count(slots, scope),
    ensures
        gap_free(inserted(slots, scope, index), other),
{
    let mid = shift(slots, scope, index, None, 1);
    let after = inserted(slots, scope, index);
    lemma_count_shift(slots, scope, index, None, 1, other);
    lemma_count_push(mid, after.last(), other);
    assert forall|i: int| 0 <= i < slots.len() implies #[trigger] after[i] == shift_slot(
        slots[i],
        scope,
        index,
        None,
        1,
    ) by {}
    assert forall|i: int| 0 <= i < after.len() && member(#[trigger] after[i], other) implies 0
        <= after[i].position < count(after, other) by {
        if i < slots.len() {
            assert(member(slots[i], other));
        }
    }
    assert forall|i: int, j: int|
        0 <= i < j < after.len() && member(#[trigger] after[i], other) && member(
            #[trigger] after[j],
            other,
        ) implies after[i].position != after[j].position by {
        assert(member(slots[i], other));
        if j < slots.len() {
            assert(member(slots[j], other));
        }
    }
}

/// Moving an active row to an index below the number of active children
/// keeps its scope gap-free; every other gap-free scope stays so.
pub proof fn lemma_moved_gap_free(slots: Seq<Slot>, k: int, index: int, other: Seq<char>)
    requires
        0 <= k < slots.len(),
        slots[k].active,
        gap_free(slots, other),
        other == slots[k].scope ==> 0 <= index < count(slots, other),
    ensures
        gap_free(moved(slots, k, index), other),
{
    let from = slots[k].position;
    let scope = slots[k].scope;
    let after = moved(slots, k, index);
    assert forall|i: int| 0 <= i < slots.len() implies member(#[trigger] after[i], other)
        == member(slots[i], other) && (member(slots[i], other) ==> after[i].position == (if i
        == k {
        index
    } else if index > from && reached(slots[i], scope, from + 1, Some(index)) {
        slots[i].position - 1
    } else if index < from && reached(slots[i], scope, index, Some(from - 1)) {
        slots[i].position + 1
    } else {
        slots[i].position
    })) by {}
    lemma_count_same(after, slots, other);
    assert forall|i: int| 0 <= i < after.len() && member(#[trigger] after[i], other) implies 0
        <= after[i].position < count(after, other) by {
        assert(member(slots[i], other));
        assert(member(slots[k], scope));
    }
    assert forall|i: int, j: int|
        0 <= i < j < after.len() && member(#[trigger] after[i], other) && member(
            #[trigger] after[j],
            other,
        ) implies after[i].position != after[j].position by {
        assert(member(slots[i], other) && member(slots[j], other));
        assert(member(slots[k], scope));
    }
}

/// Sending an active row to the bin keeps its scope gap-free; every other
/// gap-free scope stays so.
pub proof fn lemma_removed_gap_free(slots: Seq<Slot>, k: int, other: Seq<char>)
    requires
        0 <= k < slots.len(),
        slots[k].active,
        gap_free(slots, other),
    ensures
        gap_free(removed(slots, k), other),
        count(removed(slots, k), other) + (if other == slots[k].scope {
            1nat
        } else {
            0nat
        }) == count(slots, other),
{
    let scope = slots[k].scope;
    let gone = slots.update(k, Slot { active: false, ..slots[k] });
    let after = removed(slots, k);
    lemma_count_update(slots, k, gone[k], other);
    lemma_count_shift(gone, scope, slots[k].position + 1, None, -1, other);
    assert forall|i: int| 0 <= i < slots.len() implies #[trigger] after[i] == shift_slot(
        gone[i],
        scope,
        slots[k].position + 1,
        None,
        -1,
    ) by {}
    assert forall|i: int| 0 <= i < after.len() && member(#[trigger] after[i], other) implies 0
        <= after[i].position < count(after, other) by {
        assert(i != k);
        assert(member(slots[i], other));
        assert(member(slots[k], scope));
    }
    assert forall|i: int, j: int|
        0 <= i < j < after.len() && member(#[trigger] after[i], other) && member(
            #[trigger] after[j],
            other,
        ) implies after[i].position != after[j].position by {
        assert(member(slots[i], other) && member(slots[j], other));
        assert(member(slots[k], scope));
    }
}

/// Bringing a row back from the bin keeps its scope gap-free where the
/// position it kept is at most the number of active children; every other
/// gap-free scope stays so.
pub proof fn lemma_reinserted_gap_free(slots: Seq<Slot>, k: int, other: Seq<char>)
    requires
        0 <= k < slots.len(),
        !slots[k].active,
        gap_free(slots, other),
        other == slots[k].scope ==> 0 <= slots[k].position <= count(slots, other),
    ensures
        gap_free(reinserted(slots, k), other),
        count(reinserted(slots, k), other) == count(slots, other) + (if other == slots[k].scope {
            1nat
        } else {
            0nat
        }),
{
    let scope = slots[k].scope;
    let mid = shift(slots, scope, slots[k].position, None, 1);
    let after = reinserted(slots, k);
    lemma_count_shift(slots, scope, slots[k].position, None, 1, other);
    lemma_count_update(mid, k, after[k], other);
    assert forall|i: int| 0 <= i < slots.len() && i != k implies #[trigger] after[i]
        == shift_slot(slots[i], scope, slots[k].position, None, 1) by {}
    assert forall|i: int| 0 <= i < after.len() && member(#[trigger] after[i], other) implies 0
        <= after[i].position < count(after, other) by {
        if i != k {
            assert(member(slots[i], other));
        }
    }
    assert forall|i: int, j: int|
        0 <= i < j < after.len() && member(#[trigger] after[i], other) && member(
            #[trigger] after[j],
            other,
        ) implies after[i].position != after[j].position by {
        if i != k {
            assert(member(slots[i], other));
        }
        if j != k {
            assert(member(slots[j], other));
        }
    }
}

/// Restore is the inverse of delete: in a scope whose active children hold
/// different positions, sending an active row to the bin and bringing it
/// back leaves every slot as it was.
pub proof fn lemma_reinserted_removed(slots: Seq<Slot>, k: int)
    requires
        0 <= k < slots.len(),
        slots[k].active,
        distinct(slots, slots[k].scope),
    ensures
        reinserted(removed(slots, k), k) == slots,
{
    let scope = slots[k].scope;
    let gone = removed(slots, k);
    let back = reinserted(gone, k);
    assert(gone[k] == Slot { active: false, ..slots[k] });
    assert forall|i: int| 0 <= i < slots.len() implies #[trigger] back[i] == slots[i] by {
        if i != k {
            assert(member(slots[k], scope));
            if member(slots[i], scope) {
                if i < k {
                    assert(slots[i].position != slots[k].position);
                } else {
                    assert(slots[k].position != slots[i].position);
                }
            }
        }
    }
    assert(back =~= slots);
}

/// Moving an active row to the end of another scope keeps both scopes
/// gap-free; every other gap-free scope stays so.
pub proof fn lemma_transferred_gap_free(
    slots: Seq<Slot>,
    k: int,
    scope: Seq<char>,
    other: Seq<char>,
)
    requires
        0 <= k < slots.len(),
        slots[k].active,
        slots[k].scope != scope,
        gap_free(slots, other),
    ensures
        gap_free(transferred(slots, k, scope), other),
{
    let home = slots[k].scope;
    let mid = shift(slots, home, slots[k].position + 1, None, -1);
    let after = transferred(slots, k, scope);
    lemma_count_shift(slots, home, slots[k].position + 1, None, -1, other);
    lemma_count_update(mid, k, after[k], other);
    assert(mid[k] == slots[k]);
    assert forall|i: int| 0 <= i < slots.len() && i != k implies #[trigger] after[i]
        == shift_slot(slots[i], home, slots[k].position + 1, None, -1) by {}
    if other == scope {
        lemma_shift_frame(slots, home, slots[k].position + 1, None, -1, scope);
        lemma_gap_free_next(mid, scope);
    }
    assert forall|i: int| 0 <= i < after.len() && member(#[trigger] after[i], other) implies 0
        <= after[i].position < count(after, other) by {
        if i != k {
            assert(member(slots[i], other));
            assert(member(slots[k], home));
        }
    }
    assert forall|i: int, j: int|
        0 <= i < j < after.len() && member(#[trigger] after[i], other) && member(
            #[trigger] after[j],
            other,
        ) implies after[i].position != after[j].position by {
        assert(member(slots[k], home));
        if i != k {
            assert(member(slots[i], other));
        }
        if j != k {
            assert(member(slots[j], other));
        }
    }
}


/// One operation of the position index on a table of slots.
pub enum Step {
    /// A new row at the end of `scope`.
    Append { scope: Seq<char> },
    /// A new row in `scope` at `index`.
    Insert { scope: Seq<char>, index: int },
    /// Row `row` to `index` within its scope.
    Move { row: int, index: int },
    /// Row `row` to the bin.
    Remove { row: int },
    /// Row `row` back from the bin, to the position it kept.
    Reinsert { row: int },
    /// Row `row` to the end of `scope`.
    Transfer { row: int, scope: Seq<char> },
}

/// The slots after the step.
pub open spec fn step_result(slots: Seq<Slot>, step: Step) -> Seq<Slot> {
    match step {
        Step::Append { scope } => appended(slots, scope),
        Step::Insert { scope, index } => inserted(slots, scope, index),
        Step::Move { row, index } => moved(slots, row, index),
        Step::Remove { row } => removed(slots, row),
        Step::Reinsert { row } => reinserted(slots, row),
        Step::Transfer { row, scope } => transferred(slots, row, scope),
    }
}

/// Whether the step is one that the position index is made for: it names a
/// row in the state that the step needs, and an index that the scope has.
/// An insert may name the index behind the last row; a row comes back from
/// the bin only to a position that the scope has, or the one behind the
/// last; a row is transferred only to another scope.
pub open spec fn step_in_range(slots: Seq<Slot>, step: Step) -> bool {
    match step {
        Step::Append { scope } => true,
        Step::Insert { scope, index } => 0 <= index <= count(slots, scope),
        Step::Move { row, index } => 0 <= row < slots.len() && slots[row].active && 0 <= index
            < count(slots, slots[row].scope),
        Step::Remove { row } => 0 <= row < slots.len() && slots[row].active,
        Step::Reinsert { row } => 0 <= row < slots.len() && !slots[row].active && 0
            <= slots[row].position <= count(slots, slots[row].scope),
        Step::Transfer { row, scope } => 0 <= row < slots.len() && slots[row].active
            && slots[row].scope != scope,
    }
}

/// The slots after the steps, one after the other.
pub open spec fn run(slots: Seq<Slot>, steps: Seq<Step>) -> Seq<Slot>
    decreases steps.len(),
{
    if steps.len() == 0 {
        slots
    } else {
        step_result(run(slots, steps.drop_last()), steps.last())
    }
}

/// Whether each of the steps is in range where it is taken.
pub open spec fn run_in_range(slots: Seq<Slot>, steps: Seq<Step>) -> bool
    decreases steps.len(),
{
    steps.len() == 0 || (run_in_range(slots, steps.drop_last()) && step_in_range(
        run(slots, steps.drop_last()),
        steps.last(),
    ))
}

/// Every scope is gap-free.
pub open spec fn all_gap_free(slots: Seq<Slot>) -> bool {
    forall|scope: Seq<char>| #[trigger] gap_free(slots, scope)
}

/// A table without a row is gap-free.
pub proof fn lemma_empty_gap_free()
    ensures
        all_gap_free(Seq::<Slot>::empty()),
{
}

/// A step in range keeps every scope gap-free.
pub proof fn lemma_step_keeps_gap_free(slots: Seq<Slot>, step: Step)
    requires
        all_gap_free(slots),
        step_in_range(slots, step),
    ensures
        all_gap_free(step_result(slots, step)),
{
    assert forall|other: Seq<char>| #[trigger] gap_free(step_result(slots, step), other) by {
        assert(gap_free(slots, other));
        match step {
            Step::Append { scope } => lemma_appended_gap_free(slots, scope, other),
            Step::Insert { scope, index } => lemma_inserted_gap_free(slots, scope, index, other),
            Step::Move { row, index } => lemma_moved_gap_free(slots, row, index, other),
            Step::Remove { row } => lemma_removed_gap_free(slots, row, other),
            Step::Reinsert { row } => lemma_reinserted_gap_free(slots, row, other),
            Step::Transfer { row, scope } => lemma_transferred_gap_free(slots, row, scope, other),
        }
    }
}

/// The gap-free invariant: after any sequence of appends, inserts, moves,
/// deletes, restores and transfers, each in range where it is taken, the
/// active children of every scope hold exactly the positions `0, .., n - 1`.
pub proof fn lemma_run_keeps_gap_free(slots: Seq<Slot>, steps: Seq<Step>)
    requires
        all_gap_free(slots),
        run_in_range(slots, steps),
    ensures
        all_gap_free(run(slots, steps)),
        forall|scope: Seq<char>| #[trigger]
            occupied(run(slots, steps), scope) == set_int_range(
                0,
                count(run(slots, steps), scope) as int,
            ),
    decreases steps.len(),
{
    if steps.len() > 0 {
        lemma_run_keeps_gap_free(slots, steps.drop_last());
        lemma_step_keeps_gap_free(run(slots, steps.drop_last()), steps.last());
    }
    assert forall|scope: Seq<char>| #[trigger]
        occupied(run(slots, steps), scope) == set_int_range(
            0,
            count(run(slots, steps), scope) as int,
        ) by {
        assert(gap_free(run(slots, steps), scope));
        lemma_gap_free_occupies_range(run(slots, steps), scope);
    }
}


/// The row that a step is about, if it is about a row of the table.
pub open spec fn step_row(step: Step) -> Option<int> {
    match step {
        Step::Append { scope } => None,
        Step::Insert { scope, index } => None,
        Step::Move { row, index } => Some(row),
        Step::Remove { row } => Some(row),
        Step::Reinsert { row } => Some(row),
        Step::Transfer { row, scope } => Some(row),
    }
}

/// A step in range keeps the other rows in their order: where the active
/// children of a scope hold different positions, two of them that the step
/// is not about stand after the step as they stood before it.
pub proof fn lemma_step_keeps_order(slots: Seq<Slot>, step: Step, scope: Seq<char>, i: int, j: int)
    requires
        distinct(slots, scope),
        step_in_range(slots, step),
        step_row(step) != Some(i),
        step_row(step) != Some(j),
        0 <= i < slots.len(),
        0 <= j < slots.len(),
        member(slots[i], scope),
        member(slots[j], scope),
        slots[i].position < slots[j].position,
    ensures
        member(step_result(slots, step)[i], scope),
        member(step_result(slots, step)[j], scope),
        step_result(slots, step)[i].position < step_result(slots, step)[j].position,
{
    match step_row(step) {
        Some(k) => {
            if member(slots[k], scope) {
                if i < k {
                    assert(slots[i].position != slots[k].position);
                } else {
                    assert(slots[k].position != slots[i].position);
                }
                if j < k {
                    assert(slots[j].position != slots[k].position);
                } else {
                    assert(slots[k].position != slots[j].position);
                }
            }
        },
        None => {},
    }
}

/// A move puts the row at the index it names.
pub proof fn lemma_moved_lands(slots: Seq<Slot>, k: int, index: int)
    requires
        0 <= k < slots.len(),
    ensures
        moved(slots, k, index)[k] == (Slot { position: index, ..slots[k] }),
        moved(slots, k, index).len() == slots.len(),
{
}

} // verus!
