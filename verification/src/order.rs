//! The gap-free invariant of the store: what each operation does to the
//! slots of the columns and of the cards, and that it keeps every deck's
//! columns and every column's cards at the positions `0, .., n - 1`.

use vstd::prelude::*;
use crate::cleanup::{card_stays, cleaned, column_stays};
use crate::db::StoreView;
use crate::listing::{
    lemma_insertion_point_bounds, lemma_masked_is_filter, lemma_masked_pair, lemma_masked_rows,
    lemma_ordering_complete, lemma_ordering_places, lemma_ordering_sorted, listed_by_number, masked,
    ordering, ordering_upto, Number,
};
use crate::models::{Card, CardView, Column};
use crate::position::{
    all_gap_free, count, distinct, gap_free, lemma_gap_free_same, lemma_reinserted_removed,
    lemma_step_keeps_gap_free, member, removed, step_in_range, step_result, Slot, Step,
};
use crate::repository::{card, column, deck};
use crate::sibling::{
    lemma_lookup_some, lemma_rows_inserted, lemma_rows_moved, lemma_rows_reinserted,
    lemma_rows_removed, lemma_rows_shifted, lookup, slots, Sibling,
};

verus! {

/// The columns of every deck and the cards of every column are gap-free.
pub open spec fn ordered(s: StoreView) -> bool {
    all_gap_free(slots::<Column>(s.columns)) && all_gap_free(slots::<Card>(s.cards))
}

/// A store without a row is ordered.
pub proof fn lemma_empty_ordered()
    ensures
        ordered(StoreView::empty()),
{
    assert(slots::<Column>(StoreView::empty().columns) =~= Seq::<Slot>::empty());
    assert(slots::<Card>(StoreView::empty().cards) =~= Seq::<Slot>::empty());
}

/// Making a card appends a slot to its column, and keeps the store
/// ordered.
pub proof fn lemma_card_create(
    s: StoreView,
    column_id: Seq<char>,
    content: Seq<char>,
    id: Seq<char>,
    now: int,
)
    ensures
        ({
            let (after, r) = card::create_outcome(s, column_id, content, id, now);
            &&& after.columns == s.columns
            &&& r is Ok ==> slots::<Card>(after.cards) == step_result(
                slots::<Card>(s.cards),
                Step::Append { scope: column_id },
            )
            &&& r is Err ==> after == s
            &&& ordered(s) ==> ordered(after)
        }),
{
    let (after, r) = card::create_outcome(s, column_id, content, id, now);
    if r is Ok {
        assert(slots::<Card>(after.cards) =~= step_result(
            slots::<Card>(s.cards),
            Step::Append { scope: column_id },
        ));
        if ordered(s) {
            lemma_step_keeps_gap_free(slots::<Card>(s.cards), Step::Append { scope: column_id });
        }
    }
}

/// Making a card at a position inserts a slot into its column, and keeps
/// the store ordered where the position is one that the column has, or
/// the one behind the last.
pub proof fn lemma_card_create_at_position(
    s: StoreView,
    column_id: Seq<char>,
    content: Seq<char>,
    position: int,
    id: Seq<char>,
    now: int,
)
    ensures
        ({
            let (after, r) = card::create_at_position_outcome(
                s,
                column_id,
                content,
                position,
                id,
                now,
            );
            let step = Step::Insert { scope: column_id, index: position };
            &&& after.columns == s.columns
            &&& r is Ok ==> slots::<Card>(after.cards) == step_result(slots::<Card>(s.cards), step)
            &&& r is Err ==> after == s
            &&& ordered(s) && step_in_range(slots::<Card>(s.cards), step) ==> ordered(after)
        }),
{
    let (after, r) = card::create_at_position_outcome(s, column_id, content, position, id, now);
    let step = Step::Insert { scope: column_id, index: position };
    if r is Ok {
        lemma_rows_inserted::<Card>(
            s.cards,
            card::fresh_card(column_id, content, position, id, now),
            now,
        );
        if ordered(s) && step_in_range(slots::<Card>(s.cards), step) {
            lemma_step_keeps_gap_free(slots::<Card>(s.cards), step);
        }
    }
}

/// Changing a card's content leaves every slot.
pub proof fn lemma_card_update_content(s: StoreView, id: Seq<char>, content: Seq<char>, now: int)
    ensures
        ({
            let (after, r) = card::update_content_outcome(s, id, content, now);
            &&& after.columns == s.columns
            &&& slots::<Card>(after.cards) == slots::<Card>(s.cards)
        }),
{
    let (after, r) = card::update_content_outcome(s, id, content, now);
    if r is Ok {
        lemma_lookup_some::<Card>(s.cards, id);
    }
    assert(slots::<Card>(after.cards) =~= slots::<Card>(s.cards));
}

/// Changing a card's score leaves every slot.
pub proof fn lemma_card_update_score(s: StoreView, id: Seq<char>, delta: int, now: int)
    ensures
        ({
            let (after, r) = card::update_score_outcome(s, id, delta, now);
            &&& after.columns == s.columns
            &&& slots::<Card>(after.cards) == slots::<Card>(s.cards)
        }),
{
    let (after, r) = card::update_score_outcome(s, id, delta, now);
    if r is Ok {
        lemma_lookup_some::<Card>(s.cards, id);
    }
    assert(slots::<Card>(after.cards) =~= slots::<Card>(s.cards));
}

/// Moving a card to another column transfers its slot, and keeps the store
/// ordered where the column is another one than the card's.
pub proof fn lemma_card_move_to_column(
    s: StoreView,
    id: Seq<char>,
    new_column_id: Seq<char>,
    now: int,
)
    ensures
        ({
            let (after, r) = card::move_to_column_outcome(s, id, new_column_id, now);
            &&& after.columns == s.columns
            &&& r is Err ==> after == s
            &&& r is Ok ==> {
                let step = Step::Transfer {
                    row: lookup::<Card>(s.cards, id).unwrap(),
                    scope: new_column_id,
                };
                &&& slots::<Card>(after.cards) == step_result(slots::<Card>(s.cards), step)
                &&& ordered(s) && step_in_range(slots::<Card>(s.cards), step) ==> ordered(after)
            }
        }),
{
    let (after, r) = card::move_to_column_outcome(s, id, new_column_id, now);
    if r is Ok {
        lemma_lookup_some::<Card>(s.cards, id);
        let k = lookup::<Card>(s.cards, id).unwrap();
        let step = Step::Transfer { row: k, scope: new_column_id };
        lemma_rows_shifted::<Card>(
            s.cards,
            s.cards[k].column_id,
            s.cards[k].position + 1,
            None,
            -1,
            now,
        );
        assert(slots::<Card>(after.cards) =~= step_result(slots::<Card>(s.cards), step));
        if ordered(s) && step_in_range(slots::<Card>(s.cards), step) {
            lemma_step_keeps_gap_free(slots::<Card>(s.cards), step);
        }
    }
}

/// Moving a card within its column moves its slot, and keeps the store
/// ordered where the new position is one that the column has.
pub proof fn lemma_card_move_to_position(s: StoreView, id: Seq<char>, new_position: int, now: int)
    ensures
        ({
            let (after, r) = card::move_to_position_outcome(s, id, new_position, now);
            &&& after.columns == s.columns
            &&& r is Err ==> after == s
            &&& r is Ok ==> {
                let step = Step::Move {
                    row: lookup::<Card>(s.cards, id).unwrap(),
                    index: new_position,
                };
                &&& slots::<Card>(after.cards) == step_result(slots::<Card>(s.cards), step)
                &&& ordered(s) && step_in_range(slots::<Card>(s.cards), step) ==> ordered(after)
            }
        }),
{
    let (after, r) = card::move_to_position_outcome(s, id, new_position, now);
    if r is Ok {
        lemma_lookup_some::<Card>(s.cards, id);
        let k = lookup::<Card>(s.cards, id).unwrap();
        let step = Step::Move { row: k, index: new_position };
        lemma_rows_moved::<Card>(s.cards, k, new_position, now);
        if ordered(s) && step_in_range(slots::<Card>(s.cards), step) {
            lemma_step_keeps_gap_free(slots::<Card>(s.cards), step);
        }
    }
}

/// Sending a card to the bin removes its slot, and keeps the store ordered.
pub proof fn lemma_card_soft_delete(s: StoreView, id: Seq<char>, now: int)
    ensures
        ({
            let (after, r) = card::soft_delete_outcome(s, id, now);
            &&& after.columns == s.columns
            &&& r is Err ==> after == s
            &&& r is Ok ==> slots::<Card>(after.cards) == step_result(
                slots::<Card>(s.cards),
                Step::Remove { row: lookup::<Card>(s.cards, id).unwrap() },
            )
            &&& ordered(s) ==> ordered(after)
        }),
{
    let (after, r) = card::soft_delete_outcome(s, id, now);
    if r is Ok {
        lemma_lookup_some::<Card>(s.cards, id);
        let k = lookup::<Card>(s.cards, id).unwrap();
        lemma_rows_removed::<Card>(s.cards, k, now);
        if ordered(s) {
            assert(slots::<Card>(s.cards)[k].active);
            lemma_step_keeps_gap_free(slots::<Card>(s.cards), Step::Remove { row: k });
        }
    }
}

/// Bringing a card back reinserts its slot, and keeps the store ordered
/// where the position that the card kept is one that the column has, or the
/// one behind the last.
pub proof fn lemma_card_restore(s: StoreView, id: Seq<char>, now: int)
    ensures
        ({
            let (after, r) = card::restore_outcome(s, id, now);
            &&& after.columns == s.columns
            &&& r is Err ==> after == s
            &&& r is Ok ==> {
                let step = Step::Reinsert { row: lookup::<Card>(s.cards, id).unwrap() };
                &&& slots::<Card>(after.cards) == step_result(slots::<Card>(s.cards), step)
                &&& ordered(s) && step_in_range(slots::<Card>(s.cards), step) ==> ordered(after)
            }
        }),
{
    let (after, r) = card::restore_outcome(s, id, now);
    if r is Ok {
        lemma_lookup_some::<Card>(s.cards, id);
        let k = lookup::<Card>(s.cards, id).unwrap();
        let step = Step::Reinsert { row: k };
        lemma_rows_reinserted::<Card>(s.cards, k, now);
        if ordered(s) && step_in_range(slots::<Card>(s.cards), step) {
            lemma_step_keeps_gap_free(slots::<Card>(s.cards), step);
        }
    }
}

/// Restore is the inverse of delete for a card: where the active cards of
/// its column hold different positions, sending an active card to the bin
/// and bringing it back puts every card where it was.
pub proof fn lemma_card_restore_after_delete(s: StoreView, id: Seq<char>, t1: int, t2: int)
    requires
        lookup::<Card>(s.cards, id) is Some,
        s.cards[lookup::<Card>(s.cards, id).unwrap()].deleted_at is None,
        !s.cards[lookup::<Card>(s.cards, id).unwrap()].deleted_with_column,
        distinct(
            slots::<Card>(s.cards),
            s.cards[lookup::<Card>(s.cards, id).unwrap()].column_id,
        ),
        forall|i: int|
            0 <= i < s.cards.len() ==> (#[trigger] slots::<Card>(s.cards)[i]).position < i32::MAX,
    ensures
        ({
            let (gone, r1) = card::soft_delete_outcome(s, id, t1);
            let (back, r2) = card::restore_outcome(gone, id, t2);
            &&& r1 is Ok
            &&& r2 is Ok
            &&& slots::<Card>(back.cards) == slots::<Card>(s.cards)
        }),
{
    lemma_lookup_some::<Card>(s.cards, id);
    let k = lookup::<Card>(s.cards, id).unwrap();
    let (gone, r1) = card::soft_delete_outcome(s, id, t1);
    lemma_rows_removed::<Card>(s.cards, k, t1);
    crate::sibling::lemma_same_keys_lookup::<Card>(s.cards, gone.cards, id);
    assert(slots::<Card>(gone.cards)[k] == Card::slot_of(gone.cards[k]));
    assert(slots::<Card>(s.cards)[k] == Card::slot_of(s.cards[k]));
    assert(gone.cards[k].deleted_at is Some);
    assert(gone.cards[k].deleted_with_column == s.cards[k].deleted_with_column) by {
        let binned = s.cards.update(k, Card::binned(s.cards[k], t1));
        assert(binned[k].deleted_with_column == s.cards[k].deleted_with_column);
        assert(!crate::position::reached(
            Card::slot_of(binned[k]),
            s.cards[k].column_id,
            s.cards[k].position + 1,
            None,
        ));
    }
    crate::position::lemma_highest(slots::<Card>(gone.cards), gone.cards[k].column_id);
    if crate::position::highest(slots::<Card>(gone.cards), gone.cards[k].column_id) is Some {
        let j = choose|j: int|
            0 <= j < slots::<Card>(gone.cards).len() && member(
                #[trigger] slots::<Card>(gone.cards)[j],
                gone.cards[k].column_id,
            ) && slots::<Card>(gone.cards)[j].position == crate::position::highest(
                slots::<Card>(gone.cards),
                gone.cards[k].column_id,
            ).unwrap();
        assert(slots::<Card>(s.cards)[j].position < i32::MAX);
        assert(removed(slots::<Card>(s.cards), k)[j].position <= slots::<Card>(
            s.cards,
        )[j].position);
    }
    lemma_rows_reinserted::<Card>(gone.cards, k, t2);
    lemma_reinserted_removed(slots::<Card>(s.cards), k);
}


/// Making a column appends a slot to its deck, and keeps the store ordered.
pub proof fn lemma_column_create(
    s: StoreView,
    deck_id: Seq<char>,
    name: Seq<char>,
    id: Seq<char>,
    now: int,
)
    ensures
        ({
            let (after, r) = column::create_outcome(s, deck_id, name, id, now);
            &&& after.cards == s.cards
            &&& r is Ok ==> slots::<Column>(after.columns) == step_result(
                slots::<Column>(s.columns),
                Step::Append { scope: deck_id },
            )
            &&& r is Err ==> after == s
            &&& ordered(s) ==> ordered(after)
        }),
{
    let (after, r) = column::create_outcome(s, deck_id, name, id, now);
    if r is Ok {
        assert(slots::<Column>(after.columns) =~= step_result(
            slots::<Column>(s.columns),
            Step::Append { scope: deck_id },
        ));
        if ordered(s) {
            lemma_step_keeps_gap_free(slots::<Column>(s.columns), Step::Append { scope: deck_id });
        }
    }
}

/// Making a column at a position inserts a slot into its deck, and keeps
/// the store ordered where the position is one that the deck has, or the
/// one behind the last.
pub proof fn lemma_column_create_at_position(
    s: StoreView,
    deck_id: Seq<char>,
    name: Seq<char>,
    position: int,
    id: Seq<char>,
    now: int,
)
    ensures
        ({
            let (after, r) = column::create_at_position_outcome(
                s,
                deck_id,
                name,
                position,
                id,
                now,
            );
            let step = Step::Insert { scope: deck_id, index: position };
            &&& after.cards == s.cards
            &&& r is Ok ==> slots::<Column>(after.columns) == step_result(
                slots::<Column>(s.columns),
                step,
            )
            &&& r is Err ==> after == s
            &&& ordered(s) && step_in_range(slots::<Column>(s.columns), step) ==> ordered(after)
        }),
{
    let (after, r) = column::create_at_position_outcome(s, deck_id, name, position, id, now);
    let step = Step::Insert { scope: deck_id, index: position };
    if r is Ok {
        lemma_rows_inserted::<Column>(
            s.columns,
            column::fresh_column(
                deck_id,
                column::resolved_name(s.columns, deck_id, name),
                position,
                id,
                now,
            ),
            now,
        );
        if ordered(s) && step_in_range(slots::<Column>(s.columns), step) {
            lemma_step_keeps_gap_free(slots::<Column>(s.columns), step);
        }
    }
}

/// Renaming a column leaves every slot.
pub proof fn lemma_column_update(s: StoreView, id: Seq<char>, name: Option<Seq<char>>, now: int)
    ensures
        ({
            let (after, r) = column::update_outcome(s, id, name, now);
            &&& after.cards == s.cards
            &&& slots::<Column>(after.columns) == slots::<Column>(s.columns)
        }),
{
    let (after, r) = column::update_outcome(s, id, name, now);
    if r is Ok {
        lemma_lookup_some::<Column>(s.columns, id);
    }
    assert(slots::<Column>(after.columns) =~= slots::<Column>(s.columns));
}

/// Moving a column within its deck moves its slot, and keeps the store
/// ordered where the new position is one that the deck has.
pub proof fn lemma_column_move_to_position(s: StoreView, id: Seq<char>, new_position: int, now: int)
    ensures
        ({
            let (after, r) = column::move_to_position_outcome(s, id, new_position, now);
            &&& after.cards == s.cards
            &&& r is Err ==> after == s
            &&& r is Ok ==> {
                let step = Step::Move {
                    row: lookup::<Column>(s.columns, id).unwrap(),
                    index: new_position,
                };
                &&& slots::<Column>(after.columns) == step_result(
                    slots::<Column>(s.columns),
                    step,
                )
                &&& ordered(s) && step_in_range(slots::<Column>(s.columns), step) ==> ordered(
                    after,
                )
            }
        }),
{
    let (after, r) = column::move_to_position_outcome(s, id, new_position, now);
    if r is Ok {
        lemma_lookup_some::<Column>(s.columns, id);
        let k = lookup::<Column>(s.columns, id).unwrap();
        let step = Step::Move { row: k, index: new_position };
        lemma_rows_moved::<Column>(s.columns, k, new_position, now);
        if ordered(s) && step_in_range(slots::<Column>(s.columns), step) {
            lemma_step_keeps_gap_free(slots::<Column>(s.columns), step);
        }
    }
}

/// A card's slot as the bin keeps it for the return of its column: the
/// card counts where it went to the bin with its column.
pub open spec fn frozen_slot(c: CardView) -> Slot {
    Slot { scope: c.column_id, position: c.position, active: c.deleted_with_column }
}

/// The slots of the cards that wait in the bin for their columns.
pub open spec fn frozen_slots(cards: Seq<CardView>) -> Seq<Slot> {
    cards.map_values(|c: CardView| frozen_slot(c))
}

/// No card of the column is marked as gone with it.
pub open spec fn none_frozen(cards: Seq<CardView>, column_id: Seq<char>) -> bool {
    forall|i: int|
        0 <= i < cards.len() && (#[trigger] cards[i]).column_id == column_id
            ==> !cards[i].deleted_with_column
}

/// A scope without an active child is gap-free.
pub proof fn lemma_vacant_gap_free(all: Seq<Slot>, scope: Seq<char>)
    requires
        forall|i: int| 0 <= i < all.len() ==> !member(#[trigger] all[i], scope),
    ensures
        gap_free(all, scope),
        count(all, scope) == 0,
    decreases all.len(),
{
    if all.len() > 0 {
        assert forall|i: int| 0 <= i < all.drop_last().len() implies !member(
            #[trigger] all.drop_last()[i],
            scope,
        ) by {
            assert(all.drop_last()[i] == all[i]);
        }
        lemma_vacant_gap_free(all.drop_last(), scope);
        assert(!member(all[all.len() - 1], scope));
    }
}

/// Sending a column to the bin removes its slot and empties it of active
/// cards: the store stays ordered. Where none of its cards was marked
/// before, the marked cards of the column are then the cards that were
/// active, at the positions they held.
pub proof fn lemma_column_soft_delete(s: StoreView, id: Seq<char>, now: int)
    ensures
        ({
            let (after, r) = column::soft_delete_outcome(s, id, now);
            &&& r is Err ==> after == s
            &&& r is Ok ==> {
                &&& slots::<Column>(after.columns) == step_result(
                    slots::<Column>(s.columns),
                    Step::Remove { row: lookup::<Column>(s.columns, id).unwrap() },
                )
                &&& count(slots::<Card>(after.cards), id) == 0
                &&& none_frozen(s.cards, id) && gap_free(slots::<Card>(s.cards), id) ==> gap_free(
                    frozen_slots(after.cards),
                    id,
                )
            }
            &&& ordered(s) ==> ordered(after)
        }),
{
    let (after, r) = column::soft_delete_outcome(s, id, now);
    if r is Ok {
        lemma_lookup_some::<Column>(s.columns, id);
        let k = lookup::<Column>(s.columns, id).unwrap();
        lemma_rows_removed::<Column>(s.columns, k, now);
        let before = slots::<Card>(s.cards);
        let cards = slots::<Card>(after.cards);
        assert forall|i: int| 0 <= i < cards.len() implies !member(#[trigger] cards[i], id) by {
            assert(after.cards[i] == column::card_after_column_delete(s.cards[i], id, now));
        }
        lemma_vacant_gap_free(cards, id);
        if ordered(s) {
            assert(slots::<Column>(s.columns)[k].active);
            lemma_step_keeps_gap_free(slots::<Column>(s.columns), Step::Remove { row: k });
            assert forall|other: Seq<char>| #[trigger] gap_free(cards, other) by {
                if other != id {
                    assert(gap_free(before, other));
                    assert forall|i: int| 0 <= i < before.len() implies member(
                        #[trigger] cards[i],
                        other,
                    ) == member(before[i], other) && (member(before[i], other)
                        ==> cards[i].position == before[i].position) by {
                        assert(after.cards[i] == column::card_after_column_delete(
                            s.cards[i],
                            id,
                            now,
                        ));
                    }
                    lemma_gap_free_same(before, cards, other);
                }
            }
        }
        if none_frozen(s.cards, id) && gap_free(before, id) {
            let frozen = frozen_slots(after.cards);
            assert forall|i: int| 0 <= i < before.len() implies member(#[trigger] frozen[i], id)
                == member(before[i], id) && (member(before[i], id) ==> frozen[i].position
                == before[i].position) by {
                assert(after.cards[i] == column::card_after_column_delete(s.cards[i], id, now));
                assert(before[i] == Card::slot_of(s.cards[i]));
            }
            lemma_gap_free_same(before, frozen, id);
        }
    }
}

/// Bringing a column back reinserts its slot and brings back the cards
/// that went with it. The store stays ordered where the position that the
/// column kept is one that the deck has, or the one behind the last, and
/// where the column holds no active card and its marked cards are
/// gap-free among themselves.
pub proof fn lemma_column_restore(s: StoreView, id: Seq<char>, now: int)
    ensures
        ({
            let (after, r) = column::restore_outcome(s, id, now);
            &&& r is Err ==> after == s
            &&& r is Ok ==> {
                let step = Step::Reinsert { row: lookup::<Column>(s.columns, id).unwrap() };
                &&& slots::<Column>(after.columns) == step_result(
                    slots::<Column>(s.columns),
                    step,
                )
                &&& none_frozen(after.cards, id)
                &&& ordered(s) && step_in_range(slots::<Column>(s.columns), step) && count(
                    slots::<Card>(s.cards),
                    id,
                ) == 0 && gap_free(frozen_slots(s.cards), id) ==> ordered(after)
            }
        }),
{
    let (after, r) = column::restore_outcome(s, id, now);
    if r is Ok {
        lemma_lookup_some::<Column>(s.columns, id);
        let k = lookup::<Column>(s.columns, id).unwrap();
        let step = Step::Reinsert { row: k };
        lemma_rows_reinserted::<Column>(s.columns, k, now);
        let before = slots::<Card>(s.cards);
        let cards = slots::<Card>(after.cards);
        let frozen = frozen_slots(s.cards);
        assert forall|i: int| 0 <= i < after.cards.len() && (#[trigger] after.cards[i]).column_id
            == id implies !after.cards[i].deleted_with_column by {
            assert(after.cards[i] == column::card_after_column_restore(s.cards[i], id, now));
        }
        if ordered(s) && step_in_range(slots::<Column>(s.columns), step) && count(before, id) == 0
            && gap_free(frozen, id) {
            lemma_step_keeps_gap_free(slots::<Column>(s.columns), step);
            assert forall|other: Seq<char>| #[trigger] gap_free(cards, other) by {
                assert(gap_free(before, other));
                if other != id {
                    assert forall|i: int| 0 <= i < before.len() implies member(
                        #[trigger] cards[i],
                        other,
                    ) == member(before[i], other) && (member(before[i], other)
                        ==> cards[i].position == before[i].position) by {
                        assert(after.cards[i] == column::card_after_column_restore(
                            s.cards[i],
                            id,
                            now,
                        ));
                    }
                    lemma_gap_free_same(before, cards, other);
                } else {
                    assert forall|i: int| 0 <= i < before.len() implies member(
                        #[trigger] cards[i],
                        id,
                    ) == member(frozen[i], id) && (member(frozen[i], id) ==> cards[i].position
                        == frozen[i].position) by {
                        assert(after.cards[i] == column::card_after_column_restore(
                            s.cards[i],
                            id,
                            now,
                        ));
                        assert(before[i] == Card::slot_of(s.cards[i]));
                        if member(before[i], id) {
                            crate::position::lemma_count_member(before, i, id);
                        }
                    }
                    lemma_gap_free_same(frozen, cards, id);
                }
            }
        }
    }
}

/// Restore is the inverse of delete for a column: where the active columns
/// of its deck hold different positions and none of its cards is marked,
/// sending an active column to the bin and bringing it back puts every
/// column and every card where it was, active or in the bin as before.
pub proof fn lemma_column_restore_after_delete(s: StoreView, id: Seq<char>, t1: int, t2: int)
    requires
        lookup::<Column>(s.columns, id) is Some,
        s.columns[lookup::<Column>(s.columns, id).unwrap()].deleted_at is None,
        distinct(
            slots::<Column>(s.columns),
            s.columns[lookup::<Column>(s.columns, id).unwrap()].deck_id,
        ),
        forall|i: int|
            0 <= i < s.columns.len() ==> (#[trigger] slots::<Column>(s.columns)[i]).position
                < i32::MAX,
        none_frozen(s.cards, id),
    ensures
        ({
            let (gone, r1) = column::soft_delete_outcome(s, id, t1);
            let (back, r2) = column::restore_outcome(gone, id, t2);
            &&& r1 is Ok
            &&& r2 is Ok
            &&& slots::<Column>(back.columns) == slots::<Column>(s.columns)
            &&& slots::<Card>(back.cards) == slots::<Card>(s.cards)
            &&& frozen_slots(back.cards) == frozen_slots(s.cards)
        }),
{
    lemma_lookup_some::<Column>(s.columns, id);
    let k = lookup::<Column>(s.columns, id).unwrap();
    let (gone, r1) = column::soft_delete_outcome(s, id, t1);
    lemma_rows_removed::<Column>(s.columns, k, t1);
    crate::sibling::lemma_same_keys_lookup::<Column>(s.columns, gone.columns, id);
    assert(slots::<Column>(gone.columns)[k] == Column::slot_of(gone.columns[k]));
    assert(slots::<Column>(s.columns)[k] == Column::slot_of(s.columns[k]));
    assert(gone.columns[k].deleted_at is Some);
    crate::position::lemma_highest(slots::<Column>(gone.columns), gone.columns[k].deck_id);
    if crate::position::highest(slots::<Column>(gone.columns), gone.columns[k].deck_id) is Some {
        let j = choose|j: int|
            0 <= j < slots::<Column>(gone.columns).len() && member(
                #[trigger] slots::<Column>(gone.columns)[j],
                gone.columns[k].deck_id,
            ) && slots::<Column>(gone.columns)[j].position == crate::position::highest(
                slots::<Column>(gone.columns),
                gone.columns[k].deck_id,
            ).unwrap();
        assert(slots::<Column>(s.columns)[j].position < i32::MAX);
        assert(removed(slots::<Column>(s.columns), k)[j].position <= slots::<Column>(
            s.columns,
        )[j].position);
    }
    lemma_rows_reinserted::<Column>(gone.columns, k, t2);
    lemma_reinserted_removed(slots::<Column>(s.columns), k);
    let (back, r2) = column::restore_outcome(gone, id, t2);
    assert forall|i: int| 0 <= i < s.cards.len() implies Card::slot_of(#[trigger] back.cards[i])
        == Card::slot_of(s.cards[i]) && frozen_slot(back.cards[i]) == frozen_slot(s.cards[i]) by {
        assert(gone.cards[i] == column::card_after_column_delete(s.cards[i], id, t1));
        assert(back.cards[i] == column::card_after_column_restore(gone.cards[i], id, t2));
    }
    assert(slots::<Card>(back.cards) =~= slots::<Card>(s.cards));
    assert(frozen_slots(back.cards) =~= frozen_slots(s.cards));
}


/// Keeping every active child of a scope keeps their number.
proof fn lemma_masked_count<T: Sibling>(rows: Seq<T::V>, keep: Seq<bool>, scope: Seq<char>)
    requires
        keep.len() == rows.len(),
        forall|i: int|
            0 <= i < rows.len() && member(T::slot_of(#[trigger] rows[i]), scope) ==> keep[i],
    ensures
        count(slots::<T>(masked(rows, keep)), scope) == count(slots::<T>(rows), scope),
    decreases rows.len(),
{
    if rows.len() > 0 {
        let rest = rows.drop_last();
        assert forall|i: int|
            0 <= i < rest.len() && member(
                T::slot_of(#[trigger] rest[i]),
                scope,
            ) implies keep.drop_last()[i] by {
            assert(rest[i] == rows[i]);
        }
        lemma_masked_count::<T>(rest, keep.drop_last(), scope);
        assert(slots::<T>(rows).drop_last() =~= slots::<T>(rest));
        assert(slots::<T>(rows).last() == T::slot_of(rows.last()));
        assert(member(T::slot_of(rows[rows.len() - 1]), scope) ==> keep[rows.len() - 1]);
        if keep.last() {
            assert(slots::<T>(masked(rows, keep)) =~= slots::<T>(
                masked(rest, keep.drop_last()),
            ).push(T::slot_of(rows.last())));
            crate::position::lemma_count_push(
                slots::<T>(masked(rest, keep.drop_last())),
                T::slot_of(rows.last()),
                scope,
            );
        }
    } else {
        assert(slots::<T>(masked(rows, keep)) =~= slots::<T>(rows));
    }
}

/// Removing rows keeps a scope gap-free where every active child of the
/// scope stays.
pub proof fn lemma_filter_keeps_scope<T: Sibling>(
    rows: Seq<T::V>,
    pred: spec_fn(T::V) -> bool,
    scope: Seq<char>,
)
    requires
        gap_free(slots::<T>(rows), scope),
        forall|i: int|
            0 <= i < rows.len() && member(T::slot_of(#[trigger] rows[i]), scope) ==> pred(rows[i]),
    ensures
        gap_free(slots::<T>(rows.filter(pred)), scope),
{
    let keep = rows.map_values(pred);
    lemma_masked_is_filter(rows, keep, pred);
    lemma_masked_count::<T>(rows, keep, scope);
    let after = rows.filter(pred);
    let all = slots::<T>(rows);
    let left = slots::<T>(after);
    assert forall|i: int| 0 <= i < left.len() && member(#[trigger] left[i], scope) implies 0
        <= left[i].position < count(left, scope) by {
        let a = lemma_masked_rows(rows, keep, i);
        assert(member(all[a], scope));
    }
    assert forall|i: int, j: int|
        0 <= i < j < left.len() && member(#[trigger] left[i], scope) && member(
            #[trigger] left[j],
            scope,
        ) implies left[i].position != left[j].position by {
        let (a, b) = lemma_masked_pair(rows, keep, i, j);
        assert(member(all[a], scope) && member(all[b], scope));
    }
}

/// Removing every active child of a scope leaves the scope gap-free.
pub proof fn lemma_filter_vacates_scope<T: Sibling>(
    rows: Seq<T::V>,
    pred: spec_fn(T::V) -> bool,
    scope: Seq<char>,
)
    requires
        forall|i: int|
            0 <= i < rows.len() && member(T::slot_of(#[trigger] rows[i]), scope) ==> !pred(
                rows[i],
            ),
    ensures
        gap_free(slots::<T>(rows.filter(pred)), scope),
{
    let keep = rows.map_values(pred);
    lemma_masked_is_filter(rows, keep, pred);
    let left = slots::<T>(rows.filter(pred));
    assert forall|i: int| 0 <= i < left.len() implies !member(#[trigger] left[i], scope) by {
        let a = lemma_masked_rows(rows, keep, i);
        assert(keep[a] == pred(rows[a]));
    }
    lemma_vacant_gap_free(left, scope);
}

/// Deleting a deck keeps the store ordered.
pub proof fn lemma_deck_delete(s: StoreView, id: Seq<char>)
    requires
        ordered(s),
    ensures
        ordered(deck::delete_outcome(s, id).0),
{
    let (after, r) = deck::delete_outcome(s, id);
    if r is Ok {
        assert forall|scope: Seq<char>| #[trigger]
            gap_free(slots::<Column>(after.columns), scope) by {
            assert(gap_free(slots::<Column>(s.columns), scope));
            if scope == id {
                lemma_filter_vacates_scope::<Column>(s.columns, deck::of_other_deck(id), scope);
            } else {
                lemma_filter_keeps_scope::<Column>(s.columns, deck::of_other_deck(id), scope);
            }
        }
        assert forall|scope: Seq<char>| #[trigger] gap_free(slots::<Card>(after.cards), scope) by {
            assert(gap_free(slots::<Card>(s.cards), scope));
            if card::deck_of(s.columns, scope) == Some(id) {
                lemma_filter_vacates_scope::<Card>(
                    s.cards,
                    deck::outside_deck(s.columns, id),
                    scope,
                );
            } else {
                lemma_filter_keeps_scope::<Card>(s.cards, deck::outside_deck(s.columns, id), scope);
            }
        }
    }
}

/// A cleanup keeps the store ordered: it removes rows of the bin only.
pub proof fn lemma_cleanup(s: StoreView, threshold: int)
    requires
        ordered(s),
    ensures
        ordered(cleaned(s, threshold)),
{
    let after = cleaned(s, threshold);
    assert forall|scope: Seq<char>| #[trigger] gap_free(slots::<Column>(after.columns), scope) by {
        assert(gap_free(slots::<Column>(s.columns), scope));
        lemma_filter_keeps_scope::<Column>(s.columns, column_stays(threshold), scope);
    }
    assert forall|scope: Seq<char>| #[trigger] gap_free(slots::<Card>(after.cards), scope) by {
        assert(gap_free(slots::<Card>(s.cards), scope));
        lemma_filter_keeps_scope::<Card>(s.cards, card_stays(threshold), scope);
    }
}


/// Numbers below `n` that rise from each place to the next, `n` of them,
/// are the numbers `0, .., n - 1` in their order.
proof fn lemma_rising_is_counting(p: Seq<int>)
    requires
        forall|t: int| 0 <= t < p.len() ==> 0 <= #[trigger] p[t] < p.len(),
        forall|a: int, b: int| 0 <= a < b < p.len() ==> #[trigger] p[a] < #[trigger] p[b],
    ensures
        forall|t: int| 0 <= t < p.len() ==> #[trigger] p[t] == t,
{
    assert forall|t: int| 0 <= t < p.len() implies #[trigger] p[t] == t by {
        lemma_rising_from_below(p, t);
        lemma_rising_from_above(p, t);
    }
}

proof fn lemma_rising_from_below(p: Seq<int>, t: int)
    requires
        0 <= t < p.len(),
        forall|t: int| 0 <= t < p.len() ==> 0 <= #[trigger] p[t] < p.len(),
        forall|a: int, b: int| 0 <= a < b < p.len() ==> #[trigger] p[a] < #[trigger] p[b],
    ensures
        p[t] >= t,
    decreases t,
{
    if t > 0 {
        lemma_rising_from_below(p, t - 1);
        assert(p[t - 1] < p[t]);
    }
}

proof fn lemma_rising_from_above(p: Seq<int>, t: int)
    requires
        0 <= t < p.len(),
        forall|t: int| 0 <= t < p.len() ==> 0 <= #[trigger] p[t] < p.len(),
        forall|a: int, b: int| 0 <= a < b < p.len() ==> #[trigger] p[a] < #[trigger] p[b],
    ensures
        p[t] <= t,
    decreases p.len() - t,
{
    if t < p.len() - 1 {
        lemma_rising_from_above(p, t + 1);
        assert(p[t] < p[t + 1]);
    }
}

/// The listing of the first `n` rows is as long as the number of active
/// children among them.
proof fn lemma_listing_len<T: Sibling>(
    rows: Seq<T::V>,
    key: spec_fn(T::V) -> Option<int>,
    scope: Seq<char>,
    n: nat,
)
    requires
        n <= rows.len(),
        forall|i: int|
            0 <= i < rows.len() ==> (key(#[trigger] rows[i]) is Some) == member(
                T::slot_of(rows[i]),
                scope,
            ),
    ensures
        ordering_upto::<Number>(rows.map_values(key), n, false).len() == count(
            slots::<T>(rows).take(n as int),
            scope,
        ),
    decreases n,
{
    let all = slots::<T>(rows);
    if n > 0 {
        lemma_listing_len::<T>(rows, key, scope, (n - 1) as nat);
        assert(all.take(n as int).drop_last() =~= all.take(n - 1));
        assert(all.take(n as int).last() == T::slot_of(rows[n - 1]));
        assert(rows.map_values(key)[n - 1] == key(rows[n - 1]));
        if key(rows[n - 1]) is Some {
            lemma_insertion_point_bounds::<Number>(
                rows.map_values(key),
                ordering_upto::<Number>(rows.map_values(key), (n - 1) as nat, false),
                key(rows[n - 1]).unwrap(),
                false,
            );
        }
    } else {
        assert(all.take(0).len() == 0);
    }
}

/// The listing of a gap-free scope by position shows its active children at
/// the positions `0, 1, .., n - 1`, in this order.
pub proof fn lemma_listing_counts_up<T: Sibling>(
    rows: Seq<T::V>,
    key: spec_fn(T::V) -> Option<int>,
    scope: Seq<char>,
)
    requires
        gap_free(slots::<T>(rows), scope),
        forall|i: int|
            0 <= i < rows.len() ==> key(#[trigger] rows[i]) == (if member(
                T::slot_of(rows[i]),
                scope,
            ) {
                Some(T::slot_of(rows[i]).position)
            } else {
                None
            }),
    ensures
        listed_by_number(rows, key, false).len() == count(slots::<T>(rows), scope),
        forall|t: int|
            0 <= t < listed_by_number(rows, key, false).len() ==> member(
                T::slot_of(#[trigger] listed_by_number(rows, key, false)[t]),
                scope,
            ) && T::slot_of(listed_by_number(rows, key, false)[t]).position == t,
{
    let keys = rows.map_values(key);
    let all = slots::<T>(rows);
    let order = ordering::<Number>(keys, false);
    let listed = listed_by_number(rows, key, false);
    lemma_listing_len::<T>(rows, key, scope, rows.len());
    assert(all.take(rows.len() as int) =~= all);
    lemma_ordering_places::<Number>(keys, keys.len(), false);
    lemma_ordering_sorted::<Number>(keys, keys.len(), false);
    lemma_ordering_complete::<Number>(keys, keys.len(), false);
    let p = Seq::new(order.len(), |t: int| keys[order[t]].unwrap());
    assert forall|t: int| 0 <= t < p.len() implies 0 <= #[trigger] p[t] < p.len() by {
        assert(keys[order[t]] == key(rows[order[t]]));
        assert(all[order[t]] == T::slot_of(rows[order[t]]));
        assert(member(all[order[t]], scope));
    }
    assert forall|a: int, b: int| 0 <= a < b < p.len() implies #[trigger] p[a] < #[trigger] p[
        b
    ] by {
        let i = order[a];
        let j = order[b];
        assert(i != j);
        assert(keys[i] == key(rows[i]) && keys[j] == key(rows[j]));
        assert(all[i] == T::slot_of(rows[i]) && all[j] == T::slot_of(rows[j]));
        assert(member(all[i], scope) && member(all[j], scope));
        if i < j {
            assert(all[i].position != all[j].position);
        } else {
            assert(all[j].position != all[i].position);
        }
    }
    lemma_rising_is_counting(p);
    assert forall|t: int| 0 <= t < listed.len() implies member(
        T::slot_of(#[trigger] listed[t]),
        scope,
    ) && T::slot_of(listed[t]).position == t by {
        assert(listed[t] == rows[order[t]]);
        assert(keys[order[t]] == key(rows[order[t]]));
        assert(p[t] == t);
    }
}

/// The active cards of a gap-free column are listed at the positions
/// `0, 1, .., n - 1`, in this order.
pub proof fn lemma_cards_listed_in_place(s: StoreView, column_id: Seq<char>)
    requires
        gap_free(slots::<Card>(s.cards), column_id),
    ensures
        ({
            let listed = listed_by_number(s.cards, card::active_in_column(column_id), false);
            &&& listed.len() == count(slots::<Card>(s.cards), column_id)
            &&& forall|t: int|
                0 <= t < listed.len() ==> (#[trigger] listed[t]).position == t
                    && listed[t].column_id == column_id && listed[t].deleted_at is None
        }),
{
    lemma_listing_counts_up::<Card>(s.cards, card::active_in_column(column_id), column_id);
}

/// The active columns of a gap-free deck are listed at the positions
/// `0, 1, .., n - 1`, in this order.
pub proof fn lemma_columns_listed_in_place(s: StoreView, deck_id: Seq<char>)
    requires
        gap_free(slots::<Column>(s.columns), deck_id),
    ensures
        ({
            let listed = listed_by_number(s.columns, column::active_in_deck(deck_id), false);
            &&& listed.len() == count(slots::<Column>(s.columns), deck_id)
            &&& forall|t: int|
                0 <= t < listed.len() ==> (#[trigger] listed[t]).position == t
                    && listed[t].deck_id == deck_id && listed[t].deleted_at is None
        }),
{
    lemma_listing_counts_up::<Column>(s.columns, column::active_in_deck(deck_id), deck_id);
}

} // verus!
