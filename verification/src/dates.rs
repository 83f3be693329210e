//! The dates of the rows: no row was changed before it was made, and a row
//! in the bin was last changed when it went there. Every operation keeps
//! this, as long as the clock does not go back behind the making of a row.

use vstd::prelude::*;
use crate::cleanup::{card_stays, cleaned, column_stays};
use crate::db::StoreView;
use crate::listing::{lemma_masked_is_filter, lemma_masked_rows};
use crate::models::{Card, Column, DeckView};
use crate::repository::{card, column, deck};
use crate::sibling::{
    lemma_lookup_some, lookup, rows_inserted, rows_moved, rows_reinserted, rows_removed,
    rows_shifted, Sibling,
};

verus! {

/// The dates of every row of the table agree.
pub open spec fn all_dated<T: Sibling>(rows: Seq<T::V>) -> bool {
    forall|i: int| 0 <= i < rows.len() ==> T::dated(#[trigger] rows[i])
}

/// Every row of the table was made at `now` or before.
pub open spec fn all_made_by<T: Sibling>(rows: Seq<T::V>, now: int) -> bool {
    forall|i: int| 0 <= i < rows.len() ==> T::made_by(#[trigger] rows[i], now)
}

/// The dates of a deck agree.
pub open spec fn deck_dated(d: DeckView) -> bool {
    d.created_at <= d.updated_at
}

/// The dates of every row of the store agree.
pub open spec fn dated(s: StoreView) -> bool {
    &&& forall|i: int| 0 <= i < s.decks.len() ==> deck_dated(#[trigger] s.decks[i])
    &&& all_dated::<Column>(s.columns)
    &&& all_dated::<Card>(s.cards)
}

/// Every deck, column and card of the store was made at `now` or before.
pub open spec fn made_by(s: StoreView, now: int) -> bool {
    &&& forall|i: int| 0 <= i < s.decks.len() ==> (#[trigger] s.decks[i]).created_at <= now
    &&& all_made_by::<Column>(s.columns, now)
    &&& all_made_by::<Card>(s.cards, now)
}

/// A shift keeps the dates in agreement.
pub proof fn lemma_shifted_dated<T: Sibling>(
    rows: Seq<T::V>,
    scope: Seq<char>,
    lo: int,
    hi: Option<int>,
    delta: int,
    now: int,
)
    requires
        all_dated::<T>(rows),
        all_made_by::<T>(rows, now),
    ensures
        all_dated::<T>(rows_shifted::<T>(rows, scope, lo, hi, delta, now)),
        all_made_by::<T>(rows_shifted::<T>(rows, scope, lo, hi, delta, now), now),
{
    let after = rows_shifted::<T>(rows, scope, lo, hi, delta, now);
    assert forall|i: int| 0 <= i < after.len() implies T::dated(#[trigger] after[i])
        && T::made_by(after[i], now) by {
        assert(T::dated(rows[i]) && T::made_by(rows[i], now));
        T::lemma_dates(rows[i], T::slot_of(rows[i]).position + delta, now);
    }
}

/// Inserting a row whose dates agree keeps the dates in agreement.
pub proof fn lemma_inserted_dated<T: Sibling>(rows: Seq<T::V>, row: T::V, now: int)
    requires
        all_dated::<T>(rows),
        all_made_by::<T>(rows, now),
        T::dated(row),
        T::made_by(row, now),
    ensures
        all_dated::<T>(rows_inserted::<T>(rows, row, now)),
        all_made_by::<T>(rows_inserted::<T>(rows, row, now), now),
{
    lemma_shifted_dated::<T>(rows, T::slot_of(row).scope, T::slot_of(row).position, None, 1, now);
    let shifted = rows_shifted::<T>(
        rows,
        T::slot_of(row).scope,
        T::slot_of(row).position,
        None,
        1,
        now,
    );
    let after = rows_inserted::<T>(rows, row, now);
    assert forall|i: int| 0 <= i < after.len() implies T::dated(#[trigger] after[i])
        && T::made_by(after[i], now) by {
        if i < rows.len() {
            assert(after[i] == shifted[i]);
        }
    }
}

/// Moving an active row keeps the dates in agreement.
pub proof fn lemma_moved_dated<T: Sibling>(rows: Seq<T::V>, k: int, index: int, now: int)
    requires
        0 <= k < rows.len(),
        T::slot_of(rows[k]).active,
        all_dated::<T>(rows),
        all_made_by::<T>(rows, now),
    ensures
        all_dated::<T>(rows_moved::<T>(rows, k, index, now)),
        all_made_by::<T>(rows_moved::<T>(rows, k, index, now), now),
{
    let from = T::slot_of(rows[k]).position;
    let scope = T::slot_of(rows[k]).scope;
    lemma_shifted_dated::<T>(rows, scope, from + 1, Some(index), -1, now);
    lemma_shifted_dated::<T>(rows, scope, index, Some(from - 1), 1, now);
    assert(T::dated(rows[k]) && T::made_by(rows[k], now));
    T::lemma_dates(rows[k], index, now);
    let after = rows_moved::<T>(rows, k, index, now);
    let down = rows_shifted::<T>(rows, scope, from + 1, Some(index), -1, now);
    let up = rows_shifted::<T>(rows, scope, index, Some(from - 1), 1, now);
    assert forall|i: int| 0 <= i < after.len() implies T::dated(#[trigger] after[i])
        && T::made_by(after[i], now) by {
        if i != k {
            assert(T::dated(rows[i]) && T::made_by(rows[i], now));
            assert(after[i] == down[i] || after[i] == up[i] || after[i] == rows[i]);
        }
    }
}

/// Sending a row to the bin keeps the dates in agreement.
pub proof fn lemma_removed_dated<T: Sibling>(rows: Seq<T::V>, k: int, now: int)
    requires
        0 <= k < rows.len(),
        all_dated::<T>(rows),
        all_made_by::<T>(rows, now),
    ensures
        all_dated::<T>(rows_removed::<T>(rows, k, now)),
        all_made_by::<T>(rows_removed::<T>(rows, k, now), now),
{
    assert(T::dated(rows[k]) && T::made_by(rows[k], now));
    T::lemma_dates(rows[k], 0, now);
    let gone = rows.update(k, T::binned(rows[k], now));
    assert forall|i: int| 0 <= i < gone.len() implies T::dated(#[trigger] gone[i]) && T::made_by(
        gone[i],
        now,
    ) by {
        if i != k {
            assert(T::dated(rows[i]) && T::made_by(rows[i], now));
        }
    }
    lemma_shifted_dated::<T>(
        gone,
        T::slot_of(rows[k]).scope,
        T::slot_of(rows[k]).position + 1,
        None,
        -1,
        now,
    );
}

/// Bringing a row back from the bin keeps the dates in agreement.
pub proof fn lemma_reinserted_dated<T: Sibling>(rows: Seq<T::V>, k: int, now: int)
    requires
        0 <= k < rows.len(),
        all_dated::<T>(rows),
        all_made_by::<T>(rows, now),
    ensures
        all_dated::<T>(rows_reinserted::<T>(rows, k, now)),
        all_made_by::<T>(rows_reinserted::<T>(rows, k, now), now),
{
    assert(T::dated(rows[k]) && T::made_by(rows[k], now));
    T::lemma_dates(rows[k], 0, now);
    lemma_shifted_dated::<T>(
        rows,
        T::slot_of(rows[k]).scope,
        T::slot_of(rows[k]).position,
        None,
        1,
        now,
    );
    let shifted = rows_shifted::<T>(
        rows,
        T::slot_of(rows[k]).scope,
        T::slot_of(rows[k]).position,
        None,
        1,
        now,
    );
    let after = rows_reinserted::<T>(rows, k, now);
    assert forall|i: int| 0 <= i < after.len() implies T::dated(#[trigger] after[i])
        && T::made_by(after[i], now) by {
        if i != k {
            assert(after[i] == shifted[i]);
        }
    }
}

/// Removing rows keeps the dates in agreement.
pub proof fn lemma_filter_dated<T: Sibling>(rows: Seq<T::V>, pred: spec_fn(T::V) -> bool)
    requires
        all_dated::<T>(rows),
    ensures
        all_dated::<T>(rows.filter(pred)),
{
    let keep = rows.map_values(pred);
    lemma_masked_is_filter(rows, keep, pred);
    let after = rows.filter(pred);
    assert forall|i: int| 0 <= i < after.len() implies T::dated(#[trigger] after[i]) by {
        let a = lemma_masked_rows(rows, keep, i);
        assert(T::dated(rows[a]));
    }
}

/// Every operation on cards, at an instant that is not before the making
/// of any row, keeps the dates of the store in agreement.
pub proof fn lemma_card_operations_dated(
    s: StoreView,
    id: Seq<char>,
    column_id: Seq<char>,
    content: Seq<char>,
    position: int,
    delta: int,
    now: int,
)
    requires
        dated(s),
        made_by(s, now),
    ensures
        dated(card::create_outcome(s, column_id, content, id, now).0),
        dated(card::create_at_position_outcome(s, column_id, content, position, id, now).0),
        dated(card::update_content_outcome(s, id, content, now).0),
        dated(card::update_score_outcome(s, id, delta, now).0),
        dated(card::move_to_column_outcome(s, id, column_id, now).0),
        dated(card::move_to_position_outcome(s, id, position, now).0),
        dated(card::soft_delete_outcome(s, id, now).0),
        dated(card::restore_outcome(s, id, now).0),
{
    let next = crate::position::next_position(crate::sibling::slots::<Card>(s.cards), column_id);
    let made = card::fresh_card(column_id, content, next, id, now);
    assert forall|i: int| 0 <= i < s.cards.push(made).len() implies Card::dated(
        #[trigger] s.cards.push(made)[i],
    ) by {
        if i < s.cards.len() {
            assert(Card::dated(s.cards[i]));
        }
    }
    lemma_inserted_dated::<Card>(
        s.cards,
        card::fresh_card(column_id, content, position, id, now),
        now,
    );
    if lookup::<Card>(s.cards, id) is Some {
        lemma_lookup_some::<Card>(s.cards, id);
        let k = lookup::<Card>(s.cards, id).unwrap();
        assert(Card::dated(s.cards[k]) && Card::made_by(s.cards[k], now));
        let edited = card::update_content_outcome(s, id, content, now).0.cards;
        assert forall|i: int| 0 <= i < edited.len() implies Card::dated(#[trigger] edited[i]) by {
            assert(Card::dated(s.cards[i]));
        }
        let scored = card::update_score_outcome(s, id, delta, now).0.cards;
        assert forall|i: int| 0 <= i < scored.len() implies Card::dated(#[trigger] scored[i]) by {
            assert(Card::dated(s.cards[i]));
        }
        lemma_shifted_dated::<Card>(
            s.cards,
            s.cards[k].column_id,
            s.cards[k].position + 1,
            None,
            -1,
            now,
        );
        let shifted = rows_shifted::<Card>(
            s.cards,
            s.cards[k].column_id,
            s.cards[k].position + 1,
            None,
            -1,
            now,
        );
        let sent = card::move_to_column_outcome(s, id, column_id, now).0.cards;
        assert forall|i: int| 0 <= i < sent.len() implies Card::dated(#[trigger] sent[i]) by {
            assert(Card::dated(s.cards[i]));
            if sent != s.cards && i != k {
                assert(sent[i] == shifted[i]);
            }
        }
        if s.cards[k].deleted_at is None {
            lemma_moved_dated::<Card>(s.cards, k, position, now);
        }
        lemma_removed_dated::<Card>(s.cards, k, now);
        lemma_reinserted_dated::<Card>(s.cards, k, now);
    }
}

/// Every operation on columns, at an instant that is not before the making
/// of any row, keeps the dates of the store in agreement.
pub proof fn lemma_column_operations_dated(
    s: StoreView,
    id: Seq<char>,
    deck_id: Seq<char>,
    name: Seq<char>,
    new_name: Option<Seq<char>>,
    position: int,
    now: int,
)
    requires
        dated(s),
        made_by(s, now),
    ensures
        dated(column::create_outcome(s, deck_id, name, id, now).0),
        dated(column::create_at_position_outcome(s, deck_id, name, position, id, now).0),
        dated(column::update_outcome(s, id, new_name, now).0),
        dated(column::move_to_position_outcome(s, id, position, now).0),
        dated(column::soft_delete_outcome(s, id, now).0),
        dated(column::restore_outcome(s, id, now).0),
{
    let next = crate::position::next_position(crate::sibling::slots::<Column>(s.columns), deck_id);
    let made = column::fresh_column(
        deck_id,
        column::resolved_name(s.columns, deck_id, name),
        next,
        id,
        now,
    );
    assert forall|i: int| 0 <= i < s.columns.push(made).len() implies Column::dated(
        #[trigger] s.columns.push(made)[i],
    ) by {
        if i < s.columns.len() {
            assert(Column::dated(s.columns[i]));
        }
    }
    lemma_inserted_dated::<Column>(
        s.columns,
        column::fresh_column(
            deck_id,
            column::resolved_name(s.columns, deck_id, name),
            position,
            id,
            now,
        ),
        now,
    );
    if lookup::<Column>(s.columns, id) is Some {
        lemma_lookup_some::<Column>(s.columns, id);
        let k = lookup::<Column>(s.columns, id).unwrap();
        assert(Column::dated(s.columns[k]) && Column::made_by(s.columns[k], now));
        let renamed = column::update_outcome(s, id, new_name, now).0.columns;
        assert forall|i: int| 0 <= i < renamed.len() implies Column::dated(
            #[trigger] renamed[i],
        ) by {
            assert(Column::dated(s.columns[i]));
        }
        if s.columns[k].deleted_at is None {
            lemma_moved_dated::<Column>(s.columns, k, position, now);
        }
        lemma_removed_dated::<Column>(s.columns, k, now);
        lemma_reinserted_dated::<Column>(s.columns, k, now);
        let gone = column::soft_delete_outcome(s, id, now).0.cards;
        assert forall|i: int| 0 <= i < gone.len() implies Card::dated(#[trigger] gone[i]) by {
            assert(Card::dated(s.cards[i]) && Card::made_by(s.cards[i], now));
            assert(gone == s.cards || gone[i] == column::card_after_column_delete(
                s.cards[i],
                id,
                now,
            ));
        }
        let back = column::restore_outcome(s, id, now).0.cards;
        assert forall|i: int| 0 <= i < back.len() implies Card::dated(#[trigger] back[i]) by {
            assert(Card::dated(s.cards[i]) && Card::made_by(s.cards[i], now));
            assert(back == s.cards || back[i] == column::card_after_column_restore(
                s.cards[i],
                id,
                now,
            ));
        }
    }
}

/// Every operation on decks, at an instant that is not before the making
/// of any row, and every cleanup keep the dates of the store in agreement.
pub proof fn lemma_deck_operations_dated(
    s: StoreView,
    id: Seq<char>,
    name: Seq<char>,
    new_name: Option<Seq<char>>,
    sort_order: crate::models::SortOrder,
    new_order: Option<crate::models::SortOrder>,
    now: int,
    threshold: int,
)
    requires
        dated(s),
        made_by(s, now),
    ensures
        dated(deck::create_outcome(s, name, sort_order, id, now).0),
        dated(deck::update_outcome(s, id, new_name, new_order, now).0),
        dated(deck::delete_outcome(s, id).0),
        dated(cleaned(s, threshold)),
{
    let made = deck::fresh_deck(name, sort_order, id, now);
    assert forall|i: int| 0 <= i < s.decks.push(made).len() implies deck_dated(
        #[trigger] s.decks.push(made)[i],
    ) by {
        if i < s.decks.len() {
            assert(deck_dated(s.decks[i]));
        }
    }
    lemma_filter_dated::<Column>(s.columns, deck::of_other_deck(id));
    lemma_filter_dated::<Card>(s.cards, deck::outside_deck(s.columns, id));
    lemma_filter_dated::<Column>(s.columns, column_stays(threshold));
    lemma_filter_dated::<Card>(s.cards, card_stays(threshold));
    if lookup::<crate::models::Deck>(s.decks, id) is Some {
        lemma_lookup_some::<crate::models::Deck>(s.decks, id);
        let k = lookup::<crate::models::Deck>(s.decks, id).unwrap();
        assert(deck_dated(s.decks[k]) && s.decks[k].created_at <= now);
        let edited = deck::update_outcome(s, id, new_name, new_order, now).0.decks;
        assert forall|i: int| 0 <= i < edited.len() implies deck_dated(#[trigger] edited[i]) by {
            assert(deck_dated(s.decks[i]));
        }
        let left = deck::delete_outcome(s, id).0.decks;
        assert forall|i: int| 0 <= i < left.len() implies deck_dated(#[trigger] left[i]) by {
            let a = if i < k {
                i
            } else {
                i + 1
            };
            assert(left[i] == s.decks[a]);
            assert(deck_dated(s.decks[a]));
        }
    }
}

} // verus!
