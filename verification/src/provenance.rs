//! The provenance of deletions: a card is marked as gone with its column
//! only while it is in the bin since the instant at which its column went
//! there. Every operation keeps this.

use vstd::prelude::*;
use crate::cleanup::{card_stays, cleaned, column_stays, expired};
use crate::db::StoreView;
use crate::listing::{lemma_masked_is_filter, lemma_masked_rows};
use crate::models::{Card, CardView, Column, ColumnView};
use crate::repository::{card, column, deck};
use crate::sibling::{
    has_key, lemma_lookup_own, lemma_lookup_push, lemma_lookup_some, lemma_rows_moved,
    lemma_rows_reinserted, lemma_rows_removed, lemma_same_keys_lookup, lookup, rows_shifted,
    unique_keys, Keyed, Sibling,
};

verus! {

/// Whether a card's mark is justified: an unmarked card needs nothing; a
/// marked card is in the bin, and its column is there since the same
/// instant.
pub open spec fn justified(columns: Seq<ColumnView>, c: CardView) -> bool {
    c.deleted_with_column ==> c.deleted_at is Some && match lookup::<Column>(
        columns,
        c.column_id,
    ) {
        Some(j) => columns[j].deleted_at == c.deleted_at,
        None => false,
    }
}

/// Every card's mark is justified.
pub open spec fn provenance(s: StoreView) -> bool {
    forall|i: int| 0 <= i < s.cards.len() ==> justified(s.columns, #[trigger] s.cards[i])
}

/// A card keeps its justification where its column, its mark and its
/// instant of deletion stay, and the columns keep their identifiers and
/// their instants of deletion.
proof fn lemma_still_justified(
    columns: Seq<ColumnView>,
    after: Seq<ColumnView>,
    c: CardView,
    d: CardView,
)
    requires
        justified(columns, c),
        d.deleted_with_column ==> c.deleted_with_column && d.column_id == c.column_id
            && d.deleted_at == c.deleted_at,
        after.len() == columns.len(),
        forall|j: int| 0 <= j < columns.len() ==> (#[trigger] after[j]).id == columns[j].id,
        d.deleted_with_column ==> forall|j: int|
            0 <= j < columns.len() && (#[trigger] columns[j]).id == c.column_id
                ==> after[j].deleted_at == columns[j].deleted_at,
    ensures
        justified(after, d),
{
    if d.deleted_with_column {
        lemma_same_keys_lookup::<Column>(columns, after, c.column_id);
        lemma_lookup_some::<Column>(columns, c.column_id);
    }
}

/// A shift of the cards changes no card's column, mark or instant of
/// deletion.
proof fn lemma_shifted_cards(
    cards: Seq<CardView>,
    scope: Seq<char>,
    lo: int,
    hi: Option<int>,
    delta: int,
    now: int,
)
    ensures
        forall|i: int|
            0 <= i < cards.len() ==> {
                let d = #[trigger] rows_shifted::<Card>(cards, scope, lo, hi, delta, now)[i];
                d.column_id == cards[i].column_id && d.deleted_with_column
                    == cards[i].deleted_with_column && d.deleted_at == cards[i].deleted_at
                    && d.id == cards[i].id
            },
{
}

/// A shift of the columns changes no column's identifier or instant of
/// deletion.
proof fn lemma_shifted_columns(
    columns: Seq<ColumnView>,
    scope: Seq<char>,
    lo: int,
    hi: Option<int>,
    delta: int,
    now: int,
)
    ensures
        forall|i: int|
            0 <= i < columns.len() ==> {
                let d = #[trigger] rows_shifted::<Column>(columns, scope, lo, hi, delta, now)[i];
                d.id == columns[i].id && d.deleted_at == columns[i].deleted_at
            },
{
}

/// Every operation on cards keeps every mark justified.
pub proof fn lemma_card_operations(
    s: StoreView,
    id: Seq<char>,
    column_id: Seq<char>,
    content: Seq<char>,
    position: int,
    delta: int,
    now: int,
)
    requires
        provenance(s),
    ensures
        provenance(card::create_outcome(s, column_id, content, id, now).0),
        provenance(card::create_at_position_outcome(s, column_id, content, position, id, now).0),
        provenance(card::update_content_outcome(s, id, content, now).0),
        provenance(card::update_score_outcome(s, id, delta, now).0),
        provenance(card::move_to_column_outcome(s, id, column_id, now).0),
        provenance(card::move_to_position_outcome(s, id, position, now).0),
        provenance(card::soft_delete_outcome(s, id, now).0),
        provenance(card::restore_outcome(s, id, now).0),
{
    let made = card::create_outcome(s, column_id, content, id, now).0.cards;
    assert forall|i: int| 0 <= i < made.len() implies justified(s.columns, #[trigger] made[i]) by {
        if i < s.cards.len() {
            assert(justified(s.columns, s.cards[i]));
        }
    }
    lemma_shifted_cards(s.cards, column_id, position, None, 1, now);
    let put = card::create_at_position_outcome(s, column_id, content, position, id, now).0.cards;
    assert forall|i: int| 0 <= i < put.len() implies justified(s.columns, #[trigger] put[i]) by {
        if i < s.cards.len() {
            assert(justified(s.columns, s.cards[i]));
            assert(put == s.cards || put[i] == rows_shifted::<Card>(
                s.cards,
                column_id,
                position,
                None,
                1,
                now,
            )[i]);
        }
    }
    if lookup::<Card>(s.cards, id) is Some {
        lemma_lookup_some::<Card>(s.cards, id);
        let k = lookup::<Card>(s.cards, id).unwrap();
        assert(justified(s.columns, s.cards[k]));
        let home = s.cards[k].column_id;
        let from = s.cards[k].position;
        let edited = card::update_content_outcome(s, id, content, now).0.cards;
        assert forall|i: int| 0 <= i < edited.len() implies justified(
            s.columns,
            #[trigger] edited[i],
        ) by {
            assert(justified(s.columns, s.cards[i]));
        }
        let scored = card::update_score_outcome(s, id, delta, now).0.cards;
        assert forall|i: int| 0 <= i < scored.len() implies justified(
            s.columns,
            #[trigger] scored[i],
        ) by {
            assert(justified(s.columns, s.cards[i]));
        }
        lemma_shifted_cards(s.cards, home, from + 1, None, -1, now);
        let sent = card::move_to_column_outcome(s, id, column_id, now).0.cards;
        assert forall|i: int| 0 <= i < sent.len() implies justified(
            s.columns,
            #[trigger] sent[i],
        ) by {
            assert(justified(s.columns, s.cards[i]));
            if sent != s.cards && i != k {
                assert(sent[i] == rows_shifted::<Card>(s.cards, home, from + 1, None, -1, now)[i]);
            }
        }
        lemma_shifted_cards(s.cards, home, from + 1, Some(position), -1, now);
        lemma_shifted_cards(s.cards, home, position, Some(from - 1), 1, now);
        let moved = card::move_to_position_outcome(s, id, position, now).0.cards;
        assert forall|i: int| 0 <= i < moved.len() implies justified(
            s.columns,
            #[trigger] moved[i],
        ) by {
            assert(justified(s.columns, s.cards[i]));
            if moved != s.cards && i != k {
                assert(moved[i] == rows_shifted::<Card>(
                    s.cards,
                    home,
                    from + 1,
                    Some(position),
                    -1,
                    now,
                )[i] || moved[i] == rows_shifted::<Card>(
                    s.cards,
                    home,
                    position,
                    Some(from - 1),
                    1,
                    now,
                )[i] || moved[i] == s.cards[i]);
            }
        }
        let binned = s.cards.update(k, Card::binned(s.cards[k], now));
        lemma_shifted_cards(binned, home, from + 1, None, -1, now);
        let gone = card::soft_delete_outcome(s, id, now).0.cards;
        assert forall|i: int| 0 <= i < gone.len() implies justified(
            s.columns,
            #[trigger] gone[i],
        ) by {
            assert(justified(s.columns, s.cards[i]));
            if gone != s.cards {
                assert(gone[i] == rows_shifted::<Card>(binned, home, from + 1, None, -1, now)[i]);
            }
        }
        lemma_shifted_cards(s.cards, home, from, None, 1, now);
        let back = card::restore_outcome(s, id, now).0.cards;
        assert forall|i: int| 0 <= i < back.len() implies justified(
            s.columns,
            #[trigger] back[i],
        ) by {
            assert(justified(s.columns, s.cards[i]));
            if back != s.cards && i != k {
                assert(back[i] == rows_shifted::<Card>(s.cards, home, from, None, 1, now)[i]);
            }
        }
    }
}

/// A column that joins the table keeps every mark justified.
proof fn lemma_column_joins(s: StoreView, before: Seq<ColumnView>, made: ColumnView)
    requires
        provenance(s),
        before.len() == s.columns.len(),
        forall|j: int|
            0 <= j < before.len() ==> (#[trigger] before[j]).id == s.columns[j].id
                && before[j].deleted_at == s.columns[j].deleted_at,
    ensures
        provenance(StoreView { columns: before.push(made), ..s }),
{
    assert forall|i: int| 0 <= i < s.cards.len() implies justified(
        before.push(made),
        #[trigger] s.cards[i],
    ) by {
        let c = s.cards[i];
        assert(justified(s.columns, c));
        if c.deleted_with_column {
            lemma_still_justified(s.columns, before, c, c);
            lemma_lookup_push::<Column>(before, made, c.column_id);
            lemma_lookup_some::<Column>(before, c.column_id);
        }
    }
}

/// Every operation on columns keeps every mark justified, where no
/// identifier occurs twice.
pub proof fn lemma_column_operations(
    s: StoreView,
    id: Seq<char>,
    deck_id: Seq<char>,
    name: Seq<char>,
    new_name: Option<Seq<char>>,
    position: int,
    now: int,
)
    requires
        s.wf(),
        provenance(s),
    ensures
        provenance(column::create_outcome(s, deck_id, name, id, now).0),
        provenance(column::create_at_position_outcome(s, deck_id, name, position, id, now).0),
        provenance(column::update_outcome(s, id, new_name, now).0),
        provenance(column::move_to_position_outcome(s, id, position, now).0),
        provenance(column::soft_delete_outcome(s, id, now).0),
        provenance(column::restore_outcome(s, id, now).0),
{
    let next = crate::position::next_position(crate::sibling::slots::<Column>(s.columns), deck_id);
    let shown = column::resolved_name(s.columns, deck_id, name);
    lemma_column_joins(s, s.columns, column::fresh_column(deck_id, shown, next, id, now));
    lemma_shifted_columns(s.columns, deck_id, position, None, 1, now);
    lemma_column_joins(
        s,
        rows_shifted::<Column>(s.columns, deck_id, position, None, 1, now),
        column::fresh_column(deck_id, shown, position, id, now),
    );
    if lookup::<Column>(s.columns, id) is Some {
        lemma_lookup_some::<Column>(s.columns, id);
        let k = lookup::<Column>(s.columns, id).unwrap();
        let home = s.columns[k].deck_id;
        let from = s.columns[k].position;
        lemma_lookup_own::<Column>(s.columns, k);
        let renamed = column::update_outcome(s, id, new_name, now).0;
        assert forall|i: int| 0 <= i < s.cards.len() implies justified(
            renamed.columns,
            #[trigger] renamed.cards[i],
        ) by {
            assert(justified(s.columns, s.cards[i]));
            lemma_still_justified(s.columns, renamed.columns, s.cards[i], s.cards[i]);
        }
        lemma_shifted_columns(s.columns, home, from + 1, Some(position), -1, now);
        lemma_shifted_columns(s.columns, home, position, Some(from - 1), 1, now);
        let moved = column::move_to_position_outcome(s, id, position, now).0;
        if moved != s {
            lemma_rows_moved::<Column>(s.columns, k, position, now);
            assert forall|j: int| 0 <= j < s.columns.len() implies (#[trigger] moved.columns[j]).id
                == s.columns[j].id && moved.columns[j].deleted_at == s.columns[j].deleted_at by {
                if j != k {
                    assert(moved.columns[j] == rows_shifted::<Column>(
                        s.columns,
                        home,
                        from + 1,
                        Some(position),
                        -1,
                        now,
                    )[j] || moved.columns[j] == rows_shifted::<Column>(
                        s.columns,
                        home,
                        position,
                        Some(from - 1),
                        1,
                        now,
                    )[j] || moved.columns[j] == s.columns[j]);
                }
            }
            assert forall|i: int| 0 <= i < s.cards.len() implies justified(
                moved.columns,
                #[trigger] moved.cards[i],
            ) by {
                assert(justified(s.columns, s.cards[i]));
                lemma_still_justified(s.columns, moved.columns, s.cards[i], s.cards[i]);
            }
        }
        let gone = column::soft_delete_outcome(s, id, now).0;
        if gone != s {
            let binned = s.columns.update(k, Column::binned(s.columns[k], now));
            lemma_shifted_columns(binned, home, from + 1, None, -1, now);
            lemma_rows_removed::<Column>(s.columns, k, now);
            lemma_same_keys_lookup::<Column>(s.columns, gone.columns, id);
            assert(gone.columns[k].deleted_at == Some(now));
            assert forall|j: int| 0 <= j < s.columns.len() && j != k implies (
            #[trigger] gone.columns[j]).deleted_at == s.columns[j].deleted_at by {
                assert(binned[j] == s.columns[j]);
            }
            assert forall|i: int| 0 <= i < gone.cards.len() implies justified(
                gone.columns,
                #[trigger] gone.cards[i],
            ) by {
                let c = s.cards[i];
                let d = gone.cards[i];
                assert(d == column::card_after_column_delete(c, id, now));
                assert(justified(s.columns, c));
                if d.deleted_with_column {
                    if c.column_id == id && c.deleted_at is None {
                    } else {
                        lemma_same_keys_lookup::<Column>(s.columns, gone.columns, c.column_id);
                        lemma_lookup_some::<Column>(s.columns, c.column_id);
                    }
                }
            }
        }
        let back = column::restore_outcome(s, id, now).0;
        if back != s {
            lemma_shifted_columns(s.columns, home, from, None, 1, now);
            lemma_rows_reinserted::<Column>(s.columns, k, now);
            assert forall|j: int| 0 <= j < s.columns.len() && j != k implies (
            #[trigger] back.columns[j]).deleted_at == s.columns[j].deleted_at by {
                assert(back.columns[j] == rows_shifted::<Column>(
                    s.columns,
                    home,
                    from,
                    None,
                    1,
                    now,
                )[j]);
            }
            assert forall|i: int| 0 <= i < back.cards.len() implies justified(
                back.columns,
                #[trigger] back.cards[i],
            ) by {
                let c = s.cards[i];
                let d = back.cards[i];
                assert(d == column::card_after_column_restore(c, id, now));
                assert(justified(s.columns, c));
                if d.deleted_with_column {
                    lemma_same_keys_lookup::<Column>(s.columns, back.columns, c.column_id);
                    lemma_lookup_some::<Column>(s.columns, c.column_id);
                }
            }
        }
    }
}

/// A row that a filter keeps is found afterwards as it was, where no
/// identifier occurs twice.
pub proof fn lemma_kept_row_is_found<T: Keyed>(
    rows: Seq<T::V>,
    pred: spec_fn(T::V) -> bool,
    j: int,
)
    requires
        unique_keys::<T>(rows),
        0 <= j < rows.len(),
        pred(rows[j]),
    ensures
        lookup::<T>(rows.filter(pred), T::key_of(rows[j])) is Some,
        rows.filter(pred)[lookup::<T>(rows.filter(pred), T::key_of(rows[j])).unwrap()] == rows[j],
{
    broadcast use vstd::seq_lib::group_filter_ensures;

    let keep = rows.map_values(pred);
    lemma_masked_is_filter(rows, keep, pred);
    let left = rows.filter(pred);
    rows.lemma_filter_contains(pred, j);
    let t = choose|t: int| 0 <= t < left.len() && left[t] == rows[j];
    assert(T::key_of(left[t]) == T::key_of(rows[j]));
    assert(has_key::<T>(left, T::key_of(rows[j])));
    lemma_lookup_some::<T>(left, T::key_of(rows[j]));
    let found = lookup::<T>(left, T::key_of(rows[j])).unwrap();
    let a = lemma_masked_rows(rows, keep, found);
    if a < j {
        assert(T::key_of(rows[a]) != T::key_of(rows[j]));
    }
    if j < a {
        assert(T::key_of(rows[j]) != T::key_of(rows[a]));
    }
}

/// Deleting a deck and cleaning up keep every mark justified, where no
/// identifier occurs twice.
pub proof fn lemma_removals(s: StoreView, id: Seq<char>, threshold: int)
    requires
        s.wf(),
        provenance(s),
    ensures
        provenance(deck::delete_outcome(s, id).0),
        provenance(cleaned(s, threshold)),
{
    let after = deck::delete_outcome(s, id).0;
    if after != s {
        let keep = s.cards.map_values(deck::outside_deck(s.columns, id));
        lemma_masked_is_filter(s.cards, keep, deck::outside_deck(s.columns, id));
        assert forall|i: int| 0 <= i < after.cards.len() implies justified(
            after.columns,
            #[trigger] after.cards[i],
        ) by {
            let a = lemma_masked_rows(s.cards, keep, i);
            let c = s.cards[a];
            assert(justified(s.columns, c));
            if c.deleted_with_column {
                lemma_lookup_some::<Column>(s.columns, c.column_id);
                let j = lookup::<Column>(s.columns, c.column_id).unwrap();
                lemma_kept_row_is_found::<Column>(s.columns, deck::of_other_deck(id), j);
            }
        }
    }
    let clean = cleaned(s, threshold);
    let keep = s.cards.map_values(card_stays(threshold));
    lemma_masked_is_filter(s.cards, keep, card_stays(threshold));
    assert forall|i: int| 0 <= i < clean.cards.len() implies justified(
        clean.columns,
        #[trigger] clean.cards[i],
    ) by {
        let a = lemma_masked_rows(s.cards, keep, i);
        let c = s.cards[a];
        assert(justified(s.columns, c));
        if c.deleted_with_column {
            lemma_lookup_some::<Column>(s.columns, c.column_id);
            let j = lookup::<Column>(s.columns, c.column_id).unwrap();
            assert(!expired(s.columns[j].deleted_at, threshold));
            lemma_kept_row_is_found::<Column>(s.columns, column_stays(threshold), j);
        }
    }
}

} // verus!
