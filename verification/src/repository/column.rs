//! Columns: the rows of a deck. A column that goes to the bin takes its
//! active cards with it, and brings back exactly those when it returns.

use vstd::prelude::*;
use vstd::string::StringExecFns;
use crate::clock::utc_now_micros;
use crate::db::{Store, StoreView};
use crate::error::{
    database, duplicate_id, invalid_operation, not_found, outcome, position_out_of_range,
    ErrorView, JotDeckError,
};
use crate::ident::new_id;
use crate::listing::{key_view, key_views, list_by, listed_by_number, Number};
use crate::models::{views, Card, CardView, Column, ColumnView, NewColumn};
use crate::position::{highest, lemma_highest, member, next_position, reached};
use crate::sibling::{
    find_row, has_key, highest_position, insert_row, lemma_push_keeps_keys, lemma_rows_moved,
    lemma_rows_reinserted, lemma_rows_removed, lemma_rows_shifted, lemma_update_keeps_keys, lookup,
    move_row, reinsert_row, remove_row, rows_inserted, rows_moved, rows_reinserted, rows_removed,
    rows_shifted, slots, unique_keys, Keyed, Sibling,
};
use crate::text::prepend_char;

verus! {

/// The letter with the given number: `a` for 0, up to `z` for 25.
pub open spec fn letter(d: int) -> char {
    (97 + d) as u8 as char
}

/// The number `n` in the letters `a` to `z`, counted as column labels are:
/// `a`, .., `z`, `aa`, `ab`, .., `zz`, `aaa`, ..
pub open spec fn alphabetic(n: nat) -> Seq<char>
    decreases n,
{
    if n < 26 {
        seq![letter(n as int)]
    } else {
        alphabetic((n / 26 - 1) as nat).push(letter(n as int % 26))
    }
}

/// The number `n` in letters: 0 is `a`, 25 is `z`, 26 is `aa`.
pub fn to_alphabetic(n: u32) -> (text: String)
    ensures
        text@ == alphabetic(n as nat),
{
    let mut text = String::new();
    let mut num: u64 = n as u64 + 1;
    while num > 0
        invariant
            num <= n as u64 + 1,
            num > 0 ==> alphabetic(n as nat) == alphabetic((num - 1) as nat) + text@,
            num == 0 ==> alphabetic(n as nat) == text@,
        decreases num,
    {
        num -= 1;
        let digit: u8 = (num % 26) as u8;
        let c = (97u8 + digit) as char;
        let ghost before = text@;
        prepend_char(&mut text, c);
        proof {
            assert(c == letter(num as int % 26));
            if num < 26 {
                assert(alphabetic(num as nat) + before =~= text@);
            } else {
                assert(alphabetic(num as nat) + before =~= alphabetic(
                    (num / 26 - 1) as nat,
                ) + text@);
            }
        }
        num /= 26;
    }
    text
}

/// The number of columns of a deck, the ones in the bin counted too.
pub open spec fn column_count(columns: Seq<ColumnView>, deck_id: Seq<char>) -> nat
    decreases columns.len(),
{
    if columns.len() == 0 {
        0
    } else {
        column_count(columns.drop_last(), deck_id) + if columns.last().deck_id == deck_id {
            1nat
        } else {
            0nat
        }
    }
}

/// The name that a column gets where none is given: the number of the
/// deck's columns in letters, then `-col`.
pub open spec fn generated_name(columns: Seq<ColumnView>, deck_id: Seq<char>) -> Seq<char> {
    alphabetic(column_count(columns, deck_id)) + "-col"@
}

pub open spec fn count_out_of_range() -> ErrorView {
    ErrorView::Database("integer out of range"@)
}

/// The name for the next column of a deck. More columns than a 32-bit count
/// holds are a storage failure.
pub fn generate_column_name(store: &Store, deck_id: &str) -> (r: Result<String, JotDeckError>)
    ensures
        outcome(r) == (if column_count(store@.columns, deck_id@) > i32::MAX {
            Err(count_out_of_range())
        } else {
            Ok(generated_name(store@.columns, deck_id@))
        }),
{
    let wanted = String::from_str(deck_id);
    let mut count: usize = 0;
    let mut i: usize = 0;
    while i < store.columns.len()
        invariant
            i <= store.columns.len(),
            wanted@ == deck_id@,
            count <= i,
            count == column_count(store@.columns.take(i as int), deck_id@),
        decreases store.columns.len() - i,
    {
        proof {
            assert(store@.columns.take(i + 1).drop_last() =~= store@.columns.take(i as int));
            assert(store@.columns.take(i + 1).last() == store.columns[i as int]@);
        }
        if store.columns[i].deck_id == wanted {
            count += 1;
        }
        i += 1;
    }
    proof {
        assert(store@.columns.take(store.columns.len() as int) =~= store@.columns);
    }
    if count > i32::MAX as usize {
        return Err(database("integer out of range"));
    }
    Ok(to_alphabetic(count as u32).concat("-col"))
}

/// The store with another table of columns.
pub open spec fn with_columns(s: StoreView, columns: Seq<ColumnView>) -> StoreView {
    StoreView { columns: columns, ..s }
}

/// A column as it is made: active.
pub open spec fn fresh_column(
    deck_id: Seq<char>,
    name: Seq<char>,
    position: int,
    id: Seq<char>,
    now: int,
) -> ColumnView {
    ColumnView {
        id: id,
        deck_id: deck_id,
        name: name,
        position: position,
        created_at: now,
        updated_at: now,
        deleted_at: None,
    }
}

/// The name of a new column: the given one, or the generated one where the
/// given one is empty.
pub open spec fn resolved_name(
    columns: Seq<ColumnView>,
    deck_id: Seq<char>,
    name: Seq<char>,
) -> Seq<char> {
    if name.len() == 0 {
        generated_name(columns, deck_id)
    } else {
        name
    }
}

/// Whether a name has to be generated and the deck has more columns than
/// can be counted.
pub open spec fn name_fails(columns: Seq<ColumnView>, deck_id: Seq<char>, name: Seq<char>) -> bool {
    name.len() == 0 && column_count(columns, deck_id) > i32::MAX
}

pub open spec fn column_not_found(id: Seq<char>) -> ErrorView {
    ErrorView::NotFound("Column not found: "@ + id)
}

pub open spec fn cannot_update_deleted_column() -> ErrorView {
    ErrorView::InvalidOperation("Cannot update deleted column"@)
}

pub open spec fn cannot_move_deleted_column() -> ErrorView {
    ErrorView::InvalidOperation("Cannot move deleted column"@)
}

pub open spec fn column_already_deleted() -> ErrorView {
    ErrorView::InvalidOperation("Column is already deleted"@)
}

pub open spec fn column_not_deleted() -> ErrorView {
    ErrorView::InvalidOperation("Column is not deleted"@)
}

/// What `create_with` leaves and returns: the column is appended to its
/// deck, one past the highest position of the deck's active columns.
pub open spec fn create_outcome(
    s: StoreView,
    deck_id: Seq<char>,
    name: Seq<char>,
    id: Seq<char>,
    now: int,
) -> (StoreView, Result<ColumnView, ErrorView>) {
    let position = next_position(slots::<Column>(s.columns), deck_id);
    if position > i32::MAX {
        (s, Err(position_out_of_range()))
    } else if name_fails(s.columns, deck_id, name) {
        (s, Err(count_out_of_range()))
    } else if has_key::<Column>(s.columns, id) {
        (s, Err(duplicate_id()))
    } else {
        let column = fresh_column(
            deck_id,
            resolved_name(s.columns, deck_id, name),
            position,
            id,
            now,
        );
        (with_columns(s, s.columns.push(column)), Ok(column))
    }
}

/// What `create_at_position_with` leaves and returns: the deck's active
/// columns at or after `position` move up by one, then the column takes
/// `position`.
pub open spec fn create_at_position_outcome(
    s: StoreView,
    deck_id: Seq<char>,
    name: Seq<char>,
    position: int,
    id: Seq<char>,
    now: int,
) -> (StoreView, Result<ColumnView, ErrorView>) {
    if name_fails(s.columns, deck_id, name) {
        (s, Err(count_out_of_range()))
    } else if highest(slots::<Column>(s.columns), deck_id) == Some(i32::MAX as int) {
        (s, Err(position_out_of_range()))
    } else if has_key::<Column>(s.columns, id) {
        (s, Err(duplicate_id()))
    } else {
        let column = fresh_column(
            deck_id,
            resolved_name(s.columns, deck_id, name),
            position,
            id,
            now,
        );
        (with_columns(s, rows_inserted::<Column>(s.columns, column, now)), Ok(column))
    }
}

/// What `get_by_id` returns.
pub open spec fn get_by_id_outcome(s: StoreView, id: Seq<char>) -> Result<ColumnView, ErrorView> {
    match lookup::<Column>(s.columns, id) {
        Some(k) => Ok(s.columns[k]),
        None => Err(column_not_found(id)),
    }
}

/// What `update_with` leaves and returns: the column takes the name that is
/// given, if one is.
pub open spec fn update_outcome(s: StoreView, id: Seq<char>, name: Option<Seq<char>>, now: int) -> (
    StoreView,
    Result<ColumnView, ErrorView>,
) {
    match lookup::<Column>(s.columns, id) {
        None => (s, Err(column_not_found(id))),
        Some(k) => if s.columns[k].deleted_at is Some {
            (s, Err(cannot_update_deleted_column()))
        } else {
            let column = ColumnView {
                name: match name {
                    Some(n) => n,
                    None => s.columns[k].name,
                },
                updated_at: now,
                ..s.columns[k]
            };
            (with_columns(s, s.columns.update(k, column)), Ok(column))
        },
    }
}

/// What `move_to_position_with` leaves and returns.
pub open spec fn move_to_position_outcome(
    s: StoreView,
    id: Seq<char>,
    new_position: int,
    now: int,
) -> (StoreView, Result<ColumnView, ErrorView>) {
    match lookup::<Column>(s.columns, id) {
        None => (s, Err(column_not_found(id))),
        Some(k) => if s.columns[k].deleted_at is Some {
            (s, Err(cannot_move_deleted_column()))
        } else {
            let columns = rows_moved::<Column>(s.columns, k, new_position, now);
            (with_columns(s, columns), Ok(columns[k]))
        },
    }
}

/// A card after its column went to the bin at `now`: an active card of the
/// column goes with it and is marked so; every other card stays as it is.
pub open spec fn card_after_column_delete(c: CardView, column_id: Seq<char>, now: int) -> CardView {
    if c.column_id == column_id && c.deleted_at is None {
        CardView { deleted_at: Some(now), deleted_with_column: true, updated_at: now, ..c }
    } else {
        c
    }
}

/// A card after its column came back at `now`: a card of the column that
/// went to the bin with it comes back and loses the mark; every other card
/// stays as it is.
pub open spec fn card_after_column_restore(
    c: CardView,
    column_id: Seq<char>,
    now: int,
) -> CardView {
    if c.column_id == column_id && c.deleted_with_column {
        CardView { deleted_at: None, deleted_with_column: false, updated_at: now, ..c }
    } else {
        c
    }
}

/// What `soft_delete_with` leaves and returns: the column's active cards go
/// to the bin with it, and the deck's active columns after it move down by
/// one.
pub open spec fn soft_delete_outcome(s: StoreView, id: Seq<char>, now: int) -> (
    StoreView,
    Result<(), ErrorView>,
) {
    match lookup::<Column>(s.columns, id) {
        None => (s, Err(column_not_found(id))),
        Some(k) => if s.columns[k].deleted_at is Some {
            (s, Err(column_already_deleted()))
        } else {
            (
                StoreView {
                    columns: rows_removed::<Column>(s.columns, k, now),
                    cards: s.cards.map_values(|c: CardView| card_after_column_delete(c, id, now)),
                    ..s
                },
                Ok(()),
            )
        },
    }
}

/// What `restore_with` leaves and returns: the cards that went to the bin
/// with the column come back, and the column comes back to the position it
/// kept.
pub open spec fn restore_outcome(s: StoreView, id: Seq<char>, now: int) -> (
    StoreView,
    Result<ColumnView, ErrorView>,
) {
    match lookup::<Column>(s.columns, id) {
        None => (s, Err(column_not_found(id))),
        Some(k) => if s.columns[k].deleted_at is None {
            (s, Err(column_not_deleted()))
        } else if highest(slots::<Column>(s.columns), s.columns[k].deck_id) == Some(
            i32::MAX as int,
        ) {
            (s, Err(position_out_of_range()))
        } else {
            let columns = rows_reinserted::<Column>(s.columns, k, now);
            (
                StoreView {
                    columns: columns,
                    cards: s.cards.map_values(|c: CardView| card_after_column_restore(c, id, now)),
                    ..s
                },
                Ok(columns[k]),
            )
        },
    }
}

/// The position that a column appended to the deck takes: one past the
/// highest position of the deck's active columns, or zero where it has none. A
/// position beyond the largest that the table holds is a storage failure.
pub fn get_next_position(store: &Store, deck_id: &str) -> (r: Result<i32, JotDeckError>)
    ensures
        match r {
            Ok(p) => p as int == next_position(slots::<Column>(store@.columns), deck_id@),
            Err(e) => next_position(slots::<Column>(store@.columns), deck_id@) > i32::MAX && e@
                == position_out_of_range(),
        },
{
    match highest_position(&store.columns, deck_id) {
        Some(top) => {
            if top == i32::MAX {
                return Err(database("position out of range"));
            }
            Ok(top + 1)
        },
        None => Ok(0),
    }
}

/// Makes a column with the given identifier at the end of its deck, at the
/// instant `now`.
pub fn create_with(store: &mut Store, new_column: NewColumn, id: String, now: i64) -> (r: Result<
    Column,
    JotDeckError,
>)
    requires
        old(store).wf(),
    ensures
        final(store).wf(),
        (final(store)@, outcome(r)) == create_outcome(
            old(store)@,
            new_column.deck_id@,
            new_column.name@,
            id@,
            now as int,
        ),
{
    let position: i32 = match get_next_position(store, new_column.deck_id.as_str()) {
        Ok(position) => position,
        Err(e) => {
            return Err(e);
        },
    };
    let name = if new_column.name.as_str().unicode_len() == 0 {
        match generate_column_name(store, new_column.deck_id.as_str()) {
            Ok(name) => name,
            Err(e) => {
                return Err(e);
            },
        }
    } else {
        new_column.name
    };
    if find_row(&store.columns, id.as_str()).is_some() {
        return Err(database("UNIQUE constraint failed: id"));
    }
    let column = Column {
        id: id,
        deck_id: new_column.deck_id,
        name: name,
        position: position,
        created_at: now,
        updated_at: now,
        deleted_at: None,
    };
    let made = column.clone();
    store.columns.push(column);
    proof {
        assert(store@.columns =~= old(store)@.columns.push(made@));
        lemma_push_keeps_keys::<Column>(old(store)@.columns, made@);
    }
    Ok(made)
}

/// Makes a column at the end of its deck.
pub fn create(store: &mut Store, new_column: NewColumn) -> (r: Result<Column, JotDeckError>)
    requires
        old(store).wf(),
    ensures
        final(store).wf(),
        exists|id: Seq<char>, now: int|
            (final(store)@, outcome(r)) == create_outcome(
                old(store)@,
                new_column.deck_id@,
                new_column.name@,
                id,
                now,
            ),
{
    let id = new_id();
    let now = utc_now_micros();
    let ghost given = id@;
    let r = create_with(store, new_column, id, now);
    assert((store@, outcome(r)) == create_outcome(
        old(store)@,
        new_column.deck_id@,
        new_column.name@,
        given,
        now as int,
    ));
    r
}

/// Makes a column with the given identifier at `position` in its deck, at
/// the instant `now`.
pub fn create_at_position_with(
    store: &mut Store,
    new_column: NewColumn,
    position: i32,
    id: String,
    now: i64,
) -> (r: Result<Column, JotDeckError>)
    requires
        old(store).wf(),
    ensures
        final(store).wf(),
        (final(store)@, outcome(r)) == create_at_position_outcome(
            old(store)@,
            new_column.deck_id@,
            new_column.name@,
            position as int,
            id@,
            now as int,
        ),
{
    let name = if new_column.name.as_str().unicode_len() == 0 {
        match generate_column_name(store, new_column.deck_id.as_str()) {
            Ok(name) => name,
            Err(e) => {
                return Err(e);
            },
        }
    } else {
        new_column.name
    };
    let top = highest_position(&store.columns, new_column.deck_id.as_str());
    if top == Some(i32::MAX) {
        return Err(database("position out of range"));
    }
    if find_row(&store.columns, id.as_str()).is_some() {
        return Err(database("UNIQUE constraint failed: id"));
    }
    let column = Column {
        id: id,
        deck_id: new_column.deck_id,
        name: name,
        position: position,
        created_at: now,
        updated_at: now,
        deleted_at: None,
    };
    let made = column.clone();
    proof {
        let all = slots::<Column>(old(store)@.columns);
        lemma_highest(all, made@.deck_id);
        assert forall|i: int|
            0 <= i < store.columns.len() && reached(
                Column::slot_of(#[trigger] store.columns[i]@),
                made@.deck_id,
                position as int,
                None,
            ) implies Column::slot_of(store.columns[i]@).position < i32::MAX by {
            assert(all[i] == Column::slot_of(store.columns[i]@));
            assert(member(all[i], made@.deck_id));
        }
    }
    insert_row(&mut store.columns, column, now);
    proof {
        let shifted = rows_shifted::<Column>(
            old(store)@.columns,
            made@.deck_id,
            position as int,
            None,
            1,
            now as int,
        );
        lemma_rows_shifted::<Column>(
            old(store)@.columns,
            made@.deck_id,
            position as int,
            None,
            1,
            now as int,
        );
        if has_key::<Column>(shifted, made@.id) {
            let j = choose|j: int|
                0 <= j < shifted.len() && Column::key_of(#[trigger] shifted[j]) == made@.id;
            assert(Column::key_of(old(store)@.columns[j]) == made@.id);
        }
        lemma_push_keeps_keys::<Column>(shifted, made@);
    }
    Ok(made)
}

/// Makes a column at `position` in its deck.
pub fn create_at_position(store: &mut Store, new_column: NewColumn, position: i32) -> (r: Result<
    Column,
    JotDeckError,
>)
    requires
        old(store).wf(),
    ensures
        final(store).wf(),
        exists|id: Seq<char>, now: int|
            (final(store)@, outcome(r)) == create_at_position_outcome(
                old(store)@,
                new_column.deck_id@,
                new_column.name@,
                position as int,
                id,
                now,
            ),
{
    let id = new_id();
    let now = utc_now_micros();
    let ghost given = id@;
    let r = create_at_position_with(store, new_column, position, id, now);
    assert((store@, outcome(r)) == create_at_position_outcome(
        old(store)@,
        new_column.deck_id@,
        new_column.name@,
        position as int,
        given,
        now as int,
    ));
    r
}

/// The column that carries `id`.
pub fn get_by_id(store: &Store, id: &str) -> (r: Result<Column, JotDeckError>)
    ensures
        outcome(r) == get_by_id_outcome(store@, id@),
{
    match find_row(&store.columns, id) {
        Some(k) => {
            assert(store@.columns[k as int] == store.columns[k as int]@);
            Ok(store.columns[k].clone())
        },
        None => Err(not_found("Column not found: ", id)),
    }
}

/// The name that `update` is given, as a sequence of characters.
pub open spec fn given_name(name: Option<&str>) -> Option<Seq<char>> {
    match name {
        Some(n) => Some(n@),
        None => None,
    }
}

/// Renames an active column, at the instant `now`.
pub fn update_with(store: &mut Store, id: &str, name: Option<&str>, now: i64) -> (r: Result<
    Column,
    JotDeckError,
>)
    requires
        old(store).wf(),
    ensures
        final(store).wf(),
        (final(store)@, outcome(r)) == update_outcome(
            old(store)@,
            id@,
            given_name(name),
            now as int,
        ),
{
    let k = match find_row(&store.columns, id) {
        Some(k) => k,
        None => {
            return Err(not_found("Column not found: ", id));
        },
    };
    assert(store@.columns[k as int] == store.columns[k as int]@);
    if store.columns[k].deleted_at.is_some() {
        return Err(invalid_operation("Cannot update deleted column"));
    }
    match name {
        Some(n) => {
            store.columns[k].name = String::from_str(n);
        },
        None => {},
    }
    store.columns[k].updated_at = now;
    proof {
        let column = ColumnView {
            name: match name {
                Some(n) => n@,
                None => old(store)@.columns[k as int].name,
            },
            updated_at: now as int,
            ..old(store)@.columns[k as int]
        };
        assert(store@.columns =~= old(store)@.columns.update(k as int, column));
        lemma_update_keeps_keys::<Column>(old(store)@.columns, k as int, column);
    }
    Ok(store.columns[k].clone())
}

/// Renames an active column.
pub fn update(store: &mut Store, id: &str, name: Option<&str>) -> (r: Result<Column, JotDeckError>)
    requires
        old(store).wf(),
    ensures
        final(store).wf(),
        exists|now: int|
            (final(store)@, outcome(r)) == update_outcome(old(store)@, id@, given_name(name), now),
{
    let now = utc_now_micros();
    let r = update_with(store, id, name, now);
    assert((store@, outcome(r)) == update_outcome(old(store)@, id@, given_name(name), now as int));
    r
}

/// Moves an active column to `new_position` within its deck, at the instant
/// `now`.
pub fn move_to_position_with(store: &mut Store, id: &str, new_position: i32, now: i64) -> (r:
    Result<Column, JotDeckError>)
    requires
        old(store).wf(),
    ensures
        final(store).wf(),
        (final(store)@, outcome(r)) == move_to_position_outcome(
            old(store)@,
            id@,
            new_position as int,
            now as int,
        ),
{
    let k = match find_row(&store.columns, id) {
        Some(k) => k,
        None => {
            return Err(not_found("Column not found: ", id));
        },
    };
    assert(store@.columns[k as int] == store.columns[k as int]@);
    if store.columns[k].deleted_at.is_some() {
        return Err(invalid_operation("Cannot move deleted column"));
    }
    move_row(&mut store.columns, k, new_position, now);
    proof {
        lemma_rows_moved::<Column>(old(store)@.columns, k as int, new_position as int, now as int);
        assert(store@.columns[k as int] == store.columns[k as int]@);
    }
    Ok(store.columns[k].clone())
}

/// Moves an active column to `new_position` within its deck.
pub fn move_to_position(store: &mut Store, id: &str, new_position: i32) -> (r: Result<
    Column,
    JotDeckError,
>)
    requires
        old(store).wf(),
    ensures
        final(store).wf(),
        exists|now: int|
            (final(store)@, outcome(r)) == move_to_position_outcome(
                old(store)@,
                id@,
                new_position as int,
                now,
            ),
{
    let now = utc_now_micros();
    let r = move_to_position_with(store, id, new_position, now);
    assert((store@, outcome(r)) == move_to_position_outcome(
        old(store)@,
        id@,
        new_position as int,
        now as int,
    ));
    r
}

/// Sends the active cards of a column to the bin, marked as gone with it.
fn delete_cards_of(cards: &mut Vec<Card>, column_id: &str, now: i64)
    ensures
        views(final(cards)@) == views(old(cards)@).map_values(
            |c: CardView| card_after_column_delete(c, column_id@, now as int),
        ),
{
    let wanted = String::from_str(column_id);
    let ghost after = views(old(cards)@).map_values(
        |c: CardView| card_after_column_delete(c, column_id@, now as int),
    );
    let mut i: usize = 0;
    while i < cards.len()
        invariant
            i <= cards.len(),
            cards.len() == old(cards).len(),
            wanted@ == column_id@,
            after == views(old(cards)@).map_values(
                |c: CardView| card_after_column_delete(c, column_id@, now as int),
            ),
            forall|j: int| i <= j < cards.len() ==> cards[j] == old(cards)[j],
            forall|j: int| 0 <= j < i ==> #[trigger] cards[j]@ == after[j],
        decreases cards.len() - i,
    {
        if cards[i].column_id == wanted && cards[i].deleted_at.is_none() {
            cards[i].deleted_at = Some(now);
            cards[i].deleted_with_column = true;
            cards[i].updated_at = now;
        }
        proof {
            assert(views(old(cards)@)[i as int] == old(cards)[i as int]@);
        }
        i += 1;
    }
    assert(views(cards@) =~= after);
}

/// Brings back the cards of a column that went to the bin with it.
fn restore_cards_of(cards: &mut Vec<Card>, column_id: &str, now: i64)
    ensures
        views(final(cards)@) == views(old(cards)@).map_values(
            |c: CardView| card_after_column_restore(c, column_id@, now as int),
        ),
{
    let wanted = String::from_str(column_id);
    let ghost after = views(old(cards)@).map_values(
        |c: CardView| card_after_column_restore(c, column_id@, now as int),
    );
    let mut i: usize = 0;
    while i < cards.len()
        invariant
            i <= cards.len(),
            cards.len() == old(cards).len(),
            wanted@ == column_id@,
            after == views(old(cards)@).map_values(
                |c: CardView| card_after_column_restore(c, column_id@, now as int),
            ),
            forall|j: int| i <= j < cards.len() ==> cards[j] == old(cards)[j],
            forall|j: int| 0 <= j < i ==> #[trigger] cards[j]@ == after[j],
        decreases cards.len() - i,
    {
        if cards[i].column_id == wanted && cards[i].deleted_with_column {
            cards[i].deleted_at = None;
            cards[i].deleted_with_column = false;
            cards[i].updated_at = now;
        }
        proof {
            assert(views(old(cards)@)[i as int] == old(cards)[i as int]@);
        }
        i += 1;
    }
    assert(views(cards@) =~= after);
}

/// A change of the cards that keeps each card's identifier keeps the
/// identifiers different.
proof fn lemma_cards_keep_keys(before: Seq<CardView>, after: Seq<CardView>)
    requires
        unique_keys::<Card>(before),
        after.len() == before.len(),
        forall|i: int| 0 <= i < before.len() ==> (#[trigger] after[i]).id == before[i].id,
    ensures
        unique_keys::<Card>(after),
{
    assert forall|i: int, j: int| 0 <= i < j < after.len() implies Card::key_of(
        #[trigger] after[i],
    ) != Card::key_of(#[trigger] after[j]) by {
        assert(Card::key_of(before[i]) != Card::key_of(before[j]));
    }
}

/// Sends an active column to the bin, and its active cards with it, at the
/// instant `now`.
pub fn soft_delete_with(store: &mut Store, id: &str, now: i64) -> (r: Result<(), JotDeckError>)
    requires
        old(store).wf(),
    ensures
        final(store).wf(),
        (final(store)@, outcome(r)) == soft_delete_outcome(old(store)@, id@, now as int),
{
    let k = match find_row(&store.columns, id) {
        Some(k) => k,
        None => {
            return Err(not_found("Column not found: ", id));
        },
    };
    assert(store@.columns[k as int] == store.columns[k as int]@);
    if store.columns[k].deleted_at.is_some() {
        return Err(invalid_operation("Column is already deleted"));
    }
    delete_cards_of(&mut store.cards, id, now);
    remove_row(&mut store.columns, k, now);
    proof {
        lemma_rows_removed::<Column>(old(store)@.columns, k as int, now as int);
        lemma_cards_keep_keys(old(store)@.cards, store@.cards);
    }
    Ok(())
}

/// Sends an active column to the bin, and its active cards with it.
pub fn soft_delete(store: &mut Store, id: &str) -> (r: Result<(), JotDeckError>)
    requires
        old(store).wf(),
    ensures
        final(store).wf(),
        exists|now: int| (final(store)@, outcome(r)) == soft_delete_outcome(old(store)@, id@, now),
{
    let now = utc_now_micros();
    let r = soft_delete_with(store, id, now);
    assert((store@, outcome(r)) == soft_delete_outcome(old(store)@, id@, now as int));
    r
}

/// Brings a column back from the bin to the position it kept, and with it
/// the cards that went with it, at the instant `now`.
pub fn restore_with(store: &mut Store, id: &str, now: i64) -> (r: Result<Column, JotDeckError>)
    requires
        old(store).wf(),
    ensures
        final(store).wf(),
        (final(store)@, outcome(r)) == restore_outcome(old(store)@, id@, now as int),
{
    let k = match find_row(&store.columns, id) {
        Some(k) => k,
        None => {
            return Err(not_found("Column not found: ", id));
        },
    };
    assert(store@.columns[k as int] == store.columns[k as int]@);
    if store.columns[k].deleted_at.is_none() {
        return Err(invalid_operation("Column is not deleted"));
    }
    let top = highest_position(&store.columns, store.columns[k].deck_id.as_str());
    if top == Some(i32::MAX) {
        return Err(database("position out of range"));
    }
    proof {
        let all = slots::<Column>(old(store)@.columns);
        let scope = old(store)@.columns[k as int].deck_id;
        lemma_highest(all, scope);
        assert forall|i: int|
            0 <= i < store.columns.len() && reached(
                Column::slot_of(#[trigger] store.columns[i]@),
                scope,
                old(store)@.columns[k as int].position,
                None,
            ) implies Column::slot_of(store.columns[i]@).position < i32::MAX by {
            assert(all[i] == Column::slot_of(store.columns[i]@));
            assert(member(all[i], scope));
        }
    }
    restore_cards_of(&mut store.cards, id, now);
    reinsert_row(&mut store.columns, k, now);
    proof {
        lemma_rows_reinserted::<Column>(old(store)@.columns, k as int, now as int);
        lemma_cards_keep_keys(old(store)@.cards, store@.cards);
        assert(store@.columns[k as int] == store.columns[k as int]@);
    }
    Ok(store.columns[k].clone())
}

/// Brings a column back from the bin to the position it kept, and with it
/// the cards that went with it.
pub fn restore(store: &mut Store, id: &str) -> (r: Result<Column, JotDeckError>)
    requires
        old(store).wf(),
    ensures
        final(store).wf(),
        exists|now: int| (final(store)@, outcome(r)) == restore_outcome(old(store)@, id@, now),
{
    let now = utc_now_micros();
    let r = restore_with(store, id, now);
    assert((store@, outcome(r)) == restore_outcome(old(store)@, id@, now as int));
    r
}


/// The position of a column that is an active column of the deck.
pub open spec fn active_in_deck(deck_id: Seq<char>) -> spec_fn(ColumnView) -> Option<int> {
    |c: ColumnView|
        if c.deck_id == deck_id && c.deleted_at is None {
            Some(c.position)
        } else {
            None
        }
}

/// The instant at which a column of the deck went to the bin, if it is
/// there.
pub open spec fn deleted_in_deck(deck_id: Seq<char>) -> spec_fn(ColumnView) -> Option<int> {
    |c: ColumnView|
        if c.deck_id == deck_id {
            c.deleted_at
        } else {
            None
        }
}

/// The active columns of a deck, from the first position to the last.
pub fn get_by_deck_id(store: &Store, deck_id: &str) -> (r: Result<Vec<Column>, JotDeckError>)
    ensures
        r is Ok,
        views(r.unwrap()@) == listed_by_number(store@.columns, active_in_deck(deck_id@), false),
{
    let wanted = String::from_str(deck_id);
    let mut keys: Vec<Option<Number>> = Vec::new();
    let mut i: usize = 0;
    while i < store.columns.len()
        invariant
            i <= store.columns.len(),
            wanted@ == deck_id@,
            keys.len() == i,
            forall|j: int|
                0 <= j < i ==> key_view(#[trigger] keys[j]) == active_in_deck(deck_id@)(
                    store@.columns[j],
                ),
        decreases store.columns.len() - i,
    {
        let column = &store.columns[i];
        proof {
            assert(store@.columns[i as int] == column@);
        }
        let key = if column.deck_id == wanted && column.deleted_at.is_none() {
            Some(Number(column.position as i64))
        } else {
            None
        };
        keys.push(key);
        i += 1;
    }
    assert(key_views(keys@) =~= store@.columns.map_values(active_in_deck(deck_id@)));
    Ok(list_by(&store.columns, &keys, false))
}

/// The columns of a deck that are in the bin, the one that went there last
/// first.
pub fn get_deleted(store: &Store, deck_id: &str) -> (r: Result<Vec<Column>, JotDeckError>)
    ensures
        r is Ok,
        views(r.unwrap()@) == listed_by_number(store@.columns, deleted_in_deck(deck_id@), true),
{
    let wanted = String::from_str(deck_id);
    let mut keys: Vec<Option<Number>> = Vec::new();
    let mut i: usize = 0;
    while i < store.columns.len()
        invariant
            i <= store.columns.len(),
            wanted@ == deck_id@,
            keys.len() == i,
            forall|j: int|
                0 <= j < i ==> key_view(#[trigger] keys[j]) == deleted_in_deck(deck_id@)(
                    store@.columns[j],
                ),
        decreases store.columns.len() - i,
    {
        let column = &store.columns[i];
        proof {
            assert(store@.columns[i as int] == column@);
        }
        let key = match column.deleted_at {
            Some(t) => if column.deck_id == wanted {
                Some(Number(t))
            } else {
                None
            },
            None => None,
        };
        keys.push(key);
        i += 1;
    }
    assert(key_views(keys@) =~= store@.columns.map_values(deleted_in_deck(deck_id@)));
    Ok(list_by(&store.columns, &keys, true))
}

} // verus!
