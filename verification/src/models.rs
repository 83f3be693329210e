//! The rows of the store and their mathematical views.

use vstd::prelude::*;
use vstd::string::StringExecFns;
use crate::position::Slot;
use crate::sibling::{Keyed, Row, Sibling};

verus! {

/// The order in which a reader is asked to show the cards of a deck.
#[derive(Debug, Clone, Copy, PartialEq, Eq, Structural)]
pub enum SortOrder {
    /// Newest first.
    CreatedDesc,
    /// Oldest first.
    CreatedAsc,
    /// Highest score first.
    ScoreDesc,
    /// Lowest score first.
    ScoreAsc,
}

impl Default for SortOrder {
    fn default() -> (r: SortOrder)
        ensures
            r == SortOrder::CreatedDesc,
    {
        SortOrder::CreatedDesc
    }
}

impl SortOrder {
    /// The word under which the order is stored.
    pub open spec fn db_value(self) -> Seq<char> {
        match self {
            SortOrder::CreatedDesc => "created_desc"@,
            SortOrder::CreatedAsc => "created_asc"@,
            SortOrder::ScoreDesc => "score_desc"@,
            SortOrder::ScoreAsc => "score_asc"@,
        }
    }

    /// The order that a stored word stands for; an unknown word stands for
    /// newest first.
    pub open spec fn of_db_value(s: Seq<char>) -> SortOrder {
        if s == "created_asc"@ {
            SortOrder::CreatedAsc
        } else if s == "score_desc"@ {
            SortOrder::ScoreDesc
        } else if s == "score_asc"@ {
            SortOrder::ScoreAsc
        } else {
            SortOrder::CreatedDesc
        }
    }

    pub fn to_db_value(&self) -> (s: &'static str)
        ensures
            s@ == self.db_value(),
    {
        match self {
            SortOrder::CreatedDesc => "created_desc",
            SortOrder::CreatedAsc => "created_asc",
            SortOrder::ScoreDesc => "score_desc",
            SortOrder::ScoreAsc => "score_asc",
        }
    }

    pub fn from_db_value(s: &str) -> (r: SortOrder)
        ensures
            r == SortOrder::of_db_value(s@),
    {
        let word = String::from_str(s);
        if word == String::from_str("created_asc") {
            SortOrder::CreatedAsc
        } else if word == String::from_str("score_desc") {
            SortOrder::ScoreDesc
        } else if word == String::from_str("score_asc") {
            SortOrder::ScoreAsc
        } else {
            SortOrder::CreatedDesc
        }
    }

    /// Every order is read back from the word it is stored under.
    pub proof fn lemma_db_value_round_trip(order: SortOrder)
        ensures
            SortOrder::of_db_value(order.db_value()) == order,
    {
        reveal_strlit("created_desc");
        reveal_strlit("created_asc");
        reveal_strlit("score_desc");
        reveal_strlit("score_asc");
        assert("created_desc"@.len() == 12);
        assert("created_asc"@.len() == 11);
        assert("score_desc"@.len() == 10);
        assert("score_asc"@.len() == 9);
    }
}

/// A point in time as microseconds since 1970-01-01T00:00:00Z, or none.
pub open spec fn instant(t: Option<i64>) -> Option<int> {
    match t {
        Some(t) => Some(t as int),
        None => None,
    }
}

/// A deck: the top of the hierarchy.
#[derive(Debug)]
pub struct Deck {
    pub id: String,
    pub name: String,
    pub sort_order: SortOrder,
    /// Microseconds since 1970-01-01T00:00:00Z.
    pub created_at: i64,
    pub updated_at: i64,
}

pub struct DeckView {
    pub id: Seq<char>,
    pub name: Seq<char>,
    pub sort_order: SortOrder,
    pub created_at: int,
    pub updated_at: int,
}

impl View for Deck {
    type V = DeckView;

    open spec fn view(&self) -> DeckView {
        DeckView {
            id: self.id@,
            name: self.name@,
            sort_order: self.sort_order,
            created_at: self.created_at as int,
            updated_at: self.updated_at as int,
        }
    }
}

impl Clone for Deck {
    fn clone(&self) -> (r: Deck)
        ensures
            r == *self,
    {
        Deck {
            id: self.id.clone(),
            name: self.name.clone(),
            sort_order: self.sort_order,
            created_at: self.created_at,
            updated_at: self.updated_at,
        }
    }
}

/// A column of a deck. A column with a `deleted_at` is in the bin.
#[derive(Debug)]
pub struct Column {
    pub id: String,
    pub deck_id: String,
    pub name: String,
    pub position: i32,
    pub created_at: i64,
    pub updated_at: i64,
    pub deleted_at: Option<i64>,
}

pub struct ColumnView {
    pub id: Seq<char>,
    pub deck_id: Seq<char>,
    pub name: Seq<char>,
    pub position: int,
    pub created_at: int,
    pub updated_at: int,
    pub deleted_at: Option<int>,
}

impl View for Column {
    type V = ColumnView;

    open spec fn view(&self) -> ColumnView {
        ColumnView {
            id: self.id@,
            deck_id: self.deck_id@,
            name: self.name@,
            position: self.position as int,
            created_at: self.created_at as int,
            updated_at: self.updated_at as int,
            deleted_at: instant(self.deleted_at),
        }
    }
}

impl Clone for Column {
    fn clone(&self) -> (r: Column)
        ensures
            r == *self,
    {
        Column {
            id: self.id.clone(),
            deck_id: self.deck_id.clone(),
            name: self.name.clone(),
            position: self.position,
            created_at: self.created_at,
            updated_at: self.updated_at,
            deleted_at: self.deleted_at,
        }
    }
}

/// A card of a column. A card with a `deleted_at` is in the bin;
/// `deleted_with_column` says that it went there with its column.
#[derive(Debug)]
pub struct Card {
    pub id: String,
    pub column_id: String,
    pub content: String,
    pub score: i32,
    pub position: i32,
    pub created_at: i64,
    pub updated_at: i64,
    pub deleted_at: Option<i64>,
    pub deleted_with_column: bool,
}

pub struct CardView {
    pub id: Seq<char>,
    pub column_id: Seq<char>,
    pub content: Seq<char>,
    pub score: int,
    pub position: int,
    pub created_at: int,
    pub updated_at: int,
    pub deleted_at: Option<int>,
    pub deleted_with_column: bool,
}

impl View for Card {
    type V = CardView;

    open spec fn view(&self) -> CardView {
        CardView {
            id: self.id@,
            column_id: self.column_id@,
            content: self.content@,
            score: self.score as int,
            position: self.position as int,
            created_at: self.created_at as int,
            updated_at: self.updated_at as int,
            deleted_at: instant(self.deleted_at),
            deleted_with_column: self.deleted_with_column,
        }
    }
}

impl Clone for Card {
    fn clone(&self) -> (r: Card)
        ensures
            r == *self,
    {
        Card {
            id: self.id.clone(),
            column_id: self.column_id.clone(),
            content: self.content.clone(),
            score: self.score,
            position: self.position,
            created_at: self.created_at,
            updated_at: self.updated_at,
            deleted_at: self.deleted_at,
            deleted_with_column: self.deleted_with_column,
        }
    }
}

/// A hashtag that some card's content has named.
#[derive(Debug)]
pub struct Tag {
    pub id: String,
    pub name: String,
}

pub struct TagView {
    pub id: Seq<char>,
    pub name: Seq<char>,
}

impl View for Tag {
    type V = TagView;

    open spec fn view(&self) -> TagView {
        TagView { id: self.id@, name: self.name@ }
    }
}

impl Clone for Tag {
    fn clone(&self) -> (r: Tag)
        ensures
            r == *self,
    {
        Tag { id: self.id.clone(), name: self.name.clone() }
    }
}

/// The link between a card and a tag that its content names.
#[derive(Debug)]
pub struct CardTag {
    pub card_id: String,
    pub tag_id: String,
}

pub struct CardTagView {
    pub card_id: Seq<char>,
    pub tag_id: Seq<char>,
}

impl View for CardTag {
    type V = CardTagView;

    open spec fn view(&self) -> CardTagView {
        CardTagView { card_id: self.card_id@, tag_id: self.tag_id@ }
    }
}

impl Clone for CardTag {
    fn clone(&self) -> (r: CardTag)
        ensures
            r == *self,
    {
        CardTag { card_id: self.card_id.clone(), tag_id: self.tag_id.clone() }
    }
}

/// What a caller gives to have a deck made.
#[derive(Debug)]
pub struct NewDeck {
    pub name: String,
    pub sort_order: SortOrder,
}

/// What a caller gives to have a column made. An empty name asks for the
/// next name in the sequence `a-col`, `b-col`, ...
#[derive(Debug)]
pub struct NewColumn {
    pub deck_id: String,
    pub name: String,
}

/// What a caller gives to have a card made.
#[derive(Debug)]
pub struct NewCard {
    pub column_id: String,
    pub content: String,
}

/// The views of a sequence of rows, one for one.
pub open spec fn views<T: View>(rows: Seq<T>) -> Seq<T::V> {
    rows.map_values(|r: T| r@)
}


impl Keyed for Deck {
    open spec fn key_of(v: DeckView) -> Seq<char> {
        v.id
    }

    fn key(&self) -> (k: &String) {
        &self.id
    }
}

impl Keyed for Tag {
    open spec fn key_of(v: TagView) -> Seq<char> {
        v.id
    }

    fn key(&self) -> (k: &String) {
        &self.id
    }
}

impl Keyed for Column {
    open spec fn key_of(v: ColumnView) -> Seq<char> {
        v.id
    }

    fn key(&self) -> (k: &String) {
        &self.id
    }
}

impl Sibling for Column {
    open spec fn slot_of(v: ColumnView) -> Slot {
        Slot { scope: v.deck_id, position: v.position, active: v.deleted_at is None }
    }

    open spec fn placed(v: ColumnView, position: int, now: int) -> ColumnView {
        ColumnView { position: position, updated_at: now, ..v }
    }

    open spec fn binned(v: ColumnView, now: int) -> ColumnView {
        ColumnView { deleted_at: Some(now), updated_at: now, ..v }
    }

    open spec fn revived(v: ColumnView, now: int) -> ColumnView {
        ColumnView { deleted_at: None, updated_at: now, ..v }
    }

    proof fn lemma_slots(v: ColumnView, position: int, now: int) {
    }

    open spec fn dated(v: ColumnView) -> bool {
        v.created_at <= v.updated_at && (v.deleted_at is Some ==> v.deleted_at == Some(
            v.updated_at,
        ))
    }

    open spec fn made_by(v: ColumnView, now: int) -> bool {
        v.created_at <= now
    }

    proof fn lemma_dates(v: ColumnView, position: int, now: int) {
    }

    proof fn lemma_position_fits(&self) {
    }

    fn scope(&self) -> (s: &String) {
        &self.deck_id
    }

    fn position(&self) -> (p: i32) {
        self.position
    }

    fn is_active(&self) -> (b: bool) {
        self.deleted_at.is_none()
    }

    fn place(&mut self, position: i32, now: i64) {
        self.position = position;
        self.updated_at = now;
    }

    fn bin(&mut self, now: i64) {
        self.deleted_at = Some(now);
        self.updated_at = now;
    }

    fn revive(&mut self, now: i64) {
        self.deleted_at = None;
        self.updated_at = now;
    }
}

impl Keyed for Card {
    open spec fn key_of(v: CardView) -> Seq<char> {
        v.id
    }

    fn key(&self) -> (k: &String) {
        &self.id
    }
}

impl Sibling for Card {
    open spec fn slot_of(v: CardView) -> Slot {
        Slot { scope: v.column_id, position: v.position, active: v.deleted_at is None }
    }

    open spec fn placed(v: CardView, position: int, now: int) -> CardView {
        CardView { position: position, updated_at: now, ..v }
    }

    open spec fn binned(v: CardView, now: int) -> CardView {
        CardView { deleted_at: Some(now), updated_at: now, ..v }
    }

    open spec fn revived(v: CardView, now: int) -> CardView {
        CardView { deleted_at: None, updated_at: now, ..v }
    }

    proof fn lemma_slots(v: CardView, position: int, now: int) {
    }

    open spec fn dated(v: CardView) -> bool {
        v.created_at <= v.updated_at && (v.deleted_at is Some ==> v.deleted_at == Some(
            v.updated_at,
        ))
    }

    open spec fn made_by(v: CardView, now: int) -> bool {
        v.created_at <= now
    }

    proof fn lemma_dates(v: CardView, position: int, now: int) {
    }

    proof fn lemma_position_fits(&self) {
    }

    fn scope(&self) -> (s: &String) {
        &self.column_id
    }

    fn position(&self) -> (p: i32) {
        self.position
    }

    fn is_active(&self) -> (b: bool) {
        self.deleted_at.is_none()
    }

    fn place(&mut self, position: i32, now: i64) {
        self.position = position;
        self.updated_at = now;
    }

    fn bin(&mut self, now: i64) {
        self.deleted_at = Some(now);
        self.updated_at = now;
    }

    fn revive(&mut self, now: i64) {
        self.deleted_at = None;
        self.updated_at = now;
    }
}


impl Row for Deck {
    fn copy(&self) -> (r: Deck) {
        self.clone()
    }
}

impl Row for Column {
    fn copy(&self) -> (r: Column) {
        self.clone()
    }
}

impl Row for Card {
    fn copy(&self) -> (r: Card) {
        self.clone()
    }
}

impl Row for Tag {
    fn copy(&self) -> (r: Tag) {
        self.clone()
    }
}

impl Row for CardTag {
    fn copy(&self) -> (r: CardTag) {
        self.clone()
    }
}

} // verus!
