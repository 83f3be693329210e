//! The store: the five tables that hold a note deck.

use vstd::prelude::*;
use crate::error::{database, ErrorView, JotDeckError};
use crate::models::{
    views, Card, CardTag, CardTagView, CardView, Column, ColumnView, Deck, DeckView, Tag, TagView,
};
use crate::sibling::{unique_keys, Keyed};

verus! {

/// The tables of decks, columns, cards, tags and the links between cards and
/// tags. Rows stand in the order in which they were added.
pub struct Store {
    pub(crate) decks: Vec<Deck>,
    pub(crate) columns: Vec<Column>,
    pub(crate) cards: Vec<Card>,
    pub(crate) tags: Vec<Tag>,
    pub(crate) card_tags: Vec<CardTag>,
}

/// What a store holds, as sequences of row views.
pub struct StoreView {
    pub decks: Seq<DeckView>,
    pub columns: Seq<ColumnView>,
    pub cards: Seq<CardView>,
    pub tags: Seq<TagView>,
    pub card_tags: Seq<CardTagView>,
}

impl View for Store {
    type V = StoreView;

    open(crate) spec fn view(&self) -> StoreView {
        StoreView {
            decks: views(self.decks@),
            columns: views(self.columns@),
            cards: views(self.cards@),
            tags: views(self.tags@),
            card_tags: views(self.card_tags@),
        }
    }
}


/// No two tags carry the same name.
pub open spec fn unique_names(tags: Seq<TagView>) -> bool {
    forall|i: int, j: int|
        0 <= i < j < tags.len() ==> (#[trigger] tags[i]).name != (#[trigger] tags[j]).name
}

/// No card is linked to the same tag twice.
pub open spec fn unique_links(links: Seq<CardTagView>) -> bool {
    forall|i: int, j: int| 0 <= i < j < links.len() ==> #[trigger] links[i] != #[trigger] links[j]
}

impl StoreView {
    /// The store without a row.
    pub open spec fn empty() -> StoreView {
        StoreView {
            decks: Seq::empty(),
            columns: Seq::empty(),
            cards: Seq::empty(),
            tags: Seq::empty(),
            card_tags: Seq::empty(),
        }
    }

    /// The store's keys are keys: within a table no identifier occurs twice,
    /// no tag name occurs twice, and no link occurs twice.
    pub open spec fn wf(self) -> bool {
        &&& unique_keys::<Deck>(self.decks)
        &&& unique_keys::<Column>(self.columns)
        &&& unique_keys::<Card>(self.cards)
        &&& unique_keys::<Tag>(self.tags)
        &&& unique_names(self.tags)
        &&& unique_links(self.card_tags)
    }
}

/// Whether no two rows carry the same identifier.
pub fn keys_distinct<T: Keyed>(rows: &Vec<T>) -> (b: bool)
    ensures
        b == unique_keys::<T>(views(rows@)),
{
    let mut j: usize = 0;
    while j < rows.len()
        invariant
            j <= rows.len(),
            forall|a: int, b: int|
                0 <= a < b < j ==> T::key_of(#[trigger] views(rows@)[a]) != T::key_of(
                    #[trigger] views(rows@)[b],
                ),
        decreases rows.len() - j,
    {
        let mut i: usize = 0;
        while i < j
            invariant
                i <= j < rows.len(),
                forall|a: int|
                    0 <= a < i ==> T::key_of(#[trigger] views(rows@)[a]) != T::key_of(
                        views(rows@)[j as int],
                    ),
            decreases j - i,
        {
            if *rows[i].key() == *rows[j].key() {
                assert(T::key_of(views(rows@)[i as int]) == T::key_of(views(rows@)[j as int]));
                return false;
            }
            i += 1;
        }
        j += 1;
    }
    true
}

/// Whether no two tags carry the same name.
pub fn names_distinct(tags: &Vec<Tag>) -> (b: bool)
    ensures
        b == unique_names(views(tags@)),
{
    let mut j: usize = 0;
    while j < tags.len()
        invariant
            j <= tags.len(),
            forall|a: int, b: int|
                0 <= a < b < j ==> (#[trigger] views(tags@)[a]).name != (#[trigger] views(
                    tags@,
                )[b]).name,
        decreases tags.len() - j,
    {
        let mut i: usize = 0;
        while i < j
            invariant
                i <= j < tags.len(),
                forall|a: int|
                    0 <= a < i ==> (#[trigger] views(tags@)[a]).name != views(
                        tags@,
                    )[j as int].name,
            decreases j - i,
        {
            if tags[i].name == tags[j].name {
                assert(views(tags@)[i as int].name == views(tags@)[j as int].name);
                return false;
            }
            i += 1;
        }
        j += 1;
    }
    true
}

/// Whether no link occurs twice.
pub fn links_distinct(links: &Vec<CardTag>) -> (b: bool)
    ensures
        b == unique_links(views(links@)),
{
    let mut j: usize = 0;
    while j < links.len()
        invariant
            j <= links.len(),
            forall|a: int, b: int|
                0 <= a < b < j ==> #[trigger] views(links@)[a] != #[trigger] views(links@)[b],
        decreases links.len() - j,
    {
        let mut i: usize = 0;
        while i < j
            invariant
                i <= j < links.len(),
                forall|a: int|
                    0 <= a < i ==> #[trigger] views(links@)[a] != views(links@)[j as int],
            decreases j - i,
        {
            if links[i].card_id == links[j].card_id && links[i].tag_id == links[j].tag_id {
                assert(views(links@)[i as int] == views(links@)[j as int]);
                return false;
            }
            i += 1;
        }
        j += 1;
    }
    true
}

impl Store {
    /// See [`StoreView::wf`].
    pub open spec fn wf(&self) -> bool {
        self@.wf()
    }

    /// A store without a row.
    pub fn new() -> (store: Store)
        ensures
            store@ == StoreView::empty(),
            store.wf(),
    {
        let store = Store {
            decks: Vec::new(),
            columns: Vec::new(),
            cards: Vec::new(),
            tags: Vec::new(),
            card_tags: Vec::new(),
        };
        assert(store@.decks =~= Seq::empty());
        assert(store@.columns =~= Seq::empty());
        assert(store@.cards =~= Seq::empty());
        assert(store@.tags =~= Seq::empty());
        assert(store@.card_tags =~= Seq::empty());
        store
    }

    /// A store that holds the given rows, in the given order. Rows that break
    /// a key (an identifier, a tag name or a link that occurs twice) are a
    /// storage failure.
    pub fn from_rows(
        decks: Vec<Deck>,
        columns: Vec<Column>,
        cards: Vec<Card>,
        tags: Vec<Tag>,
        card_tags: Vec<CardTag>,
    ) -> (r: Result<Store, JotDeckError>)
        ensures
            ({
                let given = StoreView {
                    decks: views(decks@),
                    columns: views(columns@),
                    cards: views(cards@),
                    tags: views(tags@),
                    card_tags: views(card_tags@),
                };
                match r {
                    Ok(store) => given.wf() && store@ == given,
                    Err(e) => !given.wf() && e@ == ErrorView::Database("UNIQUE constraint failed"@),
                }
            }),
    {
        if keys_distinct(&decks) && keys_distinct(&columns) && keys_distinct(&cards)
            && keys_distinct(&tags) && names_distinct(&tags) && links_distinct(&card_tags) {
            Ok(Store { decks, columns, cards, tags, card_tags })
        } else {
            Err(database("UNIQUE constraint failed"))
        }
    }

    /// The decks, in the order in which they were added.
    pub fn decks(&self) -> (rows: &Vec<Deck>)
        ensures
            views(rows@) == self@.decks,
    {
        &self.decks
    }

    /// The columns, in the order in which they were added.
    pub fn columns(&self) -> (rows: &Vec<Column>)
        ensures
            views(rows@) == self@.columns,
    {
        &self.columns
    }

    /// The cards, in the order in which they were added.
    pub fn cards(&self) -> (rows: &Vec<Card>)
        ensures
            views(rows@) == self@.cards,
    {
        &self.cards
    }

    /// The tags, in the order in which they were added.
    pub fn tags(&self) -> (rows: &Vec<Tag>)
        ensures
            views(rows@) == self@.tags,
    {
        &self.tags
    }

    /// The links between cards and tags, in the order in which they were
    /// added.
    pub fn card_tags(&self) -> (rows: &Vec<CardTag>)
        ensures
            views(rows@) == self@.card_tags,
    {
        &self.card_tags
    }
}

/// A store in memory, without a row.
pub fn create_in_memory() -> (r: Result<Store, JotDeckError>)
    ensures
        r is Ok,
        r.unwrap()@ == StoreView::empty(),
        r.unwrap().wf(),
{
    Ok(Store::new())
}

} // verus!
