//! The cleanup: rows that have been in the bin for longer than the retention
//! time are removed for good, and with them the tags that no card is linked
//! to any more.

use vstd::prelude::*;
use crate::clock::{retention_threshold, threshold_at, utc_now_micros};
use crate::db::{Store, StoreView};
use crate::error::JotDeckError;
use crate::listing::{kept, lemma_masked_is_filter, lemma_masked_keeps_keys};
use crate::models::{Card, CardTagView, CardView, Column, ColumnView, Tag, TagView};
use crate::repository::tag::{lemma_masked_keeps_links, lemma_masked_keeps_names};
use crate::repository::deck::lemma_dropped_row_is_gone;
use crate::sibling::{find_row, lookup, Keyed};

verus! {

/// How many rows a cleanup removed.
#[derive(Debug)]
pub struct CleanupResult {
    pub deleted_columns: usize,
    pub deleted_cards: usize,
    pub deleted_orphan_tags: usize,
}

impl Default for CleanupResult {
    fn default() -> (r: CleanupResult)
        ensures
            r.deleted_columns == 0,
            r.deleted_cards == 0,
            r.deleted_orphan_tags == 0,
    {
        CleanupResult { deleted_columns: 0, deleted_cards: 0, deleted_orphan_tags: 0 }
    }
}

/// Whether a row went to the bin before the threshold.
pub open spec fn expired(deleted_at: Option<int>, threshold: int) -> bool {
    deleted_at is Some && deleted_at.unwrap() < threshold
}

/// Whether a card stays: it is active, or went to the bin at the threshold
/// or later.
pub open spec fn card_stays(threshold: int) -> spec_fn(CardView) -> bool {
    |c: CardView| !expired(c.deleted_at, threshold)
}

/// Whether a column stays.
pub open spec fn column_stays(threshold: int) -> spec_fn(ColumnView) -> bool {
    |c: ColumnView| !expired(c.deleted_at, threshold)
}

/// Whether a link stays: its card is none that leaves.
pub open spec fn link_stays(cards: Seq<CardView>, threshold: int) -> spec_fn(CardTagView) -> bool {
    |l: CardTagView|
        match lookup::<Card>(cards, l.card_id) {
            Some(i) => !expired(cards[i].deleted_at, threshold),
            None => true,
        }
}

/// Whether some link is to the tag.
pub open spec fn has_link(links: Seq<CardTagView>, tag_id: Seq<char>) -> bool {
    exists|l: int| 0 <= l < links.len() && (#[trigger] links[l]).tag_id == tag_id
}

/// Whether a tag stays: a link is left to it.
pub open spec fn tag_stays(links: Seq<CardTagView>) -> spec_fn(TagView) -> bool {
    |t: TagView| has_link(links, t.id)
}

/// The store after a cleanup with the given threshold: the cards and
/// columns that went to the bin before the threshold are gone, with the
/// links of those cards, and so is every tag that is left without a link.
pub open spec fn cleaned(s: StoreView, threshold: int) -> StoreView {
    let links = s.card_tags.filter(link_stays(s.cards, threshold));
    StoreView {
        decks: s.decks,
        columns: s.columns.filter(column_stays(threshold)),
        cards: s.cards.filter(card_stays(threshold)),
        tags: s.tags.filter(tag_stays(links)),
        card_tags: links,
    }
}

/// Removes for good the cards and columns that went to the bin before
/// `threshold`, and the tags that are left without a link. Returns how many
/// rows of each kind it removed.
pub fn cleanup_with_threshold(store: &mut Store, threshold: i64) -> (r: Result<
    CleanupResult,
    JotDeckError,
>)
    requires
        old(store).wf(),
    ensures
        final(store).wf(),
        final(store)@ == cleaned(old(store)@, threshold as int),
        r is Ok,
        r.unwrap().deleted_cards == old(store)@.cards.len() - final(store)@.cards.len(),
        r.unwrap().deleted_columns == old(store)@.columns.len() - final(store)@.columns.len(),
        r.unwrap().deleted_orphan_tags == old(store)@.tags.len() - final(store)@.tags.len(),
{
    let ghost s0 = store@;
    let mut keep_links: Vec<bool> = Vec::new();
    let mut i: usize = 0;
    while i < store.card_tags.len()
        invariant
            i <= store.card_tags.len(),
            keep_links.len() == i,
            forall|j: int|
                0 <= j < i ==> #[trigger] keep_links[j] == link_stays(
                    store@.cards,
                    threshold as int,
                )(store@.card_tags[j]),
        decreases store.card_tags.len() - i,
    {
        proof {
            assert(store@.card_tags[i as int] == store.card_tags[i as int]@);
        }
        let stays = match find_row(&store.cards, store.card_tags[i].card_id.as_str()) {
            Some(c) => {
                assert(store@.cards[c as int] == store.cards[c as int]@);
                match store.cards[c].deleted_at {
                    Some(t) => !(t < threshold),
                    None => true,
                }
            },
            None => true,
        };
        keep_links.push(stays);
        i += 1;
    }
    let mut keep_cards: Vec<bool> = Vec::new();
    let mut i: usize = 0;
    while i < store.cards.len()
        invariant
            i <= store.cards.len(),
            keep_cards.len() == i,
            forall|j: int|
                0 <= j < i ==> #[trigger] keep_cards[j] == card_stays(threshold as int)(
                    store@.cards[j],
                ),
        decreases store.cards.len() - i,
    {
        proof {
            assert(store@.cards[i as int] == store.cards[i as int]@);
        }
        let stays = match store.cards[i].deleted_at {
            Some(t) => !(t < threshold),
            None => true,
        };
        keep_cards.push(stays);
        i += 1;
    }
    let mut keep_columns: Vec<bool> = Vec::new();
    let mut i: usize = 0;
    while i < store.columns.len()
        invariant
            i <= store.columns.len(),
            keep_columns.len() == i,
            forall|j: int|
                0 <= j < i ==> #[trigger] keep_columns[j] == column_stays(threshold as int)(
                    store@.columns[j],
                ),
        decreases store.columns.len() - i,
    {
        proof {
            assert(store@.columns[i as int] == store.columns[i as int]@);
        }
        let stays = match store.columns[i].deleted_at {
            Some(t) => !(t < threshold),
            None => true,
        };
        keep_columns.push(stays);
        i += 1;
    }
    let links = kept(&store.card_tags, &keep_links);
    let cards = kept(&store.cards, &keep_cards);
    let columns = kept(&store.columns, &keep_columns);
    proof {
        lemma_masked_is_filter(s0.card_tags, keep_links@, link_stays(s0.cards, threshold as int));
        lemma_masked_is_filter(s0.cards, keep_cards@, card_stays(threshold as int));
        lemma_masked_is_filter(s0.columns, keep_columns@, column_stays(threshold as int));
        lemma_masked_keeps_links(s0.card_tags, keep_links@);
        lemma_masked_keeps_keys::<Card>(s0.cards, keep_cards@);
        lemma_masked_keeps_keys::<Column>(s0.columns, keep_columns@);
    }
    let deleted_cards = store.cards.len() - cards.len();
    let deleted_columns = store.columns.len() - columns.len();
    store.card_tags = links;
    store.cards = cards;
    store.columns = columns;
    let mut keep_tags: Vec<bool> = Vec::new();
    let mut i: usize = 0;
    while i < store.tags.len()
        invariant
            i <= store.tags.len(),
            keep_tags.len() == i,
            forall|j: int|
                0 <= j < i ==> #[trigger] keep_tags[j] == tag_stays(store@.card_tags)(
                    store@.tags[j],
                ),
        decreases store.tags.len() - i,
    {
        proof {
            assert(store@.tags[i as int] == store.tags[i as int]@);
        }
        let mut found = false;
        let mut l: usize = 0;
        while !found && l < store.card_tags.len()
            invariant
                l <= store.card_tags.len(),
                i < store.tags.len(),
                found ==> has_link(store@.card_tags, store.tags[i as int]@.id),
                !found ==> forall|m: int|
                    0 <= m < l ==> (#[trigger] store@.card_tags[m]).tag_id
                        != store.tags[i as int]@.id,
            decreases store.card_tags.len() - l + if found { 0int } else { 1int },
        {
            proof {
                assert(store@.card_tags[l as int] == store.card_tags[l as int]@);
            }
            if store.card_tags[l].tag_id == store.tags[i].id {
                found = true;
            } else {
                l += 1;
            }
        }
        keep_tags.push(found);
        i += 1;
    }
    let tags = kept(&store.tags, &keep_tags);
    proof {
        lemma_masked_is_filter(s0.tags, keep_tags@, tag_stays(store@.card_tags));
        lemma_masked_keeps_keys::<Tag>(s0.tags, keep_tags@);
        lemma_masked_keeps_names(s0.tags, keep_tags@);
    }
    let deleted_orphan_tags = store.tags.len() - tags.len();
    store.tags = tags;
    Ok(CleanupResult { deleted_columns, deleted_cards, deleted_orphan_tags })
}

/// Removes for good what went to the bin more than thirty days before now.
pub fn cleanup_old_deleted(store: &mut Store) -> (r: Result<CleanupResult, JotDeckError>)
    requires
        old(store).wf(),
    ensures
        final(store).wf(),
        exists|now: int|
            now >= 0 && final(store)@ == cleaned(old(store)@, retention_threshold(now)),
        r is Ok,
        r.unwrap().deleted_cards == old(store)@.cards.len() - final(store)@.cards.len(),
        r.unwrap().deleted_columns == old(store)@.columns.len() - final(store)@.columns.len(),
        r.unwrap().deleted_orphan_tags == old(store)@.tags.len() - final(store)@.tags.len(),
{
    let now = utc_now_micros();
    let threshold = threshold_at(now);
    let r = cleanup_with_threshold(store, threshold);
    assert(store@ == cleaned(old(store)@, retention_threshold(now as int)));
    r
}

/// Runs the cleanup over the whole store.
pub fn run_cleanup_batch(store: &mut Store) -> (r: Result<CleanupResult, JotDeckError>)
    requires
        old(store).wf(),
    ensures
        final(store).wf(),
        exists|now: int|
            now >= 0 && final(store)@ == cleaned(old(store)@, retention_threshold(now)),
        r is Ok,
        r.unwrap().deleted_cards == old(store)@.cards.len() - final(store)@.cards.len(),
        r.unwrap().deleted_columns == old(store)@.columns.len() - final(store)@.columns.len(),
        r.unwrap().deleted_orphan_tags == old(store)@.tags.len() - final(store)@.tags.len(),
{
    cleanup_old_deleted(store)
}


/// What a cleanup purges and what it spares. A card that went to the bin
/// before the threshold is not found afterwards; a card that is active, or
/// went to the bin at the threshold or later, is still there. No link of a
/// purged card is left, and no tag without a link.
pub proof fn lemma_cleanup_purges(s: StoreView, threshold: int)
    requires
        s.wf(),
    ensures
        ({
            let after = cleaned(s, threshold);
            &&& forall|i: int|
                0 <= i < s.cards.len() && expired((#[trigger] s.cards[i]).deleted_at, threshold)
                    ==> lookup::<Card>(after.cards, s.cards[i].id) is None
            &&& forall|i: int|
                0 <= i < s.cards.len() && !expired((#[trigger] s.cards[i]).deleted_at, threshold)
                    ==> after.cards.contains(s.cards[i])
            &&& forall|i: int|
                0 <= i < s.columns.len() && expired(
                    (#[trigger] s.columns[i]).deleted_at,
                    threshold,
                ) ==> lookup::<Column>(after.columns, s.columns[i].id) is None
            &&& forall|i: int|
                0 <= i < s.columns.len() && !expired(
                    (#[trigger] s.columns[i]).deleted_at,
                    threshold,
                ) ==> after.columns.contains(s.columns[i])
            &&& forall|l: int, i: int|
                0 <= l < after.card_tags.len() && 0 <= i < s.cards.len() && expired(
                    (#[trigger] s.cards[i]).deleted_at,
                    threshold,
                ) ==> (#[trigger] after.card_tags[l]).card_id != s.cards[i].id
            &&& forall|t: int|
                0 <= t < after.tags.len() ==> has_link(
                    after.card_tags,
                    (#[trigger] after.tags[t]).id,
                )
        }),
{
    broadcast use vstd::seq_lib::group_filter_ensures;

    let after = cleaned(s, threshold);
    assert forall|i: int|
        0 <= i < s.cards.len() && expired(
            (#[trigger] s.cards[i]).deleted_at,
            threshold,
        ) implies lookup::<Card>(after.cards, s.cards[i].id) is None by {
        lemma_dropped_row_is_gone::<Card>(s.cards, card_stays(threshold), i);
    }
    assert forall|i: int|
        0 <= i < s.cards.len() && !expired(
            (#[trigger] s.cards[i]).deleted_at,
            threshold,
        ) implies after.cards.contains(s.cards[i]) by {
        s.cards.lemma_filter_contains(card_stays(threshold), i);
    }
    assert forall|i: int|
        0 <= i < s.columns.len() && expired(
            (#[trigger] s.columns[i]).deleted_at,
            threshold,
        ) implies lookup::<Column>(after.columns, s.columns[i].id) is None by {
        lemma_dropped_row_is_gone::<Column>(s.columns, column_stays(threshold), i);
    }
    assert forall|i: int|
        0 <= i < s.columns.len() && !expired(
            (#[trigger] s.columns[i]).deleted_at,
            threshold,
        ) implies after.columns.contains(s.columns[i]) by {
        s.columns.lemma_filter_contains(column_stays(threshold), i);
    }
    assert forall|l: int, i: int|
        0 <= l < after.card_tags.len() && 0 <= i < s.cards.len() && expired(
            (#[trigger] s.cards[i]).deleted_at,
            threshold,
        ) implies (#[trigger] after.card_tags[l]).card_id != s.cards[i].id by {
        s.card_tags.lemma_filter_pred(link_stays(s.cards, threshold), l);
        if after.card_tags[l].card_id == s.cards[i].id {
            crate::sibling::lemma_lookup_some::<Card>(s.cards, s.cards[i].id);
            let k = lookup::<Card>(s.cards, s.cards[i].id).unwrap();
            if k < i {
                assert(Card::key_of(s.cards[k]) != Card::key_of(s.cards[i]));
            }
            if i < k {
                assert(Card::key_of(s.cards[i]) != Card::key_of(s.cards[k]));
            }
        }
    }
    assert forall|t: int| 0 <= t < after.tags.len() implies has_link(
        after.card_tags,
        (#[trigger] after.tags[t]).id,
    ) by {
        s.tags.lemma_filter_pred(tag_stays(after.card_tags), t);
    }
}

} // verus!
