//! What bringing a card's tags in line with its content achieves: the card
//! ends up linked to exactly the tags that the content names, no tag is
//! lost, and doing it again changes nothing.

use vstd::prelude::*;
use crate::db::{unique_names, StoreView};
use crate::listing::lemma_masked_is_filter;
use crate::models::{CardTagView, Tag, TagView};
use crate::repository::tag::{
    associated, get_or_create_outcome, has_name, is_current, lemma_associated_unique,
    lemma_masked_keeps_links, lemma_push_keeps_names, lemma_tag_named, link, names_of, still_named,
    sync_outcome, synced_upto, tag_named,
};
use crate::sibling::{
    lemma_lookup_own, lemma_lookup_push, lemma_lookup_some, lemma_push_keeps_keys, lookup,
    unique_keys,
};

verus! {

/// The tags that carry the first `n` names, one for each name, in the order
/// in which the names first occur.
pub open spec fn listed_upto(tags: Seq<TagView>, names: Seq<Seq<char>>, n: nat) -> Seq<TagView>
    decreases n,
{
    if n == 0 {
        Seq::empty()
    } else {
        let rest = listed_upto(tags, names, (n - 1) as nat);
        if has_name(rest, names[n - 1]) {
            rest
        } else {
            match tag_named(tags, names[n - 1]) {
                Some(k) => rest.push(tags[k]),
                None => rest,
            }
        }
    }
}

/// Every one of the first `n` names is the name of a tag to which the card
/// is linked.
pub open spec fn all_linked(
    m: StoreView,
    card_id: Seq<char>,
    names: Seq<Seq<char>>,
    n: nat,
) -> bool {
    forall|j: int|
        0 <= j < n ==> has_name(m.tags, #[trigger] names[j]) && m.card_tags.contains(
            link(card_id, m.tags[tag_named(m.tags, names[j]).unwrap()].id),
        )
}

/// No link of the card is to a tag whose name is not among the names.
pub open spec fn none_stale(m: StoreView, card_id: Seq<char>, names: Seq<Seq<char>>) -> bool {
    forall|l: int|
        0 <= l < m.card_tags.len() ==> still_named(m, card_id, names)(#[trigger] m.card_tags[l])
}

/// What holds of the store `m` and the tags `listed` after the first `n`
/// candidates are seen to, starting from the store `s`.
pub open spec fn in_step(
    s: StoreView,
    card_id: Seq<char>,
    candidates: Seq<TagView>,
    n: nat,
    m: StoreView,
    listed: Seq<TagView>,
) -> bool {
    let names = names_of(candidates);
    &&& m.wf()
    &&& m.decks == s.decks
    &&& m.columns == s.columns
    &&& m.cards == s.cards
    &&& s.tags.len() <= m.tags.len()
    &&& forall|i: int| 0 <= i < s.tags.len() ==> #[trigger] m.tags[i] == s.tags[i]
    &&& forall|l: int|
        0 <= l < s.card_tags.len() && still_named(s, card_id, names)(#[trigger] s.card_tags[l])
            ==> m.card_tags.contains(s.card_tags[l])
    &&& none_stale(m, card_id, names)
    &&& all_linked(m, card_id, names, n)
    &&& listed == listed_upto(m.tags, names, n)
}

/// A tag that is found under its name.
proof fn lemma_has_name(tags: Seq<TagView>, name: Seq<char>) -> (k: int)
    requires
        has_name(tags, name),
    ensures
        tag_named(tags, name) == Some(k),
        0 <= k < tags.len(),
        tags[k].name == name,
{
    choose|j: int| 0 <= j < tags.len() && (#[trigger] tags[j]).name == name
}

/// Where every one of the first `n` names has a tag, the tags listed for
/// them carry those names and no other.
proof fn lemma_listed_names(tags: Seq<TagView>, names: Seq<Seq<char>>, n: nat)
    requires
        n <= names.len(),
        forall|j: int| 0 <= j < n ==> has_name(tags, #[trigger] names[j]),
    ensures
        forall|t: int|
            0 <= t < listed_upto(tags, names, n).len() ==> exists|j: int|
                0 <= j < n && #[trigger] names[j] == (#[trigger] listed_upto(
                    tags,
                    names,
                    n,
                )[t]).name,
        forall|j: int| 0 <= j < n ==> has_name(listed_upto(tags, names, n), #[trigger] names[j]),
    decreases n,
{
    if n > 0 {
        lemma_listed_names(tags, names, (n - 1) as nat);
        let rest = listed_upto(tags, names, (n - 1) as nat);
        let now = listed_upto(tags, names, n);
        let x = names[n - 1];
        let k = lemma_has_name(tags, x);
        assert forall|t: int| 0 <= t < now.len() implies exists|j: int|
            0 <= j < n && #[trigger] names[j] == (#[trigger] now[t]).name by {
            if t < rest.len() {
                assert(now[t] == rest[t]);
                let j = choose|j: int| 0 <= j < n - 1 && #[trigger] names[j] == rest[t].name;
                assert(0 <= j < n && names[j] == now[t].name);
            } else {
                assert(now[t] == tags[k]);
                assert(names[n - 1] == now[t].name);
            }
        }
        assert forall|j: int| 0 <= j < n implies has_name(now, #[trigger] names[j]) by {
            if j < n - 1 {
                assert(has_name(rest, names[j]));
                let t = choose|t: int| 0 <= t < rest.len() && (#[trigger] rest[t]).name == names[j];
                assert(now[t] == rest[t]);
            } else if has_name(rest, x) {
            } else {
                assert(now[now.len() - 1].name == x);
            }
        }
    }
}

/// A tag that joins the table leaves the tags listed for names that had
/// their tags before.
proof fn lemma_listed_stable(tags: Seq<TagView>, tag: TagView, names: Seq<Seq<char>>, n: nat)
    requires
        n <= names.len(),
        unique_names(tags.push(tag)),
        forall|j: int| 0 <= j < n ==> has_name(tags, #[trigger] names[j]),
    ensures
        listed_upto(tags.push(tag), names, n) == listed_upto(tags, names, n),
    decreases n,
{
    if n > 0 {
        lemma_listed_stable(tags, tag, names, (n - 1) as nat);
        let k = lemma_has_name(tags, names[n - 1]);
        assert(tags.push(tag)[k] == tags[k]);
        lemma_tag_named(tags.push(tag), names[n - 1], k);
    }
}

/// A filter that every row passes keeps the table as it is.
proof fn lemma_filter_all<V>(rows: Seq<V>, pred: spec_fn(V) -> bool)
    requires
        forall|i: int| 0 <= i < rows.len() ==> pred(#[trigger] rows[i]),
    ensures
        rows.filter(pred) == rows,
    decreases rows.len(),
{
    reveal(Seq::filter);
    if rows.len() > 0 {
        assert forall|i: int| 0 <= i < rows.drop_last().len() implies pred(
            #[trigger] rows.drop_last()[i],
        ) by {
            assert(rows.drop_last()[i] == rows[i]);
        }
        lemma_filter_all(rows.drop_last(), pred);
        assert(pred(rows[rows.len() - 1]));
        assert(rows.drop_last().push(rows.last()) =~= rows);
    }
}

/// The state that the first `n` candidates leave, as long as all went well.
pub proof fn lemma_sync_steps(s: StoreView, card_id: Seq<char>, candidates: Seq<TagView>, n: nat)
    requires
        s.wf(),
        n <= candidates.len(),
    ensures
        ({
            let (m, listed, ok) = synced_upto(s, card_id, candidates, n);
            ok ==> in_step(s, card_id, candidates, n, m, listed)
        }),
    decreases n,
{
    broadcast use vstd::seq_lib::group_filter_ensures;

    let names = names_of(candidates);
    let (m, listed, ok) = synced_upto(s, card_id, candidates, n);
    if n == 0 {
        let keep = s.card_tags.map_values(still_named(s, card_id, names));
        lemma_masked_is_filter(s.card_tags, keep, still_named(s, card_id, names));
        lemma_masked_keeps_links(s.card_tags, keep);
        assert forall|l: int|
            0 <= l < s.card_tags.len() && still_named(s, card_id, names)(
                #[trigger] s.card_tags[l],
            ) implies m.card_tags.contains(s.card_tags[l]) by {
            s.card_tags.lemma_filter_contains(still_named(s, card_id, names), l);
        }
        assert forall|l: int| 0 <= l < m.card_tags.len() implies still_named(m, card_id, names)(
            #[trigger] m.card_tags[l],
        ) by {
            s.card_tags.lemma_filter_pred(still_named(s, card_id, names), l);
        }
    } else if ok {
        lemma_sync_steps(s, card_id, candidates, (n - 1) as nat);
        let (mid, seen, before_ok) = synced_upto(s, card_id, candidates, (n - 1) as nat);
        let c = candidates[n - 1];
        let x = c.name;
        assert(names[n - 1] == x);
        assert(names.contains(x));
        assert(in_step(s, card_id, candidates, (n - 1) as nat, mid, seen));
        assert forall|j: int| 0 <= j < n - 1 implies has_name(mid.tags, #[trigger] names[j]) by {}
        lemma_listed_names(mid.tags, names, (n - 1) as nat);
        if has_name(seen, x) {
            let t = choose|t: int| 0 <= t < seen.len() && (#[trigger] seen[t]).name == x;
            let j = choose|j: int| 0 <= j < n - 1 && #[trigger] names[j] == seen[t].name;
            assert(has_name(mid.tags, names[j]));
        } else {
            let (with_tag, r) = get_or_create_outcome(mid, x, c.id);
            let tag = r->Ok_0;
            // The place of the tag in the table.
            let at: int = if tag_named(mid.tags, x) is Some {
                tag_named(mid.tags, x).unwrap()
            } else {
                mid.tags.len() as int
            };
            if tag_named(mid.tags, x) is Some {
                let k = lemma_has_name(mid.tags, x);
            } else {
                lemma_push_keeps_keys::<Tag>(mid.tags, tag);
                lemma_push_keeps_names(mid.tags, tag);
                lemma_listed_stable(mid.tags, tag, names, (n - 1) as nat);
            }
            assert(with_tag.tags[at] == tag);
            assert(tag.name == x);
            assert(unique_names(with_tag.tags));
            assert(unique_keys::<Tag>(with_tag.tags));
            lemma_tag_named(with_tag.tags, x, at);
            lemma_lookup_own::<Tag>(with_tag.tags, at);
            lemma_associated_unique(with_tag.card_tags, card_id, tag.id);
            assert(m.tags == with_tag.tags);
            // Links only grow.
            assert forall|l: CardTagView| mid.card_tags.contains(l) implies m.card_tags.contains(
                l,
            ) by {
                let i = choose|i: int| 0 <= i < mid.card_tags.len() && mid.card_tags[i] == l;
                assert(m.card_tags[i] == l);
            }
            assert forall|l: int|
                0 <= l < s.card_tags.len() && still_named(s, card_id, names)(
                    #[trigger] s.card_tags[l],
                ) implies m.card_tags.contains(s.card_tags[l]) by {
                assert(mid.card_tags.contains(s.card_tags[l]));
            }
            // No link of the card is stale.
            assert forall|l: int| 0 <= l < m.card_tags.len() implies still_named(
                m,
                card_id,
                names,
            )(#[trigger] m.card_tags[l]) by {
                let it = m.card_tags[l];
                if l < mid.card_tags.len() {
                    assert(it == mid.card_tags[l]);
                    assert(still_named(mid, card_id, names)(mid.card_tags[l]));
                    if tag_named(mid.tags, x) is None {
                        lemma_lookup_push::<Tag>(mid.tags, tag, it.tag_id);
                        if lookup::<Tag>(mid.tags, it.tag_id) is Some {
                            lemma_lookup_some::<Tag>(mid.tags, it.tag_id);
                        }
                    }
                } else {
                    assert(it == link(card_id, tag.id));
                }
            }
            // The card is linked to the tag.
            if is_current(s, card_id, x) {
                let j0 = lemma_has_name(s.tags, x);
                let l0 = link(card_id, s.tags[j0].id);
                let i0 = choose|i: int| 0 <= i < s.card_tags.len() && s.card_tags[i] == l0;
                lemma_lookup_own::<Tag>(s.tags, j0);
                assert(still_named(s, card_id, names)(s.card_tags[i0]));
                assert(mid.tags[j0] == s.tags[j0]);
                lemma_tag_named(mid.tags, x, j0);
                assert(m.card_tags.contains(l0));
            } else {
                assert(m.card_tags == associated(with_tag.card_tags, card_id, tag.id));
                if !with_tag.card_tags.contains(link(card_id, tag.id)) {
                    assert(m.card_tags[with_tag.card_tags.len() as int] == link(card_id, tag.id));
                }
            }
            assert(m.card_tags.contains(link(card_id, tag.id)));
            assert forall|j: int| 0 <= j < n implies has_name(m.tags, #[trigger] names[j])
                && m.card_tags.contains(
                link(card_id, m.tags[tag_named(m.tags, names[j]).unwrap()].id),
            ) by {
                if names[j] == x {
                    assert(m.tags[at].name == x);
                } else {
                    assert(j < n - 1);
                    let k = lemma_has_name(mid.tags, names[j]);
                    assert(m.tags[k] == mid.tags[k]);
                    lemma_tag_named(m.tags, names[j], k);
                    assert(mid.card_tags.contains(link(card_id, mid.tags[k].id)));
                }
            }
            assert forall|i: int| 0 <= i < s.tags.len() implies #[trigger] m.tags[i]
                == s.tags[i] by {
                assert(mid.tags[i] == s.tags[i]);
            }
            assert(listed == listed_upto(m.tags, names, n));
        }
    }
}

/// After a card's tags are brought in line with the candidates, the card
/// is linked to a tag if and only if a candidate names it, and every tag
/// that was there is still there.
pub proof fn lemma_sync_links_exactly(s: StoreView, card_id: Seq<char>, candidates: Seq<TagView>)
    requires
        s.wf(),
        sync_outcome(s, card_id, candidates).1 is Ok,
    ensures
        ({
            let after = sync_outcome(s, card_id, candidates).0;
            &&& after.wf()
            &&& forall|name: Seq<char>| #[trigger]
                is_current(after, card_id, name) <==> names_of(candidates).contains(name)
            &&& forall|i: int| 0 <= i < s.tags.len() ==> after.tags.contains(#[trigger] s.tags[i])
        }),
{
    let names = names_of(candidates);
    let after = sync_outcome(s, card_id, candidates).0;
    lemma_sync_steps(s, card_id, candidates, candidates.len());
    assert forall|name: Seq<char>| #[trigger]
        is_current(after, card_id, name) <==> names.contains(name) by {
        if names.contains(name) {
            let j = choose|j: int| 0 <= j < names.len() && names[j] == name;
            assert(has_name(after.tags, names[j]));
        }
        if is_current(after, card_id, name) {
            let k = lemma_has_name(after.tags, name);
            let l = choose|l: int|
                0 <= l < after.card_tags.len() && after.card_tags[l] == link(
                    card_id,
                    after.tags[k].id,
                );
            assert(still_named(after, card_id, names)(after.card_tags[l]));
            lemma_lookup_own::<Tag>(after.tags, k);
        }
    }
    assert forall|i: int| 0 <= i < s.tags.len() implies after.tags.contains(
        #[trigger] s.tags[i],
    ) by {
        assert(after.tags[i] == s.tags[i]);
    }
}

/// In a store where every candidate's name has a tag to which the card is
/// linked, and no link of the card is stale, seeing to the candidates
/// changes nothing.
proof fn lemma_sync_settled(m: StoreView, card_id: Seq<char>, candidates: Seq<TagView>, n: nat)
    requires
        m.wf(),
        n <= candidates.len(),
        all_linked(m, card_id, names_of(candidates), candidates.len()),
        none_stale(m, card_id, names_of(candidates)),
    ensures
        synced_upto(m, card_id, candidates, n) == (
            m,
            listed_upto(m.tags, names_of(candidates), n),
            true,
        ),
    decreases n,
{
    let names = names_of(candidates);
    if n == 0 {
        lemma_filter_all(m.card_tags, still_named(m, card_id, names));
    } else {
        lemma_sync_settled(m, card_id, candidates, (n - 1) as nat);
        let x = candidates[n - 1].name;
        assert(names[n - 1] == x);
        assert(has_name(m.tags, names[n - 1]));
        let k = lemma_has_name(m.tags, x);
    }
}

/// Bringing a card's tags in line with the same names a second time
/// changes nothing and returns the same tags, whatever identifiers the
/// second round offers.
pub proof fn lemma_sync_idempotent(
    s: StoreView,
    card_id: Seq<char>,
    candidates: Seq<TagView>,
    again: Seq<TagView>,
)
    requires
        s.wf(),
        names_of(again) == names_of(candidates),
        sync_outcome(s, card_id, candidates).1 is Ok,
    ensures
        sync_outcome(sync_outcome(s, card_id, candidates).0, card_id, again) == sync_outcome(
            s,
            card_id,
            candidates,
        ),
{
    let names = names_of(candidates);
    let (m, listed, ok) = synced_upto(s, card_id, candidates, candidates.len());
    lemma_sync_steps(s, card_id, candidates, candidates.len());
    assert(names_of(again).len() == again.len());
    assert(names.len() == candidates.len());
    lemma_sync_settled(m, card_id, again, again.len());
}

} // verus!
