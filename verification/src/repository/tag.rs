//! Tags: the hashtags that the content of cards names, and the links that
//! say which card names which tag.

use vstd::prelude::*;
use vstd::string::StringExecFns;
use crate::db::{unique_links, unique_names, Store, StoreView};
use crate::error::{database, duplicate_id, outcome, outcome_rows, ErrorView, JotDeckError};
use crate::ident::new_id;
use crate::listing::{
    copies, kept, key_view, key_views, lemma_masked_is_filter, lemma_masked_pair, list_by,
    listed_by_text,
};
use crate::models::{
    views, Card, CardTag, CardTagView, CardView, Column, ColumnView, Tag, TagView,
};
use crate::sibling::{find_row, has_key, lemma_push_keeps_keys, lookup};
use crate::text::has_prefix;

verus! {

#[verifier::external_type_specification]
#[verifier::external_body]
pub struct ExRegexError(regex::Error);

/// Whether the regular expression `pattern` matches somewhere in `text`, as
/// the regex crate decides it; none where the crate rejects the pattern.
pub uninterp spec fn regex_is_match(pattern: Seq<char>, text: Seq<char>) -> Option<bool>;

/// `regex::Regex::new` on the pattern, then `Regex::is_match` on the text.
/// The contract names the result and states nothing else of it.
#[verifier::external_body]
fn pattern_matches(pattern: &str, text: &str) -> (r: Result<bool, regex::Error>)
    ensures
        match r {
            Ok(b) => regex_is_match(pattern@, text@) == Some(b),
            Err(_) => regex_is_match(pattern@, text@) is None,
        },
{
    regex::Regex::new(pattern).map(|re| re.is_match(text))
}

/// The shape of a tag: a `#`, then one or more word characters, among them
/// letters, digits, the underscore, hiragana, katakana and the common
/// ideographs.
pub const TAG_PATTERN: &'static str = r"#([\w\u3040-\u309f\u30a0-\u30ff\u4e00-\u9faf]+)";

/// Whether `c` is a character that a tag's name is made of: whether `#`
/// followed by `c` has the shape of a tag.
pub open spec fn tag_char(c: char) -> bool {
    regex_is_match(TAG_PATTERN@, seq!['#', c]) == Some(true)
}

/// Whether the marks say of place `i` that a tag character stands there.
/// A place that the marks do not reach holds none.
pub open spec fn marked(word: Seq<bool>, i: int) -> bool {
    0 <= i < word.len() && word[i]
}

/// The number of marked places from `from` onwards without a break, up to
/// the place `limit`.
pub open spec fn run_len(word: Seq<bool>, from: int, limit: int) -> nat
    decreases limit - from,
{
    if from < limit && marked(word, from) {
        1 + run_len(word, from + 1, limit)
    } else {
        0
    }
}

/// The names of the tags in `s` from `from` onwards, from left to right,
/// where `word` marks the places of the tag characters: for each `#` that a
/// tag character follows, the longest run of tag characters behind it. A
/// name that occurs twice is listed twice.
pub open spec fn tags_from(s: Seq<char>, word: Seq<bool>, from: int) -> Seq<Seq<char>>
    decreases s.len() - from,
    via tags_from_decreases
{
    if from < 0 || from >= s.len() {
        Seq::empty()
    } else if s[from] == '#' && run_len(word, from + 1, s.len() as int) > 0 {
        let end = from + 1 + run_len(word, from + 1, s.len() as int);
        seq![s.subrange(from + 1, end)] + tags_from(s, word, end)
    } else {
        tags_from(s, word, from + 1)
    }
}

#[via_fn]
proof fn tags_from_decreases(s: Seq<char>, word: Seq<bool>, from: int) {
    if 0 <= from < s.len() {
        lemma_run_len_bound(word, from + 1, s.len() as int);
    }
}

/// The names of the tags in a text whose tag characters are marked.
pub open spec fn tags_marked(s: Seq<char>, word: Seq<bool>) -> Seq<Seq<char>> {
    tags_from(s, word, 0)
}

/// The marks of a text: for each place, whether a tag character stands
/// there.
pub open spec fn marks_of(s: Seq<char>) -> Seq<bool> {
    s.map_values(|c: char| tag_char(c))
}

/// The names of the tags in a text.
pub open spec fn tags_in(s: Seq<char>) -> Seq<Seq<char>> {
    tags_marked(s, marks_of(s))
}

proof fn lemma_run_len_bound(word: Seq<bool>, from: int, limit: int)
    requires
        from <= limit,
    ensures
        from + run_len(word, from, limit) <= limit,
    decreases limit - from,
{
    if from < limit && marked(word, from) {
        lemma_run_len_bound(word, from + 1, limit);
    }
}

/// The places that a run counts are marked.
proof fn lemma_run_is_marked(word: Seq<bool>, from: int, limit: int)
    ensures
        forall|i: int| from <= i < from + run_len(word, from, limit) ==> #[trigger] marked(word, i),
    decreases limit - from,
{
    if from < limit && marked(word, from) {
        lemma_run_is_marked(word, from + 1, limit);
    }
}

/// Every name found in a text is a run of one or more tag characters.
pub proof fn lemma_tags_are_words(s: Seq<char>, from: int)
    requires
        0 <= from,
    ensures
        forall|t: int|
            0 <= t < tags_from(s, marks_of(s), from).len() ==> (#[trigger] tags_from(
                s,
                marks_of(s),
                from,
            )[t]).len() > 0 && forall|i: int|
                0 <= i < tags_from(s, marks_of(s), from)[t].len() ==> tag_char(
                    #[trigger] tags_from(s, marks_of(s), from)[t][i],
                ),
    decreases s.len() - from,
{
    let word = marks_of(s);
    if from < s.len() {
        if s[from] == '#' && run_len(word, from + 1, s.len() as int) > 0 {
            lemma_run_len_bound(word, from + 1, s.len() as int);
            lemma_run_is_marked(word, from + 1, s.len() as int);
            let end = from + 1 + run_len(word, from + 1, s.len() as int);
            let name = s.subrange(from + 1, end);
            lemma_tags_are_words(s, end);
            assert forall|t: int| 0 <= t < tags_from(s, word, from).len() implies (
            #[trigger] tags_from(s, word, from)[t]).len() > 0 && forall|i: int|
                0 <= i < tags_from(s, word, from)[t].len() ==> tag_char(
                    #[trigger] tags_from(s, word, from)[t][i],
                ) by {
                if t == 0 {
                    assert(tags_from(s, word, from)[t] == name);
                    assert forall|i: int| 0 <= i < name.len() implies tag_char(
                        #[trigger] name[i],
                    ) by {
                        assert(name[i] == s[from + 1 + i]);
                        assert(marked(word, from + 1 + i));
                    }
                } else {
                    assert(tags_from(s, word, from)[t] == tags_from(s, word, end)[t - 1]);
                }
            }
        } else {
            lemma_tags_are_words(s, from + 1);
            assert(tags_from(s, word, from) == tags_from(s, word, from + 1));
        }
    }
}

/// The names of the tags in a text whose tag characters are marked: `word`
/// says of each place of `content` whether a tag character stands there.
pub fn split_tags(content: &str, word: &Vec<bool>) -> (names: Vec<String>)
    ensures
        views(names@) == tags_marked(content@, word@),
{
    let n = content.unicode_len();
    let mut names: Vec<String> = Vec::new();
    let mut i: usize = 0;
    assert(views(names@) + tags_from(content@, word@, 0) =~= tags_marked(content@, word@));
    while i < n
        invariant
            n == content@.len(),
            i <= n,
            views(names@) + tags_from(content@, word@, i as int) == tags_marked(content@, word@),
        decreases n - i,
    {
        if content.get_char(i) == '#' {
            let mut j: usize = i + 1;
            while j < n && j < word.len() && word[j]
                invariant
                    n == content@.len(),
                    i < j <= n,
                    run_len(word@, i + 1, n as int) == (j - (i + 1)) + run_len(
                        word@,
                        j as int,
                        n as int,
                    ),
                decreases n - j,
            {
                j += 1;
            }
            if j > i + 1 {
                let ghost before = views(names@);
                names.push(String::from_str(content.substring_char(i + 1, j)));
                proof {
                    assert(views(names@) =~= before.push(content@.subrange(i + 1, j as int)));
                    assert(views(names@) + tags_from(content@, word@, j as int) =~= before
                        + tags_from(content@, word@, i as int));
                }
                i = j;
            } else {
                i += 1;
            }
        } else {
            i += 1;
        }
    }
    assert(views(names@) + tags_from(content@, word@, n as int) =~= views(names@));
    names
}

/// Whether the character at place `i` of `content` is a tag character.
fn is_tag_char(content: &str, i: usize) -> (r: bool)
    requires
        i < content@.len(),
    ensures
        r == tag_char(content@[i as int]),
{
    let n = content.unicode_len();
    let probe = String::from_str("#").concat(content.substring_char(i, i + 1));
    proof {
        reveal_strlit("#");
        assert(probe@ =~= seq!['#', content@[i as int]]);
    }
    match pattern_matches(TAG_PATTERN, probe.as_str()) {
        Ok(b) => b,
        Err(_) => false,
    }
}

/// Whether the marks agree at every place that stands behind a `#` or
/// behind a place that `some` marks: the places that the search for tags
/// looks at.
pub open spec fn agree_where_read(s: Seq<char>, some: Seq<bool>, all: Seq<bool>) -> bool {
    &&& some.len() == s.len()
    &&& all.len() == s.len()
    &&& forall|i: int|
        1 <= i < s.len() && (s[i - 1] == '#' || some[i - 1]) ==> #[trigger] some[i] == all[i]
}

/// Marks that agree where the search looks count the same runs behind a
/// `#` and behind a marked place.
proof fn lemma_same_runs(s: Seq<char>, some: Seq<bool>, all: Seq<bool>, from: int)
    requires
        agree_where_read(s, some, all),
        1 <= from <= s.len(),
        s[from - 1] == '#' || some[from - 1],
    ensures
        run_len(some, from, s.len() as int) == run_len(all, from, s.len() as int),
    decreases s.len() - from,
{
    if from < s.len() {
        assert(some[from] == all[from]);
        if some[from] {
            lemma_same_runs(s, some, all, from + 1);
        }
    }
}

/// Marks that agree where the search looks give the same tags.
proof fn lemma_same_tags(s: Seq<char>, some: Seq<bool>, all: Seq<bool>, from: int)
    requires
        agree_where_read(s, some, all),
        0 <= from,
    ensures
        tags_from(s, some, from) == tags_from(s, all, from),
    decreases s.len() - from,
{
    if from < s.len() {
        if s[from] == '#' {
            lemma_same_runs(s, some, all, from + 1);
            lemma_run_len_bound(some, from + 1, s.len() as int);
        }
        if s[from] == '#' && run_len(some, from + 1, s.len() as int) > 0 {
            lemma_same_tags(s, some, all, from + 1 + run_len(some, from + 1, s.len() as int));
        } else {
            lemma_same_tags(s, some, all, from + 1);
        }
    }
}

/// The names of the tags in a text, from left to right.
pub fn extract_tags(content: &str) -> (names: Vec<String>)
    ensures
        views(names@) == tags_in(content@),
{
    // A character is put to the test only where a tag's name may go on:
    // behind a `#` and behind a tag character.
    let n = content.unicode_len();
    let mut word: Vec<bool> = Vec::new();
    let mut behind_hash = false;
    let mut i: usize = 0;
    while i < n
        invariant
            n == content@.len(),
            i <= n,
            word.len() == i,
            i > 0 ==> behind_hash == (content@[i - 1] == '#'),
            i == 0 ==> !behind_hash,
            forall|j: int|
                1 <= j < i && (content@[j - 1] == '#' || word[j - 1]) ==> #[trigger] word[j]
                    == marks_of(content@)[j],
        decreases n - i,
    {
        let read = behind_hash || (i > 0 && word[i - 1]);
        let mark = if read {
            is_tag_char(content, i)
        } else {
            false
        };
        behind_hash = content.get_char(i) == '#';
        word.push(mark);
        i += 1;
    }
    proof {
        assert(agree_where_read(content@, word@, marks_of(content@)));
        lemma_same_tags(content@, word@, marks_of(content@), 0);
    }
    split_tags(content, &word)
}

/// Whether some tag carries `name`.
pub open spec fn has_name(tags: Seq<TagView>, name: Seq<char>) -> bool {
    exists|j: int| 0 <= j < tags.len() && (#[trigger] tags[j]).name == name
}

/// The place of the tag that carries `name`, if there is one.
pub open spec fn tag_named(tags: Seq<TagView>, name: Seq<char>) -> Option<int> {
    if has_name(tags, name) {
        Some(choose|j: int| 0 <= j < tags.len() && (#[trigger] tags[j]).name == name)
    } else {
        None
    }
}

/// Where no name occurs twice, the tag found under a name is the one that
/// `tag_named` gives.
pub proof fn lemma_tag_named(tags: Seq<TagView>, name: Seq<char>, j: int)
    requires
        unique_names(tags),
        0 <= j < tags.len(),
        tags[j].name == name,
    ensures
        tag_named(tags, name) == Some(j),
{
    let c = choose|c: int| 0 <= c < tags.len() && (#[trigger] tags[c]).name == name;
    if c < j {
        assert(tags[c].name != tags[j].name);
    }
    if j < c {
        assert(tags[j].name != tags[c].name);
    }
}

/// Finds the tag that carries `name`.
pub fn find_tag_named(tags: &Vec<Tag>, name: &str) -> (r: Option<usize>)
    requires
        unique_names(views(tags@)),
    ensures
        match r {
            Some(j) => j < tags.len() && tag_named(views(tags@), name@) == Some(j as int),
            None => tag_named(views(tags@), name@) is None,
        },
{
    let wanted = String::from_str(name);
    let mut i: usize = 0;
    while i < tags.len()
        invariant
            i <= tags.len(),
            wanted@ == name@,
            unique_names(views(tags@)),
            forall|j: int| 0 <= j < i ==> (#[trigger] views(tags@)[j]).name != name@,
        decreases tags.len() - i,
    {
        proof {
            assert(views(tags@)[i as int] == tags[i as int]@);
        }
        if tags[i].name == wanted {
            proof {
                lemma_tag_named(views(tags@), name@, i as int);
            }
            return Some(i);
        }
        i += 1;
    }
    None
}

/// The link between a card and a tag.
pub open spec fn link(card_id: Seq<char>, tag_id: Seq<char>) -> CardTagView {
    CardTagView { card_id: card_id, tag_id: tag_id }
}

/// Whether the card is linked to the tag.
pub fn is_linked(links: &Vec<CardTag>, card_id: &str, tag_id: &str) -> (r: bool)
    ensures
        r == views(links@).contains(link(card_id@, tag_id@)),
{
    let card = String::from_str(card_id);
    let tag = String::from_str(tag_id);
    let mut i: usize = 0;
    while i < links.len()
        invariant
            i <= links.len(),
            card@ == card_id@,
            tag@ == tag_id@,
            forall|j: int| 0 <= j < i ==> #[trigger] views(links@)[j] != link(card_id@, tag_id@),
        decreases links.len() - i,
    {
        proof {
            assert(views(links@)[i as int] == links[i as int]@);
        }
        if links[i].card_id == card && links[i].tag_id == tag {
            return true;
        }
        i += 1;
    }
    false
}

/// What `get_or_create_with` leaves and returns: the tag that carries the
/// name, made with the given identifier where there was none.
pub open spec fn get_or_create_outcome(s: StoreView, name: Seq<char>, id: Seq<char>) -> (
    StoreView,
    Result<TagView, ErrorView>,
) {
    match tag_named(s.tags, name) {
        Some(j) => (s, Ok(s.tags[j])),
        None => if has_key::<Tag>(s.tags, id) {
            (s, Err(duplicate_id()))
        } else {
            let tag = TagView { id: id, name: name };
            (StoreView { tags: s.tags.push(tag), ..s }, Ok(tag))
        },
    }
}

/// Adding a tag whose name no tag carries keeps the names different.
pub proof fn lemma_push_keeps_names(tags: Seq<TagView>, tag: TagView)
    requires
        unique_names(tags),
        !has_name(tags, tag.name),
    ensures
        unique_names(tags.push(tag)),
{
    let after = tags.push(tag);
    assert forall|i: int, j: int| 0 <= i < j < after.len() implies (#[trigger] after[i]).name != (
    #[trigger] after[j]).name by {
        if j < tags.len() {
            assert(tags[i].name != tags[j].name);
        } else {
            assert(tags[i].name != tag.name);
        }
    }
}

/// The tag that carries `name`; where there is none, one is made with the
/// given identifier.
pub fn get_or_create_with(store: &mut Store, name: &str, id: String) -> (r: Result<
    Tag,
    JotDeckError,
>)
    requires
        old(store).wf(),
    ensures
        final(store).wf(),
        (final(store)@, outcome(r)) == get_or_create_outcome(old(store)@, name@, id@),
{
    match find_tag_named(&store.tags, name) {
        Some(j) => {
            assert(store@.tags[j as int] == store.tags[j as int]@);
            return Ok(store.tags[j].clone());
        },
        None => {},
    }
    if find_row(&store.tags, id.as_str()).is_some() {
        return Err(database("UNIQUE constraint failed: id"));
    }
    let tag = Tag { id: id, name: String::from_str(name) };
    let made = tag.clone();
    store.tags.push(tag);
    proof {
        assert(store@.tags =~= old(store)@.tags.push(made@));
        lemma_push_keeps_keys::<Tag>(old(store)@.tags, made@);
        lemma_push_keeps_names(old(store)@.tags, made@);
    }
    Ok(made)
}

/// The tag that carries `name`; where there is none, one is made.
pub fn get_or_create(store: &mut Store, name: &str) -> (r: Result<Tag, JotDeckError>)
    requires
        old(store).wf(),
    ensures
        final(store).wf(),
        exists|id: Seq<char>|
            (final(store)@, outcome(r)) == get_or_create_outcome(old(store)@, name@, id),
{
    let id = new_id();
    let ghost given = id@;
    let r = get_or_create_with(store, name, id);
    assert((store@, outcome(r)) == get_or_create_outcome(old(store)@, name@, given));
    r
}

/// The links after a card is linked to a tag: a link that is there stays
/// the only one.
pub open spec fn associated(links: Seq<CardTagView>, card_id: Seq<char>, tag_id: Seq<char>) -> Seq<
    CardTagView,
> {
    if links.contains(link(card_id, tag_id)) {
        links
    } else {
        links.push(link(card_id, tag_id))
    }
}

pub proof fn lemma_associated_unique(
    links: Seq<CardTagView>,
    card_id: Seq<char>,
    tag_id: Seq<char>,
)
    requires
        unique_links(links),
    ensures
        unique_links(associated(links, card_id, tag_id)),
{
    let after = associated(links, card_id, tag_id);
    if !links.contains(link(card_id, tag_id)) {
        assert forall|i: int, j: int| 0 <= i < j < after.len() implies #[trigger] after[i]
            != #[trigger] after[j] by {
            if j < links.len() {
                assert(links[i] != links[j]);
            } else {
                assert(links.contains(links[i]));
            }
        }
    }
}

/// Links a card to a tag.
pub fn associate_tag(store: &mut Store, card_id: &str, tag_id: &str) -> (r: Result<
    (),
    JotDeckError,
>)
    requires
        old(store).wf(),
    ensures
        final(store).wf(),
        r is Ok,
        final(store)@ == (StoreView {
            card_tags: associated(old(store)@.card_tags, card_id@, tag_id@),
            ..old(store)@
        }),
{
    if !is_linked(&store.card_tags, card_id, tag_id) {
        store.card_tags.push(
            CardTag { card_id: String::from_str(card_id), tag_id: String::from_str(tag_id) },
        );
        assert(store@.card_tags =~= old(store)@.card_tags.push(link(card_id@, tag_id@)));
    }
    proof {
        lemma_associated_unique(old(store)@.card_tags, card_id@, tag_id@);
    }
    Ok(())
}

/// Whether a link is another one than the link between the card and the
/// tag.
pub open spec fn other_link(card_id: Seq<char>, tag_id: Seq<char>) -> spec_fn(CardTagView) -> bool {
    |l: CardTagView| l != link(card_id, tag_id)
}

/// Whether a link is of another card.
pub open spec fn of_other_card(card_id: Seq<char>) -> spec_fn(CardTagView) -> bool {
    |l: CardTagView| l.card_id != card_id
}

/// Keeping some of the links keeps them different.
pub proof fn lemma_masked_keeps_links(links: Seq<CardTagView>, keep: Seq<bool>)
    requires
        keep.len() == links.len(),
        unique_links(links),
    ensures
        unique_links(crate::listing::masked(links, keep)),
{
    let after = crate::listing::masked(links, keep);
    assert forall|i: int, j: int| 0 <= i < j < after.len() implies #[trigger] after[i]
        != #[trigger] after[j] by {
        let (a, b) = lemma_masked_pair(links, keep, i, j);
        assert(links[a] != links[b]);
    }
}

/// Keeping some of the tags keeps their names different.
pub proof fn lemma_masked_keeps_names(tags: Seq<TagView>, keep: Seq<bool>)
    requires
        keep.len() == tags.len(),
        unique_names(tags),
    ensures
        unique_names(crate::listing::masked(tags, keep)),
{
    let after = crate::listing::masked(tags, keep);
    assert forall|i: int, j: int| 0 <= i < j < after.len() implies (#[trigger] after[i]).name != (
    #[trigger] after[j]).name by {
        let (a, b) = lemma_masked_pair(tags, keep, i, j);
        assert(tags[a].name != tags[b].name);
    }
}

/// Removes the link between a card and a tag.
pub fn disassociate_tag(store: &mut Store, card_id: &str, tag_id: &str) -> (r: Result<
    (),
    JotDeckError,
>)
    requires
        old(store).wf(),
    ensures
        final(store).wf(),
        r is Ok,
        final(store)@ == (StoreView {
            card_tags: old(store)@.card_tags.filter(other_link(card_id@, tag_id@)),
            ..old(store)@
        }),
{
    let card = String::from_str(card_id);
    let tag = String::from_str(tag_id);
    let mut keep: Vec<bool> = Vec::new();
    let mut i: usize = 0;
    while i < store.card_tags.len()
        invariant
            i <= store.card_tags.len(),
            card@ == card_id@,
            tag@ == tag_id@,
            keep.len() == i,
            forall|j: int|
                0 <= j < i ==> #[trigger] keep[j] == other_link(card_id@, tag_id@)(
                    store@.card_tags[j],
                ),
        decreases store.card_tags.len() - i,
    {
        proof {
            assert(store@.card_tags[i as int] == store.card_tags[i as int]@);
        }
        keep.push(!(store.card_tags[i].card_id == card && store.card_tags[i].tag_id == tag));
        i += 1;
    }
    let links = kept(&store.card_tags, &keep);
    proof {
        lemma_masked_is_filter(store@.card_tags, keep@, other_link(card_id@, tag_id@));
        lemma_masked_keeps_links(store@.card_tags, keep@);
    }
    store.card_tags = links;
    Ok(())
}

/// Removes every link of a card.
pub fn clear_card_tags(store: &mut Store, card_id: &str) -> (r: Result<(), JotDeckError>)
    requires
        old(store).wf(),
    ensures
        final(store).wf(),
        r is Ok,
        final(store)@ == (StoreView {
            card_tags: old(store)@.card_tags.filter(of_other_card(card_id@)),
            ..old(store)@
        }),
{
    let card = String::from_str(card_id);
    let mut keep: Vec<bool> = Vec::new();
    let mut i: usize = 0;
    while i < store.card_tags.len()
        invariant
            i <= store.card_tags.len(),
            card@ == card_id@,
            keep.len() == i,
            forall|j: int|
                0 <= j < i ==> #[trigger] keep[j] == of_other_card(card_id@)(store@.card_tags[j]),
        decreases store.card_tags.len() - i,
    {
        proof {
            assert(store@.card_tags[i as int] == store.card_tags[i as int]@);
        }
        keep.push(!(store.card_tags[i].card_id == card));
        i += 1;
    }
    let links = kept(&store.card_tags, &keep);
    proof {
        lemma_masked_is_filter(store@.card_tags, keep@, of_other_card(card_id@));
        lemma_masked_keeps_links(store@.card_tags, keep@);
    }
    store.card_tags = links;
    Ok(())
}


/// The most suggestions that a search for tags returns.
pub const SUGGESTION_LIMIT: usize = 10;

/// Whether a card shows in a deck: it is active, and so is its column, which
/// belongs to the deck.
pub open spec fn card_visible(columns: Seq<ColumnView>, c: CardView, deck_id: Seq<char>) -> bool {
    c.deleted_at is None && match lookup::<Column>(columns, c.column_id) {
        Some(j) => columns[j].deck_id == deck_id && columns[j].deleted_at is None,
        None => false,
    }
}

/// Whether the card that carries `card_id` shows in a deck.
pub open spec fn shown_in_deck(s: StoreView, card_id: Seq<char>, deck_id: Seq<char>) -> bool {
    match lookup::<Card>(s.cards, card_id) {
        Some(i) => card_visible(s.columns, s.cards[i], deck_id),
        None => false,
    }
}

/// Whether a card that shows in the deck is linked to the tag.
pub open spec fn used_in_deck(s: StoreView, tag_id: Seq<char>, deck_id: Seq<char>) -> bool {
    exists|l: int|
        0 <= l < s.card_tags.len() && (#[trigger] s.card_tags[l]).tag_id == tag_id
            && shown_in_deck(s, s.card_tags[l].card_id, deck_id)
}

/// The name of a tag that the card is linked to.
pub open spec fn named_by_card(links: Seq<CardTagView>, card_id: Seq<char>) -> spec_fn(
    TagView,
) -> Option<Seq<char>> {
    |t: TagView|
        if links.contains(link(card_id, t.id)) {
            Some(t.name)
        } else {
            None
        }
}

/// The name of a tag that is used in the deck.
pub open spec fn named_in_deck(s: StoreView, deck_id: Seq<char>) -> spec_fn(TagView) -> Option<
    Seq<char>,
> {
    |t: TagView|
        if used_in_deck(s, t.id, deck_id) {
            Some(t.name)
        } else {
            None
        }
}

/// The name of a tag that is used in the deck and begins with `prefix`.
pub open spec fn suggested_in_deck(s: StoreView, deck_id: Seq<char>, prefix: Seq<char>) -> spec_fn(
    TagView,
) -> Option<Seq<char>> {
    |t: TagView|
        if used_in_deck(s, t.id, deck_id) && prefix.is_prefix_of(t.name) {
            Some(t.name)
        } else {
            None
        }
}

/// Whether a card shows in the deck and is linked to the tag that carries
/// `tag_name`.
pub open spec fn tagged_in_deck(s: StoreView, deck_id: Seq<char>, tag_name: Seq<char>) -> spec_fn(
    CardView,
) -> bool {
    |c: CardView|
        card_visible(s.columns, c, deck_id) && match tag_named(s.tags, tag_name) {
            Some(t) => s.card_tags.contains(link(c.id, s.tags[t].id)),
            None => false,
        }
}

/// The tags that a card is linked to, in the order of their names.
pub fn get_tags_by_card(store: &Store, card_id: &str) -> (r: Result<Vec<Tag>, JotDeckError>)
    ensures
        r is Ok,
        views(r.unwrap()@) == listed_by_text(
            store@.tags,
            named_by_card(store@.card_tags, card_id@),
        ),
{
    let mut keys: Vec<Option<String>> = Vec::new();
    let mut i: usize = 0;
    while i < store.tags.len()
        invariant
            i <= store.tags.len(),
            keys.len() == i,
            forall|j: int|
                0 <= j < i ==> key_view(#[trigger] keys[j]) == named_by_card(
                    store@.card_tags,
                    card_id@,
                )(store@.tags[j]),
        decreases store.tags.len() - i,
    {
        proof {
            assert(store@.tags[i as int] == store.tags[i as int]@);
        }
        let key = if is_linked(&store.card_tags, card_id, store.tags[i].id.as_str()) {
            Some(store.tags[i].name.clone())
        } else {
            None
        };
        keys.push(key);
        i += 1;
    }
    assert(key_views(keys@) =~= store@.tags.map_values(
        named_by_card(store@.card_tags, card_id@),
    ));
    Ok(list_by(&store.tags, &keys, false))
}

/// Whether a card shows in a deck.
fn is_card_visible(store: &Store, card: &Card, deck_id: &String) -> (r: bool)
    ensures
        r == card_visible(store@.columns, card@, deck_id@),
{
    if card.deleted_at.is_some() {
        return false;
    }
    match find_row(&store.columns, card.column_id.as_str()) {
        Some(j) => {
            assert(store@.columns[j as int] == store.columns[j as int]@);
            store.columns[j].deck_id == *deck_id && store.columns[j].deleted_at.is_none()
        },
        None => false,
    }
}

/// Whether a card that shows in the deck is linked to the tag.
fn is_used_in_deck(store: &Store, tag_id: &String, deck_id: &String) -> (r: bool)
    ensures
        r == used_in_deck(store@, tag_id@, deck_id@),
{
    let mut l: usize = 0;
    while l < store.card_tags.len()
        invariant
            l <= store.card_tags.len(),
            forall|m: int|
                0 <= m < l ==> !((#[trigger] store@.card_tags[m]).tag_id == tag_id@
                    && shown_in_deck(store@, store@.card_tags[m].card_id, deck_id@)),
        decreases store.card_tags.len() - l,
    {
        proof {
            assert(store@.card_tags[l as int] == store.card_tags[l as int]@);
        }
        if store.card_tags[l].tag_id == *tag_id {
            let shown = match find_row(&store.cards, store.card_tags[l].card_id.as_str()) {
                Some(i) => {
                    assert(store@.cards[i as int] == store.cards[i as int]@);
                    is_card_visible(store, &store.cards[i], deck_id)
                },
                None => false,
            };
            if shown {
                return true;
            }
        }
        l += 1;
    }
    false
}

/// The tags that the cards shown in a deck are linked to, in the order of
/// their names.
pub fn get_tags_by_deck(store: &Store, deck_id: &str) -> (r: Result<Vec<Tag>, JotDeckError>)
    ensures
        r is Ok,
        views(r.unwrap()@) == listed_by_text(store@.tags, named_in_deck(store@, deck_id@)),
{
    let deck = String::from_str(deck_id);
    let mut keys: Vec<Option<String>> = Vec::new();
    let mut i: usize = 0;
    while i < store.tags.len()
        invariant
            i <= store.tags.len(),
            deck@ == deck_id@,
            keys.len() == i,
            forall|j: int|
                0 <= j < i ==> key_view(#[trigger] keys[j]) == named_in_deck(store@, deck_id@)(
                    store@.tags[j],
                ),
        decreases store.tags.len() - i,
    {
        proof {
            assert(store@.tags[i as int] == store.tags[i as int]@);
        }
        let key = if is_used_in_deck(store, &store.tags[i].id, &deck) {
            Some(store.tags[i].name.clone())
        } else {
            None
        };
        keys.push(key);
        i += 1;
    }
    assert(key_views(keys@) =~= store@.tags.map_values(named_in_deck(store@, deck_id@)));
    Ok(list_by(&store.tags, &keys, false))
}

/// The identifiers of the cards that show in a deck and are linked to the
/// tag that carries `tag_name`, in the order of the table of cards.
pub fn get_cards_by_tag(store: &Store, deck_id: &str, tag_name: &str) -> (r: Result<
    Vec<String>,
    JotDeckError,
>)
    requires
        store.wf(),
    ensures
        r is Ok,
        views(r.unwrap()@) == store@.cards.filter(
            tagged_in_deck(store@, deck_id@, tag_name@),
        ).map_values(|c: CardView| c.id),
{
    let deck = String::from_str(deck_id);
    let tag = find_tag_named(&store.tags, tag_name);
    let mut keep: Vec<bool> = Vec::new();
    let mut i: usize = 0;
    while i < store.cards.len()
        invariant
            i <= store.cards.len(),
            deck@ == deck_id@,
            keep.len() == i,
            match tag {
                Some(t) => t < store.tags.len() && tag_named(store@.tags, tag_name@) == Some(
                    t as int,
                ),
                None => tag_named(store@.tags, tag_name@) is None,
            },
            forall|j: int|
                0 <= j < i ==> #[trigger] keep[j] == tagged_in_deck(
                    store@,
                    deck_id@,
                    tag_name@,
                )(store@.cards[j]),
        decreases store.cards.len() - i,
    {
        proof {
            assert(store@.cards[i as int] == store.cards[i as int]@);
        }
        let tagged = match tag {
            Some(t) => {
                assert(store@.tags[t as int] == store.tags[t as int]@);
                is_card_visible(store, &store.cards[i], &deck) && is_linked(
                    &store.card_tags,
                    store.cards[i].id.as_str(),
                    store.tags[t].id.as_str(),
                )
            },
            None => false,
        };
        keep.push(tagged);
        i += 1;
    }
    let cards = kept(&store.cards, &keep);
    proof {
        lemma_masked_is_filter(
            store@.cards,
            keep@,
            tagged_in_deck(store@, deck_id@, tag_name@),
        );
    }
    let mut ids: Vec<String> = Vec::new();
    let mut j: usize = 0;
    while j < cards.len()
        invariant
            j <= cards.len(),
            ids.len() == j,
            forall|m: int| 0 <= m < j ==> (#[trigger] ids[m])@ == cards[m]@.id,
        decreases cards.len() - j,
    {
        ids.push(cards[j].id.clone());
        j += 1;
    }
    assert(views(ids@) =~= views(cards@).map_values(|c: CardView| c.id));
    Ok(ids)
}

/// The first of a sequence, up to `limit` of them.
pub open spec fn first_of<V>(rows: Seq<V>, limit: int) -> Seq<V> {
    if rows.len() <= limit {
        rows
    } else {
        rows.take(limit)
    }
}

/// The tags used in a deck whose names begin with `prefix`, in the order of
/// their names: the first ten of them.
pub fn get_tag_suggestions(store: &Store, deck_id: &str, prefix: &str) -> (r: Result<
    Vec<Tag>,
    JotDeckError,
>)
    ensures
        r is Ok,
        views(r.unwrap()@) == first_of(
            listed_by_text(store@.tags, suggested_in_deck(store@, deck_id@, prefix@)),
            SUGGESTION_LIMIT as int,
        ),
{
    let deck = String::from_str(deck_id);
    let mut keys: Vec<Option<String>> = Vec::new();
    let mut i: usize = 0;
    while i < store.tags.len()
        invariant
            i <= store.tags.len(),
            deck@ == deck_id@,
            keys.len() == i,
            forall|j: int|
                0 <= j < i ==> key_view(#[trigger] keys[j]) == suggested_in_deck(
                    store@,
                    deck_id@,
                    prefix@,
                )(store@.tags[j]),
        decreases store.tags.len() - i,
    {
        proof {
            assert(store@.tags[i as int] == store.tags[i as int]@);
        }
        let key = if has_prefix(store.tags[i].name.as_str(), prefix) && is_used_in_deck(
            store,
            &store.tags[i].id,
            &deck,
        ) {
            Some(store.tags[i].name.clone())
        } else {
            None
        };
        keys.push(key);
        i += 1;
    }
    assert(key_views(keys@) =~= store@.tags.map_values(
        suggested_in_deck(store@, deck_id@, prefix@),
    ));
    let mut found = list_by(&store.tags, &keys, false);
    let ghost all = views(found@);
    if found.len() > SUGGESTION_LIMIT {
        found.truncate(SUGGESTION_LIMIT);
        assert(views(found@) =~= all.take(SUGGESTION_LIMIT as int));
    }
    Ok(found)
}


/// The names that the candidates carry, one for one.
pub open spec fn names_of(candidates: Seq<TagView>) -> Seq<Seq<char>> {
    candidates.map_values(|t: TagView| t.name)
}

/// Whether the card is linked to the tag that carries `name`.
pub open spec fn is_current(s: StoreView, card_id: Seq<char>, name: Seq<char>) -> bool {
    match tag_named(s.tags, name) {
        Some(j) => s.card_tags.contains(link(card_id, s.tags[j].id)),
        None => false,
    }
}

/// Whether a link stays when a card's tags are brought in line with
/// `names`: it is of another card, or of no tag, or of a tag whose name is
/// among `names`.
pub open spec fn still_named(s: StoreView, card_id: Seq<char>, names: Seq<Seq<char>>) -> spec_fn(
    CardTagView,
) -> bool {
    |l: CardTagView|
        l.card_id != card_id || match lookup::<Tag>(s.tags, l.tag_id) {
            Some(j) => names.contains(s.tags[j].name),
            None => true,
        }
}

/// The store, the tags listed and whether all went well after the first `n`
/// candidates are seen to. First the card's links to tags that no candidate
/// names are removed. Then each candidate whose name was not seen before has
/// its tag fetched, or made with the candidate's identifier, and listed; the
/// card is linked to it unless it was linked to a tag of that name from the
/// start.
pub open spec fn synced_upto(
    s: StoreView,
    card_id: Seq<char>,
    candidates: Seq<TagView>,
    n: nat,
) -> (StoreView, Seq<TagView>, bool)
    decreases n,
{
    if n == 0 {
        (
            StoreView {
                card_tags: s.card_tags.filter(still_named(s, card_id, names_of(candidates))),
                ..s
            },
            Seq::empty(),
            true,
        )
    } else {
        let (mid, listed, ok) = synced_upto(s, card_id, candidates, (n - 1) as nat);
        let c = candidates[n - 1];
        if !ok {
            (mid, listed, false)
        } else if has_name(listed, c.name) {
            (mid, listed, true)
        } else {
            match get_or_create_outcome(mid, c.name, c.id) {
                (with_tag, Ok(tag)) => (
                    if is_current(s, card_id, c.name) {
                        with_tag
                    } else {
                        StoreView {
                            card_tags: associated(with_tag.card_tags, card_id, tag.id),
                            ..with_tag
                        }
                    },
                    listed.push(tag),
                    true,
                ),
                (_, Err(_)) => (mid, listed, false),
            }
        }
    }
}

/// What `sync_card_tags_with` leaves and returns: the card is linked to
/// the tags that the candidates name, and to no other tag; the tags are
/// returned, one for each name, in the order of the candidates. Where an
/// identifier for a new tag is taken, nothing changes.
pub open spec fn sync_outcome(s: StoreView, card_id: Seq<char>, candidates: Seq<TagView>) -> (
    StoreView,
    Result<Seq<TagView>, ErrorView>,
) {
    let (after, listed, ok) = synced_upto(s, card_id, candidates, candidates.len());
    if ok {
        (after, Ok(listed))
    } else {
        (s, Err(duplicate_id()))
    }
}

/// Whether some listed tag carries `name`.
fn lists_name(listed: &Vec<Tag>, name: &String) -> (r: bool)
    ensures
        r == has_name(views(listed@), name@),
{
    let mut i: usize = 0;
    while i < listed.len()
        invariant
            i <= listed.len(),
            forall|j: int| 0 <= j < i ==> (#[trigger] views(listed@)[j]).name != name@,
        decreases listed.len() - i,
    {
        proof {
            assert(views(listed@)[i as int] == listed[i as int]@);
        }
        if listed[i].name == *name {
            return true;
        }
        i += 1;
    }
    false
}

/// Whether some candidate carries `name`.
fn names_contain(candidates: &Vec<Tag>, name: &String) -> (r: bool)
    ensures
        r == names_of(views(candidates@)).contains(name@),
{
    let mut i: usize = 0;
    while i < candidates.len()
        invariant
            i <= candidates.len(),
            forall|j: int| 0 <= j < i ==> #[trigger] names_of(views(candidates@))[j] != name@,
        decreases candidates.len() - i,
    {
        proof {
            assert(names_of(views(candidates@))[i as int] == candidates[i as int]@.name);
        }
        if candidates[i].name == *name {
            return true;
        }
        i += 1;
    }
    false
}

/// Brings the links of a card in line with the candidates: the card ends up
/// linked to the tags that the candidates name, and to no other. A tag that
/// is not there yet is made with its candidate's identifier. The tags are
/// returned, one for each name.
pub fn sync_card_tags_with(store: &mut Store, card_id: &str, candidates: &Vec<Tag>) -> (r: Result<
    Vec<Tag>,
    JotDeckError,
>)
    requires
        old(store).wf(),
    ensures
        final(store).wf(),
        (final(store)@, outcome_rows(r)) == sync_outcome(
            old(store)@,
            card_id@,
            views(candidates@),
        ),
{
    let ghost s0 = old(store)@;
    let ghost cs = views(candidates@);
    let saved_tags = copies(&store.tags);
    let saved_links = copies(&store.card_tags);
    let card = String::from_str(card_id);
    // Which candidates name a tag that the card is linked to from the start.
    let mut current: Vec<bool> = Vec::new();
    let mut i: usize = 0;
    while i < candidates.len()
        invariant
            i <= candidates.len(),
            current.len() == i,
            store@ == s0,
            store.wf(),
            cs == views(candidates@),
            forall|j: int|
                0 <= j < i ==> #[trigger] current[j] == is_current(s0, card_id@, cs[j].name),
        decreases candidates.len() - i,
    {
        proof {
            assert(cs[i as int] == candidates[i as int]@);
        }
        let linked = match find_tag_named(&store.tags, candidates[i].name.as_str()) {
            Some(j) => {
                assert(store@.tags[j as int] == store.tags[j as int]@);
                is_linked(&store.card_tags, card_id, store.tags[j].id.as_str())
            },
            None => false,
        };
        current.push(linked);
        i += 1;
    }
    // The links that stay.
    let mut keep: Vec<bool> = Vec::new();
    let mut l: usize = 0;
    while l < store.card_tags.len()
        invariant
            l <= store.card_tags.len(),
            keep.len() == l,
            store@ == s0,
            card@ == card_id@,
            cs == views(candidates@),
            forall|m: int|
                0 <= m < l ==> #[trigger] keep[m] == still_named(s0, card_id@, names_of(cs))(
                    s0.card_tags[m],
                ),
        decreases store.card_tags.len() - l,
    {
        proof {
            assert(store@.card_tags[l as int] == store.card_tags[l as int]@);
        }
        let stays = if store.card_tags[l].card_id == card {
            match find_row(&store.tags, store.card_tags[l].tag_id.as_str()) {
                Some(j) => {
                    assert(store@.tags[j as int] == store.tags[j as int]@);
                    names_contain(candidates, &store.tags[j].name)
                },
                None => true,
            }
        } else {
            true
        };
        keep.push(stays);
        l += 1;
    }
    let links = kept(&store.card_tags, &keep);
    proof {
        lemma_masked_is_filter(s0.card_tags, keep@, still_named(s0, card_id@, names_of(cs)));
        lemma_masked_keeps_links(s0.card_tags, keep@);
    }
    store.card_tags = links;
    let mut listed: Vec<Tag> = Vec::new();
    let mut n: usize = 0;
    assert(views(listed@) =~= Seq::<TagView>::empty());
    while n < candidates.len()
        invariant
            n <= candidates.len(),
            store.wf(),
            cs == views(candidates@),
            current.len() == candidates.len(),
            forall|j: int|
                0 <= j < current.len() ==> #[trigger] current[j] == is_current(
                    s0,
                    card_id@,
                    cs[j].name,
                ),
            synced_upto(s0, card_id@, cs, n as nat) == (store@, views(listed@), true),
            views(saved_tags@) == s0.tags,
            views(saved_links@) == s0.card_tags,
            store@.decks == s0.decks,
            store@.columns == s0.columns,
            store@.cards == s0.cards,
            s0 == old(store)@,
            s0.wf(),
        decreases candidates.len() - n,
    {
        proof {
            assert(cs[n as int] == candidates[n as int]@);
        }
        if !lists_name(&listed, &candidates[n].name) {
            let ghost mid = store@;
            match get_or_create_with(store, candidates[n].name.as_str(), candidates[n].id.clone()) {
                Ok(tag) => {
                    if !current[n] {
                        let _ = associate_tag(store, card_id, tag.id.as_str());
                    }
                    let ghost before = views(listed@);
                    listed.push(tag);
                    assert(views(listed@) =~= before.push(tag@));
                },
                Err(e) => {
                    store.tags = saved_tags;
                    store.card_tags = saved_links;
                    proof {
                        let c = cs[n as int];
                        assert(get_or_create_outcome(mid, c.name, c.id).1 is Err);
                        assert(synced_upto(s0, card_id@, cs, (n + 1) as nat) == (
                            mid,
                            views(listed@),
                            false,
                        ));
                        lemma_sync_failed(s0, card_id@, cs, (n + 1) as nat, cs.len());
                        assert(store@ =~= s0);
                    }
                    return Err(e);
                },
            }
        }
        n += 1;
    }
    Ok(listed)
}

/// Once a candidate could not be seen to, the rest are not seen to.
proof fn lemma_sync_failed(
    s: StoreView,
    card_id: Seq<char>,
    candidates: Seq<TagView>,
    n: nat,
    m: nat,
)
    requires
        n <= m,
        !synced_upto(s, card_id, candidates, n).2,
    ensures
        !synced_upto(s, card_id, candidates, m).2,
    decreases m,
{
    if n < m {
        lemma_sync_failed(s, card_id, candidates, n, (m - 1) as nat);
    }
}

/// The candidates that pair each name with the identifier at its place.
pub open spec fn candidates_of(names: Seq<Seq<char>>, ids: Seq<Seq<char>>) -> Seq<TagView> {
    Seq::new(names.len(), |i: int| TagView { id: ids[i], name: names[i] })
}

/// Brings the links of a card in line with the tags that its content names.
pub fn sync_card_tags(store: &mut Store, card_id: &str, content: &str) -> (r: Result<
    Vec<Tag>,
    JotDeckError,
>)
    requires
        old(store).wf(),
    ensures
        final(store).wf(),
        exists|ids: Seq<Seq<char>>|
            ids.len() == tags_in(content@).len() && (final(store)@, outcome_rows(r))
                == sync_outcome(old(store)@, card_id@, candidates_of(tags_in(content@), ids)),
{
    let names = extract_tags(content);
    let mut candidates: Vec<Tag> = Vec::new();
    let mut i: usize = 0;
    while i < names.len()
        invariant
            i <= names.len(),
            candidates.len() == i,
            forall|j: int| 0 <= j < i ==> (#[trigger] candidates[j])@.name == names[j]@,
        decreases names.len() - i,
    {
        candidates.push(Tag { id: new_id(), name: names[i].clone() });
        i += 1;
    }
    let ghost ids = views(candidates@).map_values(|t: TagView| t.id);
    proof {
        assert(views(names@).len() == names.len());
        assert forall|j: int| 0 <= j < names.len() implies views(candidates@)[j] == candidates_of(
            tags_in(content@),
            ids,
        )[j] by {
            assert(views(names@)[j] == names[j]@);
            assert(views(candidates@)[j] == candidates[j]@);
        }
        assert(views(candidates@) =~= candidates_of(tags_in(content@), ids));
    }
    let r = sync_card_tags_with(store, card_id, &candidates);
    assert((store@, outcome_rows(r)) == sync_outcome(
        old(store)@,
        card_id@,
        candidates_of(tags_in(content@), ids),
    ));
    r
}

} // verus!
