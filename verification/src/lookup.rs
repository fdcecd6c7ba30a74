//! Following a path into a document.

use crate::index::{Index, IndexView, TomlIndex};
use crate::value::{distinct_keys, entry_views, item_views, Toml, TomlView};
use vstd::prelude::*;

verus! {

/// The value of the first entry with the given key, if there is one.
pub open spec fn value_under(entries: Seq<(Seq<char>, TomlView)>, key: Seq<char>) -> Option<
    TomlView,
>
    decreases entries.len(),
{
    if entries.len() == 0 {
        None
    } else if entries[0].0 == key {
        Some(entries[0].1)
    } else {
        value_under(entries.drop_first(), key)
    }
}

/// The value that one step selects: the element of an array at a position,
/// the value of a table under a key, and the empty value where there is no
/// such element or entry, or the value is of another kind.
pub open spec fn select(value: TomlView, step: IndexView) -> TomlView {
    match (step, value) {
        (IndexView::Int(position), TomlView::Array(items)) => if position < items.len() {
            items[position as int]
        } else {
            TomlView::empty()
        },
        (IndexView::Str(key), TomlView::Table(entries)) => match value_under(entries, key) {
            Some(found) => found,
            None => TomlView::empty(),
        },
        _ => TomlView::empty(),
    }
}

/// The value that a path selects in a document: the steps are taken one
/// after the other, each on what the one before selected.
pub open spec fn navigate(steps: Seq<IndexView>, document: TomlView) -> TomlView
    decreases steps.len(),
{
    if steps.len() == 0 {
        document
    } else {
        select(navigate(steps.drop_last(), document), steps.last())
    }
}

/// A copy of the element at a position of a value.
fn element(value: &Toml, position: usize) -> (r: Toml)
    ensures
        r@ == select(value@, IndexView::Int(position as nat)),
{
    match value {
        Toml::Array(items) => {
            if position < items.len() {
                assert(item_views(items@)[position as int] == items@[position as int]@);
                items[position].clone()
            } else {
                Toml::empty()
            }
        },
        _ => Toml::empty(),
    }
}

/// A copy of the value under a key of a value.
fn entry(value: &Toml, key: &String) -> (r: Toml)
    ensures
        r@ == select(value@, IndexView::Str(key@)),
{
    match value {
        Toml::Table(entries) => {
            let ghost all = entry_views(entries@);
            let mut i: usize = 0;
            assert(all.skip(0) =~= all);
            while i < entries.len()
                invariant
                    i <= entries.len(),
                    value@ == TomlView::Table(all),
                    all == entry_views(entries@),
                    value_under(all, key@) == value_under(all.skip(i as int), key@),
                decreases entries.len() - i,
            {
                assert(all.skip(i as int).drop_first() =~= all.skip(i + 1));
                if entries[i].0 == *key {
                    return entries[i].1.clone();
                }
                i = i + 1;
            }
            Toml::empty()
        },
        _ => Toml::empty(),
    }
}

/// Follows a path into a document and gives the value that it selects, as a
/// copy.
///
/// A step that finds nothing (no such key, no such position, a value of
/// another kind) selects the empty value, and so does every step after it.
pub fn lookup(index: TomlIndex, toml: Toml) -> (r: Toml)
    ensures
        r@ == navigate(index@, toml@),
        toml@.wf() ==> r@.wf(),
{
    proof {
        if toml@.wf() {
            lemma_navigate_wf(index@, toml@);
        }
    }
    let ghost steps = index@;
    let ghost document = toml@;
    let mut toml = toml;
    for item in it: index.0
        invariant
            steps == it.seq().map_values(|step: Index| step@),
            toml@ == navigate(steps.take(it.index() as int), document),
    {
        proof {
            assert(steps.take(it.index() + 1).drop_last() =~= steps.take(it.index() as int));
        }
        match item {
            Index::Int(position) => {
                toml = element(&toml, position);
            },
            Index::Str(key) => {
                toml = entry(&toml, &key);
            },
        }
    }
    proof {
        assert(steps.take(steps.len() as int) =~= steps);
    }
    toml
}

/// A key that no entry has selects nothing.
pub proof fn lemma_no_entry(entries: Seq<(Seq<char>, TomlView)>, key: Seq<char>)
    requires
        forall|i: int| 0 <= i < entries.len() ==> (#[trigger] entries[i]).0 != key,
    ensures
        value_under(entries, key) is None,
    decreases entries.len(),
{
    if entries.len() > 0 {
        lemma_no_entry(entries.drop_first(), key);
    }
}

/// The value under a key is that of the first entry with the key.
pub proof fn lemma_first_entry(entries: Seq<(Seq<char>, TomlView)>, key: Seq<char>, i: int)
    requires
        0 <= i < entries.len(),
        entries[i].0 == key,
        forall|j: int| 0 <= j < i ==> (#[trigger] entries[j]).0 != key,
    ensures
        value_under(entries, key) == Some(entries[i].1),
    decreases i,
{
    if i > 0 {
        lemma_first_entry(entries.drop_first(), key, i - 1);
    }
}

/// In a table where no key occurs twice, the value under a key is that of
/// the entry with the key, wherever it stands.
pub proof fn lemma_entry_found(entries: Seq<(Seq<char>, TomlView)>, i: int)
    requires
        distinct_keys(entries),
        0 <= i < entries.len(),
    ensures
        select(TomlView::Table(entries), IndexView::Str(entries[i].0)) == entries[i].1,
{
    lemma_first_entry(entries, entries[i].0, i);
}

/// A key that a table does not have selects the empty value, and so does a
/// position behind the end of an array, and any step on a value of another
/// kind.
pub proof fn lemma_miss_is_empty(value: TomlView, step: IndexView)
    requires
        match (step, value) {
            (IndexView::Int(position), TomlView::Array(items)) => position >= items.len(),
            (IndexView::Str(key), TomlView::Table(entries)) => forall|i: int|
                0 <= i < entries.len() ==> (#[trigger] entries[i]).0 != key,
            _ => true,
        },
    ensures
        select(value, step) == TomlView::empty(),
{
    match (step, value) {
        (IndexView::Str(key), TomlView::Table(entries)) => {
            lemma_no_entry(entries, key);
        },
        _ => {},
    }
}

/// The value under a key is the value of one of the entries.
proof fn lemma_value_under_is_entry(entries: Seq<(Seq<char>, TomlView)>, key: Seq<char>)
    requires
        value_under(entries, key) is Some,
    ensures
        exists|i: int|
            0 <= i < entries.len() && (#[trigger] entries[i]).1 == value_under(entries, key)->0,
    decreases entries.len(),
{
    if entries[0].0 != key {
        let rest = entries.drop_first();
        lemma_value_under_is_entry(rest, key);
        let i: int = choose|i: int|
            0 <= i < rest.len() && (#[trigger] rest[i]).1 == value_under(rest, key)->0;
        assert(entries[i + 1] == rest[i]);
    }
}

/// What a step selects in a value without a key that occurs twice has no
/// such key either.
pub proof fn lemma_select_wf(value: TomlView, step: IndexView)
    requires
        value.wf(),
    ensures
        select(value, step).wf(),
{
    if let (IndexView::Str(key), TomlView::Table(entries)) = (step, value) {
        if value_under(entries, key) is Some {
            lemma_value_under_is_entry(entries, key);
        }
    }
}

/// What a path selects in a document without a key that occurs twice has no
/// such key either.
pub proof fn lemma_navigate_wf(steps: Seq<IndexView>, document: TomlView)
    requires
        document.wf(),
    ensures
        navigate(steps, document).wf(),
    decreases steps.len(),
{
    if steps.len() > 0 {
        lemma_navigate_wf(steps.drop_last(), document);
        lemma_select_wf(navigate(steps.drop_last(), document), steps.last());
    }
}

/// A path of two parts selects what the second part selects in what the
/// first part selects.
pub proof fn lemma_navigate_in_parts(first: Seq<IndexView>, second: Seq<IndexView>, document: TomlView)
    ensures
        navigate(first + second, document) == navigate(second, navigate(first, document)),
    decreases second.len(),
{
    if second.len() == 0 {
        assert(first + second =~= first);
    } else {
        lemma_navigate_in_parts(first, second.drop_last(), document);
        assert((first + second).drop_last() =~= first + second.drop_last());
    }
}

} // verus!
