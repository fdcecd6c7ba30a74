//! The structured value that a TOML document is read into.

use vstd::prelude::*;

verus! {

/// A TOML value.
#[derive(Debug, PartialEq)]
pub enum Toml {
    /// A string.
    String(String),
    /// An integer of 64 bits.
    Integer(i64),
    /// A float of 64 bits, held by the bits of its IEEE 754 form.
    Float(u64),
    /// A boolean.
    Boolean(bool),
    /// A date, a time or both, held by its canonical text.
    Datetime(String),
    /// An array; its elements may be of different kinds.
    Array(Vec<Toml>),
    /// A table: its entries, each a key with its value, in the order in
    /// which the document's reader yields them. No key occurs twice: the
    /// list stands for a map from keys to values.
    Table(Vec<(String, Toml)>),
}

/// The mathematical model of a [`Toml`].
pub ghost enum TomlView {
    String(Seq<char>),
    Integer(int),
    Float(u64),
    Boolean(bool),
    Datetime(Seq<char>),
    Array(Seq<TomlView>),
    Table(Seq<(Seq<char>, TomlView)>),
}

/// The models of the values of a list.
pub open spec fn item_views(items: Seq<Toml>) -> Seq<TomlView>
    decreases items,
{
    Seq::new(
        items.len(),
        |i: int|
            if 0 <= i < items.len() {
                items[i]@
            } else {
                TomlView::Boolean(false)
            },
    )
}

/// The models of the entries of a table.
pub open spec fn entry_views(entries: Seq<(String, Toml)>) -> Seq<(Seq<char>, TomlView)>
    decreases entries,
{
    Seq::new(
        entries.len(),
        |i: int|
            if 0 <= i < entries.len() {
                (entries[i].0@, entries[i].1@)
            } else {
                (Seq::empty(), TomlView::Boolean(false))
            },
    )
}

impl View for Toml {
    type V = TomlView;

    open spec fn view(&self) -> TomlView
        decreases self,
    {
        match self {
            Toml::String(s) => TomlView::String(s@),
            Toml::Integer(i) => TomlView::Integer(*i as int),
            Toml::Float(bits) => TomlView::Float(*bits),
            Toml::Boolean(b) => TomlView::Boolean(*b),
            Toml::Datetime(d) => TomlView::Datetime(d@),
            Toml::Array(items) => TomlView::Array(item_views(items@)),
            Toml::Table(entries) => TomlView::Table(entry_views(entries@)),
        }
    }
}

impl TomlView {
    /// The value that stands where a path leads to nothing: a table without
    /// entries.
    pub open spec fn empty() -> TomlView {
        TomlView::Table(Seq::empty())
    }

    /// Whether the value is well formed: no key occurs twice in a table of
    /// it, at any depth.
    pub open spec fn wf(self) -> bool
        decreases self,
    {
        match self {
            TomlView::Array(items) => forall|i: int|
                0 <= i < items.len() ==> (#[trigger] items[i]).wf(),
            TomlView::Table(entries) => {
                &&& distinct_keys(entries)
                &&& forall|i: int| 0 <= i < entries.len() ==> (#[trigger] entries[i]).1.wf()
            },
            _ => true,
        }
    }
}

/// Whether no two entries have the same key.
pub open spec fn distinct_keys(entries: Seq<(Seq<char>, TomlView)>) -> bool {
    forall|i: int, j: int|
        0 <= i < j < entries.len() ==> (#[trigger] entries[i]).0 != (#[trigger] entries[j]).0
}

impl Toml {
    /// The value that stands where a path leads to nothing: a table without
    /// entries.
    pub fn empty() -> (r: Toml)
        ensures
            r@ == TomlView::empty(),
            r@.wf(),
    {
        let r = Toml::Table(Vec::new());
        assert(entry_views(Seq::<(String, Toml)>::empty()) =~= Seq::empty());
        r
    }

    /// The text of a string, and `None` for a value of another kind.
    pub fn as_str(&self) -> (r: Option<&str>)
        ensures
            match self@ {
                TomlView::String(text) => r matches Some(found) && found@ == text,
                _ => r is None,
            },
    {
        match self {
            Toml::String(text) => Some(text.as_str()),
            _ => None,
        }
    }

    /// The number of an integer, and `None` for a value of another kind.
    pub fn as_integer(&self) -> (r: Option<i64>)
        ensures
            match self@ {
                TomlView::Integer(number) => r == Some(number as i64),
                _ => r is None,
            },
    {
        match self {
            Toml::Integer(number) => Some(*number),
            _ => None,
        }
    }
}

impl Clone for Toml {
    /// A copy that holds what the value holds.
    fn clone(&self) -> (r: Toml)
        ensures
            r@ == self@,
        decreases self,
    {
        match self {
            Toml::String(text) => Toml::String(text.clone()),
            Toml::Integer(number) => Toml::Integer(*number),
            Toml::Float(bits) => Toml::Float(*bits),
            Toml::Boolean(truth) => Toml::Boolean(*truth),
            Toml::Datetime(text) => Toml::Datetime(text.clone()),
            Toml::Array(items) => {
                let mut copies: Vec<Toml> = Vec::new();
                let mut i: usize = 0;
                while i < items.len()
                    invariant
                        i <= items.len(),
                        decreases_to!(self => items@),
                        copies@.len() == i,
                        forall|k: int| 0 <= k < i ==> (#[trigger] copies@[k])@ == items@[k]@,
                    decreases items.len() - i,
                {
                    copies.push(items[i].clone());
                    i = i + 1;
                }
                assert(item_views(copies@) =~= item_views(items@));
                Toml::Array(copies)
            },
            Toml::Table(entries) => {
                let mut copies: Vec<(String, Toml)> = Vec::new();
                let mut i: usize = 0;
                while i < entries.len()
                    invariant
                        i <= entries.len(),
                        decreases_to!(self => entries@),
                        copies@.len() == i,
                        forall|k: int|
                            0 <= k < i ==> (#[trigger] copies@[k]).0@ == entries@[k].0@
                                && copies@[k].1@ == entries@[k].1@,
                    decreases entries.len() - i,
                {
                    copies.push((entries[i].0.clone(), entries[i].1.clone()));
                    i = i + 1;
                }
                assert(entry_views(copies@) =~= entry_views(entries@));
                Toml::Table(copies)
            },
        }
    }
}

} // verus!
