//! Turning a value into the tokens of a Rust constant.

use crate::index::IndexView;
use crate::lookup::navigate;
use crate::value::{entry_views, item_views, Toml, TomlView};
use vstd::prelude::*;

verus! {

/// The bit of a float's sign.
pub const SIGN_BIT: u64 = 0x8000_0000_0000_0000;

/// The bits of positive infinity: the largest exponent, and no fraction.
pub const INFINITY_BITS: u64 = 0x7ff0_0000_0000_0000;

/// A piece of the generated constant: a token tree, or the path of a named
/// constant.
#[derive(Debug, PartialEq)]
pub enum Fragment {
    /// A string literal with this value.
    Str(String),
    /// An integer literal with the suffix `i64`.
    I64(i64),
    /// A float literal with the suffix `f64`, held by the bits of its value.
    /// Only a finite float has a literal.
    F64(u64),
    /// The path of the constant `f64::INFINITY`, or of `f64::NEG_INFINITY`.
    Infinite { negative: bool },
    /// The path of the constant `f64::NAN`.
    NotANumber,
    /// The word `true` or `false`.
    Bool(bool),
    /// The punctuation `,`.
    Comma,
    /// A parenthesised group of token trees.
    Group(Vec<Fragment>),
}

/// The mathematical model of a [`Fragment`].
pub ghost enum FragmentView {
    Str(Seq<char>),
    I64(int),
    F64(u64),
    Infinite { negative: bool },
    NotANumber,
    Bool(bool),
    Comma,
    Group(Seq<FragmentView>),
}

/// The models of the token trees of a list.
pub open spec fn fragment_views(trees: Seq<Fragment>) -> Seq<FragmentView>
    decreases trees,
{
    Seq::new(
        trees.len(),
        |i: int|
            if 0 <= i < trees.len() {
                trees[i]@
            } else {
                FragmentView::Comma
            },
    )
}

impl View for Fragment {
    type V = FragmentView;

    open spec fn view(&self) -> FragmentView
        decreases self,
    {
        match self {
            Fragment::Str(s) => FragmentView::Str(s@),
            Fragment::I64(i) => FragmentView::I64(*i as int),
            Fragment::F64(bits) => FragmentView::F64(*bits),
            Fragment::Infinite { negative } => FragmentView::Infinite { negative: *negative },
            Fragment::NotANumber => FragmentView::NotANumber,
            Fragment::Bool(b) => FragmentView::Bool(*b),
            Fragment::Comma => FragmentView::Comma,
            Fragment::Group(inner) => FragmentView::Group(fragment_views(inner@)),
        }
    }
}

impl FragmentView {
    /// Whether every float literal in the piece is that of a finite float,
    /// so that it can be written.
    pub open spec fn wf(self) -> bool
        decreases self,
    {
        match self {
            FragmentView::F64(bits) => is_finite(bits),
            FragmentView::Group(inner) => forall|i: int|
                0 <= i < inner.len() ==> (#[trigger] inner[i]).wf(),
            _ => true,
        }
    }
}

/// The bits of a float without the bit of its sign.
pub open spec fn magnitude(bits: u64) -> u64 {
    if bits >= SIGN_BIT {
        (bits - SIGN_BIT) as u64
    } else {
        bits
    }
}

/// Whether the bits are those of a finite float: its exponent is not the
/// largest.
pub open spec fn is_finite(bits: u64) -> bool {
    magnitude(bits) < INFINITY_BITS
}

/// The constant that stands for a float with the given bits: its literal
/// where it is finite, else the constant of that name.
pub open spec fn float_constant(bits: u64) -> FragmentView {
    if magnitude(bits) < INFINITY_BITS {
        FragmentView::F64(bits)
    } else if magnitude(bits) == INFINITY_BITS {
        FragmentView::Infinite { negative: bits >= SIGN_BIT }
    } else {
        FragmentView::NotANumber
    }
}

/// The elements of a tuple whose tokens are given: with a comma behind each
/// element, they are the tokens at the even places.
pub open spec fn tuple_elements(tokens: Seq<FragmentView>) -> Seq<FragmentView> {
    Seq::new(tokens.len() / 2, |i: int| tokens[2 * i])
}

/// The tokens between the parentheses of an array's constant: each element's
/// constant, followed by a comma.
pub open spec fn array_tokens(items: Seq<TomlView>) -> Seq<FragmentView>
    decreases items, 0nat,
{
    Seq::new(
        2 * items.len(),
        |k: int|
            if 0 <= k < 2 * items.len() && k % 2 == 0 {
                translation(items[k / 2])
            } else {
                FragmentView::Comma
            },
    )
}

/// The parenthesised pair that stands for one entry of a table: the key as a
/// string literal, a comma, and the constant of the value.
pub open spec fn entry_tokens(entry: (Seq<char>, TomlView)) -> FragmentView
    decreases entry, 0nat,
{
    FragmentView::Group(seq![FragmentView::Str(entry.0), FragmentView::Comma, translation(entry.1)])
}

/// The tokens between the parentheses of a table's constant: for each entry,
/// in the order of the entries, its pair, followed by a comma.
pub open spec fn table_tokens(entries: Seq<(Seq<char>, TomlView)>) -> Seq<FragmentView>
    decreases entries, 1nat,
{
    Seq::new(
        2 * entries.len(),
        |k: int|
            if 0 <= k < 2 * entries.len() && k % 2 == 0 {
                entry_tokens(entries[k / 2])
            } else {
                FragmentView::Comma
            },
    )
}

/// The constant that stands for a value.
pub open spec fn translation(value: TomlView) -> FragmentView
    decreases value, 2nat,
{
    match value {
        TomlView::String(s) => FragmentView::Str(s),
        TomlView::Integer(i) => FragmentView::I64(i),
        TomlView::Float(bits) => float_constant(bits),
        TomlView::Boolean(b) => FragmentView::Bool(b),
        TomlView::Datetime(d) => FragmentView::Str(d),
        TomlView::Array(items) => FragmentView::Group(array_tokens(items)),
        TomlView::Table(entries) => FragmentView::Group(table_tokens(entries)),
    }
}

/// The parenthesised pair of a key and the constant of its value.
fn pair(key: String, value: Fragment) -> (r: Fragment)
    ensures
        r@ == FragmentView::Group(seq![FragmentView::Str(key@), FragmentView::Comma, value@]),
{
    let mut inner: Vec<Fragment> = Vec::new();
    inner.push(Fragment::Str(key));
    inner.push(Fragment::Comma);
    inner.push(value);
    let r = Fragment::Group(inner);
    assert(fragment_views(inner@) =~= seq![FragmentView::Str(key@), FragmentView::Comma, value@]);
    r
}

/// Makes the constant that stands for a float with the given bits.
fn translate_float(bits: u64) -> (r: Fragment)
    ensures
        r@ == float_constant(bits),
{
    let negative: bool = bits >= SIGN_BIT;
    let magnitude: u64 = if negative {
        bits - SIGN_BIT
    } else {
        bits
    };
    if magnitude < INFINITY_BITS {
        Fragment::F64(bits)
    } else if magnitude == INFINITY_BITS {
        Fragment::Infinite { negative }
    } else {
        Fragment::NotANumber
    }
}

/// Turns a value into the constant that stands for it. Every value has one,
/// and every float literal in it can be written.
pub fn translate(input: Toml) -> (r: Fragment)
    ensures
        r@ == translation(input@),
        r@.wf(),
    decreases input,
{
    proof {
        lemma_translation_wf(input@);
    }
    match input {
        Toml::String(s) => Fragment::Str(s),
        Toml::Integer(i) => Fragment::I64(i),
        Toml::Float(bits) => translate_float(bits),
        Toml::Datetime(d) => Fragment::Str(d),
        Toml::Boolean(b) => Fragment::Bool(b),
        Toml::Array(items) => {
            let ghost all = items@;
            let mut tokens: Vec<Fragment> = Vec::new();
            for value in it: items
                invariant
                    it.seq() == all,
                    decreases_to!(input => all),
                    tokens@.len() == 2 * it.index(),
                    forall|k: int|
                        0 <= k < tokens@.len() ==> (#[trigger] tokens@[k])@ == array_tokens(
                            item_views(all),
                        )[k],
            {
                let v = translate(value);
                tokens.push(v);
                tokens.push(Fragment::Comma);
            }
            let r = Fragment::Group(tokens);
            assert(fragment_views(tokens@) =~= array_tokens(item_views(all)));
            r
        },
        Toml::Table(entries) => {
            let ghost all = entries@;
            let mut tokens: Vec<Fragment> = Vec::new();
            for entry in it: entries
                invariant
                    it.seq() == all,
                    decreases_to!(input => all),
                    tokens@.len() == 2 * it.index(),
                    forall|k: int|
                        0 <= k < tokens@.len() ==> (#[trigger] tokens@[k])@ == table_tokens(
                            entry_views(all),
                        )[k],
            {
                let (key, value) = entry;
                let v = translate(value);
                tokens.push(pair(key, v));
                tokens.push(Fragment::Comma);
            }
            let r = Fragment::Group(tokens);
            assert(fragment_views(tokens@) =~= table_tokens(entry_views(all)));
            r
        },
    }
}

/// The constant of an array is a tuple of as many elements as the array
/// has, and its element at each place is the constant of the array's element
/// at that place. A comma stands behind each.
pub proof fn lemma_translation_of_array(items: Seq<TomlView>)
    ensures
        translation(TomlView::Array(items)) == FragmentView::Group(array_tokens(items)),
        tuple_elements(array_tokens(items)).len() == items.len(),
        forall|i: int|
            0 <= i < items.len() ==> #[trigger] tuple_elements(array_tokens(items))[i]
                == translation(items[i]),
        forall|i: int|
            0 <= i < items.len() ==> #[trigger] array_tokens(items)[2 * i + 1]
                == FragmentView::Comma,
{
}

/// The constant of a table is a tuple of as many elements as the table has
/// entries, and its element at each place is the pair of the entry at that
/// place: the key as a string literal, a comma, and the constant of the
/// entry's value. A comma stands behind each pair.
pub proof fn lemma_translation_of_table(entries: Seq<(Seq<char>, TomlView)>)
    ensures
        translation(TomlView::Table(entries)) == FragmentView::Group(table_tokens(entries)),
        tuple_elements(table_tokens(entries)).len() == entries.len(),
        forall|i: int|
            0 <= i < entries.len() ==> #[trigger] tuple_elements(table_tokens(entries))[i]
                == FragmentView::Group(
                seq![
                    FragmentView::Str(entries[i].0),
                    FragmentView::Comma,
                    translation(entries[i].1),
                ],
            ),
        forall|i: int|
            0 <= i < entries.len() ==> #[trigger] table_tokens(entries)[2 * i + 1]
                == FragmentView::Comma,
{
}

/// Where a path leads to a string, an integer, a float or a boolean, the
/// constant made of it has the same value: the literal of that kind and, for
/// a float that is not finite, the constant of its name.
pub proof fn lemma_translation_of_scalar(steps: Seq<IndexView>, document: TomlView)
    ensures
        match navigate(steps, document) {
            TomlView::String(s) => translation(navigate(steps, document)) == FragmentView::Str(s),
            TomlView::Integer(i) => translation(navigate(steps, document)) == FragmentView::I64(i),
            TomlView::Float(bits) => {
                &&& translation(navigate(steps, document)) == float_constant(bits)
                &&& is_finite(bits) ==> float_constant(bits) == FragmentView::F64(bits)
            },
            TomlView::Boolean(b) => translation(navigate(steps, document)) == FragmentView::Bool(b),
            _ => true,
        },
{
}

/// The constant of any value can be written: it holds the literal of no
/// float that is not finite.
pub proof fn lemma_translation_wf(value: TomlView)
    ensures
        translation(value).wf(),
    decreases value,
{
    match value {
        TomlView::Array(items) => {
            assert(translation(value) == FragmentView::Group(array_tokens(items)));
            assert forall|k: int| 0 <= k < array_tokens(items).len() implies (
            #[trigger] array_tokens(items)[k]).wf() by {
                if k % 2 == 0 {
                    lemma_translation_wf(items[k / 2]);
                }
            }
        },
        TomlView::Table(entries) => {
            assert(translation(value) == FragmentView::Group(table_tokens(entries)));
            assert forall|k: int| 0 <= k < table_tokens(entries).len() implies (
            #[trigger] table_tokens(entries)[k]).wf() by {
                if k % 2 == 0 {
                    let entry = entries[k / 2];
                    lemma_translation_wf(entry.1);
                    let pair = seq![
                        FragmentView::Str(entry.0),
                        FragmentView::Comma,
                        translation(entry.1),
                    ];
                    assert(entry_tokens(entry) == FragmentView::Group(pair));
                    assert forall|j: int| 0 <= j < pair.len() implies (#[trigger] pair[j]).wf() by {}
                }
            }
        },
        _ => {},
    }
}

} // verus!
