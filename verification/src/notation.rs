//! How values and tags are written in the language: the text that spells a
//! value, and the statement that declares a tag with its values and
//! attributes.

use crate::grammar::{TagView, ValueView};
use crate::lexis::{is_alpha, is_digit, is_name_byte, number, word_false, word_null, word_true};
use crate::number::decimal_text;
use vstd::prelude::*;
use vstd::utf8::encode_utf8;

verus! {

impl ValueView {
    /// The text that spells the value in the language: a string between
    /// quotes, a number in decimal notation, `true`, `false` or `null`.
    pub open spec fn canonical(self) -> Seq<char> {
        match self {
            ValueView::String(text) => seq!['"'] + text + seq!['"'],
            ValueView::Integer(n) => if n < 0 {
                seq!['-'] + decimal_text((-n) as nat)
            } else {
                decimal_text(n as nat)
            },
            ValueView::Float(text) => text,
            ValueView::Boolean(b) => if b {
                "true"@
            } else {
                "false"@
            },
            ValueView::Null => "null"@,
        }
    }

    /// Whether the value is one that a literal of the language can have: a
    /// string without a quote in it, an integer from zero up to the largest
    /// that 64 bits hold with a sign, a number with a fraction that the
    /// scanner reads as one, a boolean or null.
    pub open spec fn readable(self) -> bool {
        match self {
            ValueView::String(text) => !text.contains('"'),
            ValueView::Integer(n) => 0 <= n <= i64::MAX,
            ValueView::Float(text) => is_float(encode_utf8(text)),
            ValueView::Boolean(_) => true,
            ValueView::Null => true,
        }
    }
}

/// Whether `bytes` are a number with a fraction and nothing else: digits,
/// a dot and digits, and then possibly an exponent.
pub open spec fn is_float(bytes: Seq<u8>) -> bool {
    &&& bytes.len() > 0
    &&& is_digit(bytes[0])
    &&& number(bytes, 0).token is Float64
    &&& number(bytes, 0).end == bytes.len()
}

/// Whether `bytes` are an identifier and nothing else: a letter, then name
/// bytes, and not one of the keywords.
pub open spec fn is_identifier(bytes: Seq<u8>) -> bool {
    &&& bytes.len() > 0
    &&& is_alpha(bytes[0])
    &&& forall|i: int| 0 < i < bytes.len() ==> is_name_byte(#[trigger] bytes[i])
    &&& bytes != word_true()
    &&& bytes != word_false()
    &&& bytes != word_null()
}

/// A value of a tag, or an attribute with its name.
pub type Item = (Option<Seq<char>>, ValueView);

/// Whether `item` can be written and read again: its value is one that a
/// literal can have, and its name, if it has one, is an identifier.
pub open spec fn item_readable(item: Item) -> bool {
    &&& item.1.readable()
    &&& item.0 matches Some(name) ==> is_identifier(encode_utf8(name))
}

/// The text that spells `item`: the value, after its name and `=` where it
/// is an attribute.
pub open spec fn item_text(item: Item) -> Seq<char> {
    match item.0 {
        Some(name) => name + seq!['='] + item.1.canonical(),
        None => item.1.canonical(),
    }
}

/// The text of `items`, a space before each.
pub open spec fn items_text(items: Seq<Item>) -> Seq<char>
    decreases items.len(),
{
    if items.len() == 0 {
        Seq::empty()
    } else {
        seq![' '] + item_text(items[0]) + items_text(items.drop_first())
    }
}

/// The statement that declares the tag `name` with `items` as its values
/// and attributes: the name, the items with a space before each, and `;`.
pub open spec fn statement(name: Seq<char>, items: Seq<Item>) -> Seq<char> {
    name + items_text(items) + seq![';']
}

/// The tag `tag` with `items` added in their order as values and
/// attributes.
pub open spec fn filled(tag: TagView, items: Seq<Item>) -> TagView
    decreases items.len(),
{
    if items.len() == 0 {
        tag
    } else {
        let next = match items[0].0 {
            Some(name) => tag.with_attribute(name, items[0].1),
            None => tag.with_value(items[0].1),
        };
        filled(next, items.drop_first())
    }
}

/// The values `values` as items.
pub open spec fn value_items(values: Seq<ValueView>) -> Seq<Item> {
    values.map_values(|value: ValueView| (None::<Seq<char>>, value))
}

/// The attributes `pairs`, each a name and a value, as items.
pub open spec fn attribute_items(pairs: Seq<(Seq<char>, ValueView)>) -> Seq<Item> {
    pairs.map_values(|pair: (Seq<char>, ValueView)| (Some(pair.0), pair.1))
}

/// The attributes `attributes` with those of `pairs` set in their order.
pub open spec fn inserted(
    attributes: Map<Seq<char>, ValueView>,
    pairs: Seq<(Seq<char>, ValueView)>,
) -> Map<Seq<char>, ValueView>
    decreases pairs.len(),
{
    if pairs.len() == 0 {
        attributes
    } else {
        inserted(attributes.insert(pairs[0].0, pairs[0].1), pairs.drop_first())
    }
}

/// Whether `pairs` are the attributes of `tag`, each of them once.
pub open spec fn lists_attributes(tag: TagView, pairs: Seq<(Seq<char>, ValueView)>) -> bool {
    &&& inserted(Map::empty(), pairs) == tag.attributes
    &&& forall|j: int, k: int| 0 <= j < k < pairs.len() ==> pairs[j].0 != pairs[k].0
}

/// Whether the values and the attributes of `tag` can be written and read
/// again: the names of the attributes are identifiers, and the values are
/// such as literals can have.
pub open spec fn content_readable(tag: TagView) -> bool {
    &&& forall|k: int| 0 <= k < tag.values.len() ==> (#[trigger] tag.values[k]).readable()
    &&& forall|name: Seq<char>| #[trigger]
        tag.attributes.contains_key(name) ==> is_identifier(encode_utf8(name))
            && tag.attributes[name].readable()
}

/// Whether the name, the values and the attributes of `tag` can be written
/// and read again: in addition, the name is an identifier.
pub open spec fn tag_readable(tag: TagView) -> bool {
    is_identifier(encode_utf8(tag.name)) && content_readable(tag)
}

/// The statement that declares `tag` without its children: its name, its
/// values in their order, its attributes in the order of `pairs`, each as a
/// name, `=` and the value, and `;`.
pub open spec fn tag_statement(tag: TagView, pairs: Seq<(Seq<char>, ValueView)>) -> Seq<char> {
    statement(tag.name, value_items(tag.values) + attribute_items(pairs))
}

/// A tag as it is written: its name, its values and attributes in the
/// order in which they are written, and the tags of its block, where it
/// has one.
pub struct Written {
    pub name: Seq<char>,
    pub items: Seq<Item>,
    pub block: Option<Seq<Written>>,
}

impl Written {
    /// The tag that is written.
    pub open spec fn tag(self) -> TagView
        decreases self,
    {
        let own = filled(TagView::named(self.name), self.items);
        match self.block {
            Some(inner) => TagView { children: tags(inner), ..own },
            None => own,
        }
    }

    /// The text that declares the tag: its name and its values and
    /// attributes with a space before each; then `;`, or ` {`, the tags of
    /// the block, each on a line of its own, and `}`.
    pub open spec fn text(self) -> Seq<char>
        decreases self,
    {
        self.name + items_text(self.items) + match self.block {
            Some(inner) => seq![' ', '{', '\n'] + lines(inner) + seq!['}'],
            None => seq![';'],
        }
    }

    /// Whether what is written can be read: names are identifiers, values
    /// are such as literals can have, and a tag without a block has a value
    /// or an attribute.
    pub open spec fn readable(self) -> bool
        decreases self,
    {
        &&& is_identifier(encode_utf8(self.name))
        &&& forall|k: int| 0 <= k < self.items.len() ==> item_readable(#[trigger] self.items[k])
        &&& match self.block {
            Some(inner) => all_readable(inner),
            None => self.items.len() > 0,
        }
    }
}

/// The tags that are written, in order.
pub open spec fn tags(all: Seq<Written>) -> Seq<TagView>
    decreases all,
{
    if all.len() == 0 {
        Seq::empty()
    } else {
        seq![all[0].tag()] + tags(all.drop_first())
    }
}

/// The text that declares the tags `all`, each on a line of its own.
pub open spec fn lines(all: Seq<Written>) -> Seq<char>
    decreases all,
{
    if all.len() == 0 {
        Seq::empty()
    } else {
        all[0].text() + seq!['\n'] + lines(all.drop_first())
    }
}

/// Whether each of `all` can be read.
pub open spec fn all_readable(all: Seq<Written>) -> bool
    decreases all,
{
    if all.len() == 0 {
        true
    } else {
        all[0].readable() && all_readable(all.drop_first())
    }
}

} // verus!
