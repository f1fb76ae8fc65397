//! JSON: the tree that a text stands for, and the calls that turn one into
//! the other.
use vstd::prelude::*;

use crate::text::{all_digits, decimal, digits_value, join, same};

verus! {

/// What a JSON text says. A number is the text it is written as.
#[verifier::ext_equal]
pub enum Tree {
    /// `null`.
    Null,
    /// `true` or `false`.
    Bool(bool),
    /// A number, as it is written.
    Number(Seq<char>),
    /// A string.
    Text(Seq<char>),
    /// A list.
    Array(Seq<Tree>),
    /// Named fields, in order.
    Object(Seq<(Seq<char>, Tree)>),
}

/// The first field called `key`.
pub open spec fn find(fields: Seq<(Seq<char>, Tree)>, key: Seq<char>) -> Option<Tree>
    decreases fields.len(),
{
    if fields.len() == 0 {
        None
    } else if fields[0].0 == key {
        Some(fields[0].1)
    } else {
        find(fields.drop_first(), key)
    }
}

impl Tree {
    /// The field called `key`, if this is an object that has one.
    pub open spec fn field(self, key: Seq<char>) -> Option<Tree> {
        match self {
            Tree::Object(fields) => find(fields, key),
            _ => None,
        }
    }

    /// The field called `key`, or null if there is none.
    pub open spec fn at(self, key: Seq<char>) -> Tree {
        match self.field(key) {
            Some(tree) => tree,
            None => Tree::Null,
        }
    }

    /// The item at position `i`, or null if this is not a list that long.
    pub open spec fn nth(self, i: int) -> Tree {
        match self {
            Tree::Array(items) => if 0 <= i < items.len() {
                items[i]
            } else {
                Tree::Null
            },
            _ => Tree::Null,
        }
    }

    /// The whole number that this is, if it is one from 0 to `u64::MAX`.
    pub open spec fn count(self) -> Option<nat> {
        match self {
            Tree::Number(text) => count_of(text),
            _ => None,
        }
    }

    /// The string that this is, if it is one.
    pub open spec fn string(self) -> Option<Seq<char>> {
        match self {
            Tree::Text(text) => Some(text),
            _ => None,
        }
    }
}

/// The number that a text of nothing but digits stands for.
pub open spec fn count_of(text: Seq<char>) -> Option<nat> {
    if text.len() > 0 && all_digits(text, 10) && digits_value(text, 10) <= u64::MAX {
        Some(digits_value(text, 10))
    } else {
        None
    }
}

/// `fields` with `key` set to `value`: in the place it has, or else at the end.
pub open spec fn set(fields: Seq<(Seq<char>, Tree)>, key: Seq<char>, value: Tree) -> Seq<(Seq<char>, Tree)>
    decreases fields.len(),
{
    if fields.len() == 0 {
        seq![(key, value)]
    } else if fields[0].0 == key {
        seq![(key, value)] + fields.drop_first()
    } else {
        seq![fields[0]] + set(fields.drop_first(), key, value)
    }
}

/// The fields that setting each of `fields` in turn leaves.
pub open spec fn merged(fields: Seq<(Seq<char>, Tree)>) -> Seq<(Seq<char>, Tree)>
    decreases fields.len(),
{
    if fields.len() == 0 {
        seq![]
    } else {
        set(merged(fields.drop_last()), fields.last().0, fields.last().1)
    }
}

/// Whether no two fields have the same name.
pub open spec fn distinct(fields: Seq<(Seq<char>, Tree)>) -> bool {
    forall|i: int, j: int| 0 <= i < j < fields.len() ==> (#[trigger] fields[i]).0 != (#[trigger] fields[j]).0
}

/// Whether a tree holds no number but whole ones that fit in 64 bits, and
/// lists and objects at most `depth` deep.
pub open spec fn simple(tree: Tree, depth: nat) -> bool
    decreases depth,
{
    match tree {
        Tree::Number(text) => exists|n: u64| text == #[trigger] decimal(n as nat),
        Tree::Array(items) => depth > 0 && forall|i: int|
            0 <= i < items.len() ==> simple(#[trigger] items[i], (depth - 1) as nat),
        Tree::Object(fields) => depth > 0 && forall|i: int|
            0 <= i < fields.len() ==> simple((#[trigger] fields[i]).1, (depth - 1) as nat),
        _ => true,
    }
}

/// A JSON value of the `serde_json` crate.
#[verifier::external_type_specification]
#[verifier::external_body]
pub struct ExValue(serde_json::Value);

/// A JSON number of the `serde_json` crate.
#[verifier::external_type_specification]
#[verifier::external_body]
pub struct ExNumber(serde_json::Number);

/// What a [`serde_json::Value`] holds.
pub uninterp spec fn value_tree(value: serde_json::Value) -> Tree;

/// How a [`serde_json::Number`] is written.
pub uninterp spec fn number_text(number: serde_json::Number) -> Seq<char>;

/// What `serde_json::from_str` makes of a text: the tree it stands for, or
/// the message of the error.
pub uninterp spec fn json_parse(text: Seq<char>) -> Result<Tree, Seq<char>>;

/// Whether `text` is JSON for `tree`.
pub open spec fn stands_for(text: Seq<char>, tree: Tree) -> bool {
    json_parse(text) == Ok::<Tree, Seq<char>>(tree)
}

/// Whether every character of `s` stands for itself in a JSON string: whether
/// there is no quotation mark, backslash or control character among them.
pub open spec fn plain(s: Seq<char>) -> bool {
    forall|i: int| 0 <= i < s.len() ==> ' ' <= #[trigger] s[i] && s[i] != '"' && s[i] != '\\'
}

/// How `serde_json` writes a string in which something is to be escaped.
pub uninterp spec fn escaped(s: Seq<char>) -> Seq<char>;

/// How `serde_json` writes a string.
pub open spec fn string_text(s: Seq<char>) -> Seq<char> {
    if plain(s) {
        "\""@ + s + "\""@
    } else {
        escaped(s)
    }
}

/// How `serde_json` writes a tree: with nothing between the tokens.
pub open spec fn json_text(tree: Tree) -> Seq<char>
    decreases tree,
{
    match tree {
        Tree::Null => "null"@,
        Tree::Bool(true) => "true"@,
        Tree::Bool(false) => "false"@,
        Tree::Number(text) => text,
        Tree::Text(s) => string_text(s),
        Tree::Array(items) => "["@ + join(item_texts(items), ","@) + "]"@,
        Tree::Object(fields) => "{"@ + join(field_texts(fields), ","@) + "}"@,
    }
}

/// How each item of a list is written.
pub open spec fn item_texts(items: Seq<Tree>) -> Seq<Seq<char>>
    decreases items,
{
    if items.len() == 0 {
        seq![]
    } else {
        item_texts(items.drop_last()).push(json_text(items.last()))
    }
}

/// How each field of an object is written: its name, a colon and its value.
pub open spec fn field_texts(fields: Seq<(Seq<char>, Tree)>) -> Seq<Seq<char>>
    decreases fields,
{
    if fields.len() == 0 {
        seq![]
    } else {
        field_texts(fields.drop_last()).push(string_text(fields.last().0) + ":"@ + json_text(fields.last().1))
    }
}

/// How a number, written so, reads with `count` decimals.
pub uninterp spec fn decimals(text: Seq<char>, count: nat) -> Seq<char>;

/// The outermost layer of a JSON value.
pub enum Layer {
    /// `null`.
    Null,
    /// `true` or `false`.
    Bool(bool),
    /// A number.
    Number(serde_json::Number),
    /// A string.
    Text(String),
    /// A list.
    Array(Vec<serde_json::Value>),
    /// Named fields, in order.
    Object(Vec<(String, serde_json::Value)>),
}

impl Layer {
    /// What the value with this outermost layer holds.
    pub open spec fn tree(self) -> Tree {
        match self {
            Layer::Null => Tree::Null,
            Layer::Bool(b) => Tree::Bool(b),
            Layer::Number(n) => Tree::Number(number_text(n)),
            Layer::Text(s) => Tree::Text(s@),
            Layer::Array(items) => Tree::Array(items@.map_values(|v: serde_json::Value| value_tree(v))),
            Layer::Object(fields) => Tree::Object(
                fields@.map_values(|f: (String, serde_json::Value)| (f.0@, value_tree(f.1))),
            ),
        }
    }
}

/// Takes a [`serde_json::Value`] apart into its variant and what that holds,
/// the entries of a map in the map's own order. A map has each key once.
#[verifier::external_body]
fn open(value: serde_json::Value) -> (layer: Layer)
    ensures
        layer.tree() == value_tree(value),
        layer.tree() is Object ==> distinct(layer.tree()->Object_0),
{
    match value {
        serde_json::Value::Null => Layer::Null,
        serde_json::Value::Bool(b) => Layer::Bool(b),
        serde_json::Value::Number(n) => Layer::Number(n),
        serde_json::Value::String(s) => Layer::Text(s),
        serde_json::Value::Array(items) => Layer::Array(items),
        serde_json::Value::Object(fields) => Layer::Object(fields.into_iter().collect()),
    }
}

/// Builds a [`serde_json::Value`] from its outermost layer. A map keeps the
/// order in which names are first inserted, and for each name the last value.
#[verifier::external_body]
fn close(layer: Layer) -> (value: serde_json::Value)
    ensures
        value_tree(value) == match layer.tree() {
            Tree::Object(fields) => Tree::Object(merged(fields)),
            other => other,
        },
{
    match layer {
        Layer::Null => serde_json::Value::Null,
        Layer::Bool(b) => serde_json::Value::Bool(b),
        Layer::Number(n) => serde_json::Value::Number(n),
        Layer::Text(s) => serde_json::Value::String(s),
        Layer::Array(items) => serde_json::Value::Array(items),
        Layer::Object(fields) => serde_json::Value::Object(fields.into_iter().collect()),
    }
}

/// `serde_json::from_str`: the value that `text` stands for, or the error's
/// message.
#[verifier::external_body]
pub(crate) fn from_text(text: &str) -> (r: Result<serde_json::Value, String>)
    ensures
        match r {
            Ok(value) => stands_for(text@, value_tree(value)),
            Err(why) => json_parse(text@) == Err::<Tree, Seq<char>>(why@),
        },
{
    serde_json::from_str(text).map_err(|e| e.to_string())
}

/// `Value::to_string`: the compact JSON text of `value`. A list is its items in
/// brackets, an object its fields in braces, with commas between them and nothing
/// else; a number is as `Number::to_string` has it; and a string is put in
/// quotation marks, with its characters as they are if none of them is to be
/// escaped. How others are escaped is not stated. The text holds no line break, because strings have theirs escaped and nothing else is written
/// between the tokens. Where all numbers are whole and the nesting is shallow,
/// `serde_json::from_str` reads back what was written, with or without a line
/// break after it.
#[verifier::external_body]
pub(crate) fn to_text(value: &serde_json::Value) -> (r: String)
    ensures
        r@ == json_text(value_tree(*value)),
        value_tree(*value) matches Tree::Text(s) ==> !plain(s) ==> r@ == escaped(s),
        !r@.contains('\n'),
        simple(value_tree(*value), 8) ==> stands_for(r@, value_tree(*value)),
        simple(value_tree(*value), 8) ==> stands_for(r@.push('\n'), value_tree(*value)),
{
    value.to_string()
}

/// `Number::from`: a whole number, written in decimal.
#[verifier::external_body]
pub(crate) fn number(n: u64) -> (r: serde_json::Number)
    ensures
        number_text(r) == decimal(n as nat),
{
    serde_json::Number::from(n)
}

/// `Number::to_string`: how a number is written, with no line break.
#[verifier::external_body]
pub(crate) fn number_to_text(number: &serde_json::Number) -> (r: String)
    ensures
        r@ == number_text(*number),
        !r@.contains('\n'),
{
    number.to_string()
}

/// `Number::clone`: the same number again.
#[verifier::external_body]
fn number_again(number: &serde_json::Number) -> (r: serde_json::Number)
    ensures
        number_text(r) == number_text(*number),
{
    number.clone()
}

/// `Number::as_u64`: the number, if it is whole and not negative. Such a
/// number is written in nothing but digits, and no other is: a negative one
/// has a sign, and a fraction a point or an exponent.
#[verifier::external_body]
fn number_to_count(number: &serde_json::Number) -> (r: Option<u64>)
    ensures
        match r {
            Some(n) => count_of(number_text(*number)) == Some(n as nat),
            None => count_of(number_text(*number)) is None,
        },
{
    number.as_u64()
}

/// `Number::as_f64` and a `{:.count$}` format: the number with `count` decimals.
/// A format takes no more than 65535 of them.
#[verifier::external_body]
pub(crate) fn number_to_decimals(number: &serde_json::Number, count: usize) -> (r: String)
    requires
        count <= u16::MAX,
    ensures
        r@ == decimals(number_text(*number), count as nat),
{
    number.as_f64().map(|v| format!("{v:.count$}")).unwrap_or_default()
}

/// A JSON value with every layer laid open.
pub enum Json {
    /// `null`.
    Null,
    /// `true` or `false`.
    Bool(bool),
    /// A number.
    Number(serde_json::Number),
    /// A string.
    Text(String),
    /// A list.
    Array(Vec<Json>),
    /// Named fields, in order.
    Object(Vec<(String, Json)>),
}

/// The trees of a list's items.
pub open spec fn item_trees(items: Seq<Json>) -> Seq<Tree> {
    Seq::new(items.len(), |i: int| items[i].tree())
}

/// The names and trees of an object's fields.
pub open spec fn field_trees(fields: Seq<(String, Json)>) -> Seq<(Seq<char>, Tree)> {
    Seq::new(fields.len(), |i: int| (fields[i].0@, fields[i].1.tree()))
}

impl Json {
    /// What the value holds.
    pub open spec fn tree(self) -> Tree
        decreases self,
    {
        match self {
            Json::Null => Tree::Null,
            Json::Bool(b) => Tree::Bool(b),
            Json::Number(n) => Tree::Number(number_text(n)),
            Json::Text(s) => Tree::Text(s@),
            Json::Array(items) => Tree::Array(
                Seq::new(
                    items@.len(),
                    |i: int|
                        if 0 <= i < items@.len() {
                            items@[i].tree()
                        } else {
                            Tree::Null
                        },
                ),
            ),
            Json::Object(fields) => Tree::Object(
                Seq::new(
                    fields@.len(),
                    |i: int|
                        if 0 <= i < fields@.len() {
                            (fields@[i].0@, fields@[i].1.tree())
                        } else {
                            (Seq::empty(), Tree::Null)
                        },
                ),
            ),
        }
    }

    /// The same value again.
    pub(crate) fn duplicate(&self) -> (r: Json)
        ensures
            r.tree() == self.tree(),
        decreases *self,
    {
        proof {
            lemma_array_and_object(*self);
        }
        let r = match self {
            Json::Null => Json::Null,
            Json::Bool(b) => Json::Bool(*b),
            Json::Number(n) => Json::Number(number_again(n)),
            Json::Text(s) => Json::Text(s.clone()),
            Json::Array(items) => {
                let mut out: Vec<Json> = Vec::new();
                for i in 0..items.len()
                    invariant
                        *self is Array,
                        self->Array_0 == *items,
                        out@.len() == i,
                        forall|j: int| 0 <= j < i ==> (#[trigger] out@[j]).tree() == items@[j].tree(),
                {
                    proof {
                        assert(decreases_to!(*self => self->Array_0));
                        assert(decreases_to!(self->Array_0 => self->Array_0@));
                        assert(decreases_to!(self->Array_0@ => self->Array_0@[i as int]));
                    }
                    out.push(items[i].duplicate());
                }
                assert(item_trees(out@) =~= item_trees(items@));
                Json::Array(out)
            },
            Json::Object(fields) => {
                let mut out: Vec<(String, Json)> = Vec::new();
                for i in 0..fields.len()
                    invariant
                        *self is Object,
                        self->Object_0 == *fields,
                        out@.len() == i,
                        forall|j: int|
                            0 <= j < i ==> (#[trigger] out@[j]).0@ == fields@[j].0@ && out@[j].1.tree()
                                == fields@[j].1.tree(),
                {
                    proof {
                        assert(decreases_to!(*self => self->Object_0));
                        assert(decreases_to!(self->Object_0 => self->Object_0@));
                        assert(decreases_to!(self->Object_0@ => self->Object_0@[i as int]));
                        assert(decreases_to!(self->Object_0@[i as int] => self->Object_0@[i as int].1));
                    }
                    out.push((fields[i].0.clone(), fields[i].1.duplicate()));
                }
                assert(field_trees(out@) =~= field_trees(fields@));
                Json::Object(out)
            },
        };
        proof {
            lemma_array_and_object(r);
        }
        r
    }

    /// The field called `key`, if this is an object that has one.
    pub fn get(&self, key: &str) -> (r: Option<&Json>)
        ensures
            match r {
                Some(value) => self.tree().field(key@) == Some(value.tree()),
                None => self.tree().field(key@) is None,
            },
    {
        match self {
            Json::Object(fields) => {
                proof {
                    lemma_array_and_object(*self);
                }
                let ghost all = field_trees(fields@);
                assert(all.skip(0) =~= all);
                for i in 0..fields.len()
                    invariant
                        all == field_trees(fields@),
                        self.tree() == Tree::Object(all),
                        find(all, key@) == find(all.skip(i as int), key@),
                {
                    assert(all.skip(i as int)[0] == all[i as int]);
                    assert(all.skip(i as int).drop_first() =~= all.skip(i + 1));
                    if same(fields[i].0.as_str(), key) {
                        return Some(&fields[i].1);
                    }
                }
                None
            },
            _ => None,
        }
    }

    /// The item at position `i`, if this is a list that long.
    pub fn item(&self, i: usize) -> (r: Option<&Json>)
        ensures
            match r {
                Some(value) => self.tree() is Array && i < self.tree()->Array_0.len() && self.tree()->Array_0[i as int]
                    == value.tree(),
                None => !(self.tree() is Array && i < self.tree()->Array_0.len()),
            },
    {
        proof {
            lemma_array_and_object(*self);
        }
        match self {
            Json::Array(items) => if i < items.len() {
                Some(&items[i])
            } else {
                None
            },
            _ => None,
        }
    }

    /// The whole number that this is, if it is one from 0 to `u64::MAX`.
    pub fn as_count(&self) -> (r: Option<u64>)
        ensures
            match r {
                Some(n) => self.tree().count() == Some(n as nat),
                None => self.tree().count() is None,
            },
    {
        match self {
            Json::Number(n) => number_to_count(n),
            _ => None,
        }
    }

    /// The string that this is, if it is one.
    pub fn as_text(&self) -> (r: Option<&str>)
        ensures
            match r {
                Some(text) => self.tree().string() == Some(text@),
                None => self.tree().string() is None,
            },
    {
        match self {
            Json::Text(text) => Some(text.as_str()),
            _ => None,
        }
    }
}

/// The tree of a list or an object, item by item.
pub proof fn lemma_array_and_object(json: Json)
    ensures
        json is Array ==> json.tree() == Tree::Array(item_trees(json->Array_0@)),
        json is Object ==> json.tree() == Tree::Object(field_trees(json->Object_0@)),
{
    if json is Array {
        assert(json.tree()->Array_0 =~= item_trees(json->Array_0@));
    }
    if json is Object {
        assert(json.tree()->Object_0 =~= field_trees(json->Object_0@));
    }
}

/// Lays a JSON value open.
pub(crate) fn unfold(value: serde_json::Value) -> (r: Json)
    ensures
        r.tree() == value_tree(value),
        neat(r.tree()),
    decreases value_tree(value),
{
    let ghost whole = value_tree(value);
    let r = match open(value) {
        Layer::Null => Json::Null,
        Layer::Bool(b) => Json::Bool(b),
        Layer::Number(n) => Json::Number(n),
        Layer::Text(s) => Json::Text(s),
        Layer::Array(items) => {
            let ghost all = items@;
            let ghost trees = all.map_values(|v: serde_json::Value| value_tree(v));
            let mut out: Vec<Json> = Vec::new();
            for item in it: items
                invariant
                    whole == value_tree(value),
                    it.seq() == all,
                    trees == all.map_values(|v: serde_json::Value| value_tree(v)),
                    whole == Tree::Array(trees),
                    out@.len() == it.index(),
                    forall|i: int| 0 <= i < out@.len() ==> (#[trigger] out@[i]).tree() == trees[i],
                    forall|i: int| 0 <= i < out@.len() ==> neat(#[trigger] trees[i]),
            {
                proof {
                    assert(trees[it.index()] == value_tree(item));
                    assert(decreases_to!(whole => whole->Array_0));
                    assert(decreases_to!(whole->Array_0 => whole->Array_0[it.index()]));
                }
                out.push(unfold(item));
            }
            assert(item_trees(out@) =~= trees);
            proof {
                lemma_neat_items(trees);
            }
            Json::Array(out)
        },
        Layer::Object(fields) => {
            let ghost all = fields@;
            let ghost trees = all.map_values(|f: (String, serde_json::Value)| (f.0@, value_tree(f.1)));
            let mut out: Vec<(String, Json)> = Vec::new();
            for field in it: fields
                invariant
                    whole == value_tree(value),
                    it.seq() == all,
                    trees == all.map_values(|f: (String, serde_json::Value)| (f.0@, value_tree(f.1))),
                    whole == Tree::Object(trees),
                    out@.len() == it.index(),
                    forall|i: int|
                        0 <= i < out@.len() ==> ((#[trigger] out@[i]).0@, out@[i].1.tree()) == trees[i],
                    forall|i: int| 0 <= i < out@.len() ==> neat((#[trigger] trees[i]).1),
            {
                let (key, inner) = field;
                proof {
                    assert(trees[it.index()] == (key@, value_tree(inner)));
                    assert(decreases_to!(whole => whole->Object_0));
                    assert(decreases_to!(whole->Object_0 => whole->Object_0[it.index()]));
                    assert(decreases_to!(whole->Object_0[it.index()] => whole->Object_0[it.index()].1));
                }
                out.push((key, unfold(inner)));
            }
            assert(field_trees(out@) =~= trees);
            proof {
                lemma_neat_fields(trees);
            }
            Json::Object(out)
        },
    };
    proof {
        lemma_array_and_object(r);
    }
    r
}

/// A tree with each object's fields merged: the last value for each name.
pub open spec fn settled(tree: Tree) -> Tree
    decreases tree,
{
    match tree {
        Tree::Array(items) => Tree::Array(settled_items(items)),
        Tree::Object(fields) => Tree::Object(merged(settled_fields(fields))),
        other => other,
    }
}

/// Each item settled.
pub open spec fn settled_items(items: Seq<Tree>) -> Seq<Tree>
    decreases items,
{
    if items.len() == 0 {
        seq![]
    } else {
        settled_items(items.drop_last()).push(settled(items.last()))
    }
}

/// Each field settled.
pub open spec fn settled_fields(fields: Seq<(Seq<char>, Tree)>) -> Seq<(Seq<char>, Tree)>
    decreases fields,
{
    if fields.len() == 0 {
        seq![]
    } else {
        settled_fields(fields.drop_last()).push((fields.last().0, settled(fields.last().1)))
    }
}

/// How each item of a list is written, by position.
pub proof fn lemma_item_texts(items: Seq<Tree>)
    ensures
        item_texts(items).len() == items.len(),
        forall|i: int| 0 <= i < items.len() ==> #[trigger] item_texts(items)[i] == json_text(items[i]),
    decreases items.len(),
{
    if items.len() > 0 {
        lemma_item_texts(items.drop_last());
    }
}

/// How each field of an object is written, by position.
pub proof fn lemma_field_texts(fields: Seq<(Seq<char>, Tree)>)
    ensures
        field_texts(fields).len() == fields.len(),
        forall|i: int|
            0 <= i < fields.len() ==> #[trigger] field_texts(fields)[i] == string_text(fields[i].0) + ":"@ + json_text(
                fields[i].1,
            ),
    decreases fields.len(),
{
    if fields.len() > 0 {
        lemma_field_texts(fields.drop_last());
    }
}

proof fn lemma_settled_items(items: Seq<Tree>)
    ensures
        settled_items(items).len() == items.len(),
        forall|i: int| 0 <= i < items.len() ==> #[trigger] settled_items(items)[i] == settled(items[i]),
    decreases items.len(),
{
    if items.len() > 0 {
        lemma_settled_items(items.drop_last());
    }
}

proof fn lemma_settled_fields(fields: Seq<(Seq<char>, Tree)>)
    ensures
        settled_fields(fields).len() == fields.len(),
        forall|i: int|
            0 <= i < fields.len() ==> #[trigger] settled_fields(fields)[i] == (fields[i].0, settled(fields[i].1)),
    decreases fields.len(),
{
    if fields.len() > 0 {
        lemma_settled_fields(fields.drop_last());
    }
}

/// Closes a JSON value up again.
pub(crate) fn fold(json: Json) -> (r: serde_json::Value)
    ensures
        value_tree(r) == settled(json.tree()),
    decreases json,
{
    proof {
        lemma_array_and_object(json);
    }
    let ghost whole = json.tree();
    match json {
        Json::Null => close(Layer::Null),
        Json::Bool(b) => close(Layer::Bool(b)),
        Json::Number(n) => close(Layer::Number(n)),
        Json::Text(s) => close(Layer::Text(s)),
        Json::Array(items) => {
            let ghost all = items@;
            let mut out: Vec<serde_json::Value> = Vec::new();
            for item in it: items
                invariant
                    json is Array,
                    json->Array_0@ == all,
                    it.seq() == all,
                    out@.len() == it.index(),
                    forall|i: int| 0 <= i < out@.len() ==> value_tree(#[trigger] out@[i]) == settled(all[i].tree()),
            {
                proof {
                    assert(decreases_to!(json => json->Array_0));
                    assert(decreases_to!(json->Array_0 => json->Array_0@));
                    assert(decreases_to!(json->Array_0@ => json->Array_0@[it.index()]));
                }
                out.push(fold(item));
            }
            let layer = Layer::Array(out);
            proof {
                lemma_settled_items(whole->Array_0);
                assert(layer.tree()->Array_0 =~= settled_items(whole->Array_0));
            }
            close(layer)
        },
        Json::Object(fields) => {
            let ghost all = fields@;
            let mut out: Vec<(String, serde_json::Value)> = Vec::new();
            for field in it: fields
                invariant
                    json is Object,
                    json->Object_0@ == all,
                    it.seq() == all,
                    out@.len() == it.index(),
                    forall|i: int|
                        0 <= i < out@.len() ==> (#[trigger] out@[i]).0@ == all[i].0@ && value_tree(out@[i].1)
                            == settled(all[i].1.tree()),
            {
                let (key, inner) = field;
                proof {
                    assert(decreases_to!(json => json->Object_0));
                    assert(decreases_to!(json->Object_0 => json->Object_0@));
                    assert(decreases_to!(json->Object_0@ => json->Object_0@[it.index()]));
                    assert(decreases_to!(json->Object_0@[it.index()] => json->Object_0@[it.index()].1));
                }
                out.push((key, fold(inner)));
            }
            let layer = Layer::Object(out);
            proof {
                lemma_settled_fields(whole->Object_0);
                assert(layer.tree()->Object_0 =~= settled_fields(whole->Object_0));
            }
            close(layer)
        },
    }
}

/// Looking a name up passes over a field of another name.
pub proof fn lemma_find_skips(
    before: Seq<(Seq<char>, Tree)>,
    extra: (Seq<char>, Tree),
    after: Seq<(Seq<char>, Tree)>,
    key: Seq<char>,
)
    requires
        extra.0 != key,
    ensures
        find(before + seq![extra] + after, key) == find(before + after, key),
    decreases before.len(),
{
    if before.len() == 0 {
        assert((before + seq![extra] + after).drop_first() =~= after);
        assert(before + after =~= after);
    } else {
        let rest = before.drop_first();
        lemma_find_skips(rest, extra, after, key);
        assert((before + seq![extra] + after).drop_first() =~= rest + seq![extra] + after);
        assert((before + after).drop_first() =~= rest + after);
    }
}

/// Whether a tree holds no object with two fields of the same name, and lists
/// and objects at most `depth` deep.
pub open spec fn orderly(tree: Tree, depth: nat) -> bool
    decreases depth,
{
    match tree {
        Tree::Array(items) => depth > 0 && forall|i: int|
            0 <= i < items.len() ==> orderly(#[trigger] items[i], (depth - 1) as nat),
        Tree::Object(fields) => depth > 0 && distinct(fields) && forall|i: int|
            0 <= i < fields.len() ==> orderly((#[trigger] fields[i]).1, (depth - 1) as nat),
        _ => true,
    }
}

/// A new name goes to the end.
proof fn lemma_set_new(fields: Seq<(Seq<char>, Tree)>, key: Seq<char>, value: Tree)
    requires
        forall|i: int| 0 <= i < fields.len() ==> (#[trigger] fields[i]).0 != key,
    ensures
        set(fields, key, value) == fields.push((key, value)),
    decreases fields.len(),
{
    if fields.len() > 0 {
        let rest = fields.drop_first();
        assert forall|i: int| 0 <= i < rest.len() implies (#[trigger] rest[i]).0 != key by {
            assert(rest[i] == fields[i + 1]);
        }
        lemma_set_new(rest, key, value);
        assert(seq![fields[0]] + rest.push((key, value)) =~= fields.push((key, value)));
    } else {
        assert(set(fields, key, value) =~= fields.push((key, value)));
    }
}

/// Fields of different names are left as they are.
proof fn lemma_merged_distinct(fields: Seq<(Seq<char>, Tree)>)
    requires
        distinct(fields),
    ensures
        merged(fields) == fields,
    decreases fields.len(),
{
    if fields.len() > 0 {
        let before = fields.drop_last();
        assert(distinct(before));
        lemma_merged_distinct(before);
        assert forall|i: int| 0 <= i < before.len() implies (#[trigger] before[i]).0 != fields.last().0 by {
            assert(fields[i].0 != fields[fields.len() - 1].0);
        }
        lemma_set_new(before, fields.last().0, fields.last().1);
        assert(before.push(fields.last()) =~= fields);
    } else {
        assert(merged(fields) =~= fields);
    }
}

/// An object whose own fields have different names keeps each of them, settled.
pub proof fn lemma_settled_object(fields: Seq<(Seq<char>, Tree)>)
    requires
        distinct(fields),
    ensures
        settled(Tree::Object(fields)) == Tree::Object(settled_fields(fields)),
        settled_fields(fields).len() == fields.len(),
        forall|i: int|
            0 <= i < fields.len() ==> #[trigger] settled_fields(fields)[i] == (fields[i].0, settled(fields[i].1)),
{
    let calm = settled_fields(fields);
    lemma_settled_fields(fields);
    assert(distinct(calm)) by {
        assert forall|i: int, j: int| 0 <= i < j < calm.len() implies (#[trigger] calm[i]).0 != (#[trigger] calm[j]).0 by {
            assert(fields[i].0 != fields[j].0);
        }
    }
    lemma_merged_distinct(calm);
}

/// A tree with no name used twice in an object is settled.
pub proof fn lemma_orderly(tree: Tree, depth: nat)
    requires
        orderly(tree, depth),
    ensures
        settled(tree) == tree,
    decreases depth,
{
    match tree {
        Tree::Array(items) => {
            lemma_settled_items(items);
            assert forall|i: int| 0 <= i < items.len() implies settled(#[trigger] items[i]) == items[i] by {
                lemma_orderly(items[i], (depth - 1) as nat);
            }
            assert(settled_items(items) =~= items);
        },
        Tree::Object(fields) => {
            lemma_settled_fields(fields);
            assert forall|i: int| 0 <= i < fields.len() implies settled((#[trigger] fields[i]).1) == fields[i].1 by {
                lemma_orderly(fields[i].1, (depth - 1) as nat);
            }
            assert(settled_fields(fields) =~= fields);
            lemma_merged_distinct(fields);
        },
        _ => {},
    }
}

/// Whether a tree holds no object with two fields of the same name.
pub open spec fn neat(tree: Tree) -> bool
    decreases tree,
{
    match tree {
        Tree::Array(items) => neat_items(items),
        Tree::Object(fields) => distinct(fields) && neat_fields(fields),
        _ => true,
    }
}

/// Whether each item is neat.
pub open spec fn neat_items(items: Seq<Tree>) -> bool
    decreases items,
{
    items.len() == 0 || (neat(items.last()) && neat_items(items.drop_last()))
}

/// Whether each field is neat.
pub open spec fn neat_fields(fields: Seq<(Seq<char>, Tree)>) -> bool
    decreases fields,
{
    fields.len() == 0 || (neat(fields.last().1) && neat_fields(fields.drop_last()))
}

proof fn lemma_neat_items(items: Seq<Tree>)
    ensures
        neat_items(items) == forall|i: int| 0 <= i < items.len() ==> neat(#[trigger] items[i]),
    decreases items.len(),
{
    if items.len() > 0 {
        let rest = items.drop_last();
        lemma_neat_items(rest);
        if neat_items(items) {
            assert forall|i: int| 0 <= i < items.len() implies neat(#[trigger] items[i]) by {
                if i < rest.len() {
                    assert(rest[i] == items[i]);
                }
            }
        }
        if forall|i: int| 0 <= i < items.len() ==> neat(#[trigger] items[i]) {
            assert forall|i: int| 0 <= i < rest.len() implies neat(#[trigger] rest[i]) by {
                assert(rest[i] == items[i]);
            }
            assert(neat(items[items.len() - 1]));
        }
    }
}

proof fn lemma_neat_fields(fields: Seq<(Seq<char>, Tree)>)
    ensures
        neat_fields(fields) == forall|i: int| 0 <= i < fields.len() ==> neat((#[trigger] fields[i]).1),
    decreases fields.len(),
{
    if fields.len() > 0 {
        let rest = fields.drop_last();
        lemma_neat_fields(rest);
        if neat_fields(fields) {
            assert forall|i: int| 0 <= i < fields.len() implies neat((#[trigger] fields[i]).1) by {
                if i < rest.len() {
                    assert(rest[i] == fields[i]);
                }
            }
        }
        if forall|i: int| 0 <= i < fields.len() ==> neat((#[trigger] fields[i]).1) {
            assert forall|i: int| 0 <= i < rest.len() implies neat((#[trigger] rest[i]).1) by {
                assert(rest[i] == fields[i]);
            }
            assert(neat(fields[fields.len() - 1].1));
        }
    }
}

/// A neat tree is settled.
pub proof fn lemma_neat(tree: Tree)
    requires
        neat(tree),
    ensures
        settled(tree) == tree,
    decreases tree,
{
    match tree {
        Tree::Array(items) => {
            lemma_settled_items(items);
            lemma_neat_items(items);
            assert forall|i: int| 0 <= i < items.len() implies settled(#[trigger] items[i]) == items[i] by {
                assert(decreases_to!(tree => tree->Array_0));
                assert(decreases_to!(items => items[i]));
                lemma_neat(items[i]);
            }
            assert(settled_items(items) =~= items);
        },
        Tree::Object(fields) => {
            lemma_settled_fields(fields);
            lemma_neat_fields(fields);
            assert forall|i: int| 0 <= i < fields.len() implies settled((#[trigger] fields[i]).1) == fields[i].1 by {
                assert(decreases_to!(tree => tree->Object_0));
                assert(decreases_to!(fields => fields[i]));
                assert(decreases_to!(fields[i] => fields[i].1));
                lemma_neat(fields[i].1);
            }
            assert(settled_fields(fields) =~= fields);
            lemma_merged_distinct(fields);
        },
        _ => {},
    }
}

/// A field of a neat object is neat.
pub proof fn lemma_neat_field(fields: Seq<(Seq<char>, Tree)>, key: Seq<char>)
    requires
        neat_fields(fields),
    ensures
        find(fields, key) matches Some(tree) ==> neat(tree),
    decreases fields.len(),
{
    lemma_neat_fields(fields);
    if fields.len() > 0 && fields[0].0 != key {
        let rest = fields.drop_first();
        assert forall|i: int| 0 <= i < rest.len() implies neat((#[trigger] rest[i]).1) by {
            assert(rest[i] == fields[i + 1]);
        }
        lemma_neat_fields(rest);
        lemma_neat_field(rest, key);
    }
}

/// A field is found by its name: the first that has it.
pub proof fn law_fields_are_found_by_name(name: Seq<char>, value: Tree, rest: Seq<(Seq<char>, Tree)>, key: Seq<char>)
    ensures
        find(seq![(name, value)] + rest, name) == Some(value),
        key != name ==> find(seq![(name, value)] + rest, key) == find(rest, key),
        find(Seq::<(Seq<char>, Tree)>::empty(), key) is None,
        Tree::Object(rest).field(key) == find(rest, key),
        find(rest, key) is Some ==> Tree::Object(rest).at(key) == find(rest, key)->0,
        find(rest, key) is None ==> Tree::Object(rest).at(key) == Tree::Null,
{
    let all = seq![(name, value)] + rest;
    assert(all[0] == (name, value));
    assert(all.drop_first() =~= rest);
}

/// Only an object has fields, only a list has items, only a string is one, and only
/// a number that is written in digits alone is a count: the one they spell.
pub proof fn law_what_trees_are(tree: Tree, key: Seq<char>, items: Seq<Tree>, i: int, n: nat, text: Seq<char>)
    ensures
        !(tree is Object) ==> tree.field(key) is None && tree.at(key) == Tree::Null,
        !(tree is Array) ==> tree.nth(i) == Tree::Null,
        0 <= i < items.len() ==> Tree::Array(items).nth(i) == items[i],
        i < 0 || i >= items.len() ==> Tree::Array(items).nth(i) == Tree::Null,
        !(tree is Text) ==> tree.string() is None,
        Tree::Text(text).string() == Some(text),
        !(tree is Number) ==> tree.count() is None,
        n <= u64::MAX ==> Tree::Number(decimal(n)).count() == Some(n),
        0 <= i < text.len() && !('0' <= text[i] <= '9') ==> Tree::Number(text).count() is None,
{
    crate::text::lemma_decimal(n);
}

/// Setting fields one after the other leaves each name with the last value that was
/// set for it.
pub proof fn law_the_last_value_counts(fields: Seq<(Seq<char>, Tree)>, name: Seq<char>, value: Tree, key: Seq<char>)
    ensures
        find(merged(fields.push((name, value))), name) == Some(value),
        key != name ==> find(merged(fields.push((name, value))), key) == find(merged(fields), key),
        merged(Seq::<(Seq<char>, Tree)>::empty()).len() == 0,
{
    assert(fields.push((name, value)).drop_last() =~= fields);
    lemma_find_set(merged(fields), name, value, key);
}

proof fn lemma_find_set(fields: Seq<(Seq<char>, Tree)>, name: Seq<char>, value: Tree, key: Seq<char>)
    ensures
        find(set(fields, name, value), name) == Some(value),
        key != name ==> find(set(fields, name, value), key) == find(fields, key),
    decreases fields.len(),
{
    if fields.len() == 0 {
        law_fields_are_found_by_name(name, value, fields, key);
        assert(seq![(name, value)] + fields =~= seq![(name, value)]);
    } else {
        let rest = fields.drop_first();
        assert(seq![fields[0]] + rest =~= fields);
        if fields[0].0 == name {
            law_fields_are_found_by_name(name, value, rest, key);
            law_fields_are_found_by_name(fields[0].0, fields[0].1, rest, key);
        } else {
            lemma_find_set(rest, name, value, key);
            let after = set(rest, name, value);
            law_fields_are_found_by_name(fields[0].0, fields[0].1, after, name);
            law_fields_are_found_by_name(fields[0].0, fields[0].1, after, key);
            law_fields_are_found_by_name(fields[0].0, fields[0].1, rest, key);
            assert(seq![fields[0]] + after =~= seq![(fields[0].0, fields[0].1)] + after);
        }
    }
}

/// How JSON is written: `null`, `true`, `false` and numbers as they are, strings in
/// quotation marks, lists in brackets and objects in braces, with commas between.
pub proof fn law_how_json_is_written(items: Seq<Tree>, fields: Seq<(Seq<char>, Tree)>, text: Seq<char>) -> (parts: (
    Seq<Seq<char>>,
    Seq<Seq<char>>,
))
    ensures
        json_text(Tree::Null) == "null"@,
        json_text(Tree::Bool(true)) == "true"@,
        json_text(Tree::Bool(false)) == "false"@,
        json_text(Tree::Number(text)) == text,
        plain(text) ==> json_text(Tree::Text(text)) == "\""@ + text + "\""@,
        json_text(Tree::Array(items)) == "["@ + join(parts.0, ","@) + "]"@,
        parts.0.len() == items.len(),
        forall|i: int| 0 <= i < items.len() ==> #[trigger] parts.0[i] == json_text(items[i]),
        json_text(Tree::Object(fields)) == "{"@ + join(parts.1, ","@) + "}"@,
        parts.1.len() == fields.len(),
        forall|i: int|
            0 <= i < fields.len() ==> #[trigger] parts.1[i] == json_text(Tree::Text(fields[i].0)) + ":"@ + json_text(
                fields[i].1,
            ),
{
    lemma_item_texts(items);
    lemma_field_texts(fields);
    (item_texts(items), field_texts(fields))
}

}
