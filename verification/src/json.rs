//! JSON documents as values that the library can read.

use vstd::prelude::*;
use crate::text::same_text;

verus! {

/// A JSON value. Of a number only its value as a signed 64-bit integer is kept.
pub enum Json {
    Null,
    Bool(bool),
    Number(Option<i64>),
    Text(String),
    List(Vec<Json>),
    Object(Vec<(String, Json)>),
}

/// What a JSON value says.
pub enum Tree {
    Null,
    Bool(bool),
    Number(Option<i64>),
    Text(Seq<char>),
    List(Seq<Tree>),
    Object(Seq<(Seq<char>, Tree)>),
}

/// What a value says.
pub open spec fn tree_of(json: Json) -> Tree
    decreases json,
{
    match json {
        Json::Null => Tree::Null,
        Json::Bool(flag) => Tree::Bool(flag),
        Json::Number(number) => Tree::Number(number),
        Json::Text(text) => Tree::Text(text@),
        Json::List(items) => Tree::List(
            Seq::new(
                items@.len(),
                |i: int|
                    if 0 <= i < items@.len() {
                        tree_of(items[i])
                    } else {
                        Tree::Null
                    },
            ),
        ),
        Json::Object(fields) => Tree::Object(
            Seq::new(
                fields@.len(),
                |i: int|
                    if 0 <= i < fields@.len() {
                        (fields[i].0@, tree_of(fields[i].1))
                    } else {
                        (Seq::empty(), Tree::Null)
                    },
            ),
        ),
    }
}

impl View for Json {
    type V = Tree;

    open spec fn view(&self) -> Tree {
        tree_of(*self)
    }
}

/// The value of the first field with this key.
pub open spec fn first_field(fields: Seq<(Seq<char>, Tree)>, key: Seq<char>) -> Option<Tree>
    decreases fields.len(),
{
    if fields.len() == 0 {
        None
    } else if fields[0].0 == key {
        Some(fields[0].1)
    } else {
        first_field(fields.skip(1), key)
    }
}

impl Tree {
    /// The value under `key`, if this is an object that has it.
    pub open spec fn field(self, key: Seq<char>) -> Option<Tree> {
        match self {
            Tree::Object(fields) => first_field(fields, key),
            _ => None,
        }
    }

    /// The text under `key`, if this is an object that has a text there.
    pub open spec fn text_field(self, key: Seq<char>) -> Option<Seq<char>> {
        match self.field(key) {
            Some(Tree::Text(text)) => Some(text),
            _ => None,
        }
    }

    /// The items of the list under `key`, if this is an object that has a list
    /// there.
    pub open spec fn list_field(self, key: Seq<char>) -> Option<Seq<Tree>> {
        match self.field(key) {
            Some(Tree::List(items)) => Some(items),
            _ => None,
        }
    }
}

/// The type of the values that `serde_json` reads.
#[verifier::external_type_specification]
#[verifier::external_body]
pub struct ExJsonValue(serde_json::Value);

/// What `serde_json::from_str` reads from a text: `None` where the text is not
/// one JSON value.
pub uninterp spec fn json_of(text: Seq<char>) -> Option<Tree>;

/// What a `serde_json::Value` holds.
pub uninterp spec fn value_tree(value: serde_json::Value) -> Tree;

/// Calls `serde_json::from_str`. Whether the text is JSON, and what it holds
/// then, is a function of the text.
#[verifier::external_body]
fn parse_value(text: &str) -> (parsed: Option<serde_json::Value>)
    ensures
        match parsed {
            Some(value) => json_of(text@) == Some(value_tree(value)),
            None => json_of(text@) is None,
        },
{
    serde_json::from_str(text).ok()
}

/// The outermost layer of a `serde_json::Value`.
pub enum Layer {
    Null,
    Bool(bool),
    Number(Option<i64>),
    Text(String),
    List(Vec<serde_json::Value>),
    Object(Vec<(String, serde_json::Value)>),
}

/// What a layer holds.
pub open spec fn layer_tree(layer: Layer) -> Tree {
    match layer {
        Layer::Null => Tree::Null,
        Layer::Bool(flag) => Tree::Bool(flag),
        Layer::Number(number) => Tree::Number(number),
        Layer::Text(text) => Tree::Text(text@),
        Layer::List(items) => Tree::List(items@.map_values(|v: serde_json::Value| value_tree(v))),
        Layer::Object(fields) => Tree::Object(
            fields@.map_values(|f: (String, serde_json::Value)| (f.0@, value_tree(f.1))),
        ),
    }
}

/// Takes one layer off a `serde_json::Value`, with `serde_json::Number::as_i64`
/// for a number. The layer holds what the value holds.
#[verifier::external_body]
fn take_layer(value: serde_json::Value) -> (layer: Layer)
    ensures
        layer_tree(layer) == value_tree(value),
{
    match value {
        serde_json::Value::Null => Layer::Null,
        serde_json::Value::Bool(flag) => Layer::Bool(flag),
        serde_json::Value::Number(number) => Layer::Number(number.as_i64()),
        serde_json::Value::String(text) => Layer::Text(text),
        serde_json::Value::Array(items) => Layer::List(items),
        serde_json::Value::Object(fields) => Layer::Object(fields.into_iter().collect()),
    }
}

fn json_from_value(value: serde_json::Value) -> (json: Json)
    ensures
        json@ == value_tree(value),
    decreases value_tree(value),
{
    let ghost tree = value_tree(value);
    match take_layer(value) {
        Layer::Null => Json::Null,
        Layer::Bool(flag) => Json::Bool(flag),
        Layer::Number(number) => Json::Number(number),
        Layer::Text(text) => Json::Text(text),
        Layer::List(items) => {
            let ghost all = items@;
            let mut rest = items;
            let mut back: Vec<Json> = Vec::new();
            while rest.len() > 0
                invariant
                    tree == value_tree(value),
                    tree == Tree::List(all.map_values(|v: serde_json::Value| value_tree(v))),
                    rest@ == all.take(rest@.len() as int),
                    back@.len() + rest@.len() == all.len(),
                    forall|i: int|
                        0 <= i < back@.len() ==> (#[trigger] back@[i])@ == value_tree(
                            all[all.len() - 1 - i],
                        ),
                decreases rest.len(),
            {
                let ghost n = rest@.len() - 1;
                let item = rest.pop();
                if let Some(v) = item {
                    assert(v == all[n]);
                    assert(tree->List_0[n] == value_tree(v));
                    assert(decreases_to!(tree => tree->List_0[n]));
                    back.push(json_from_value(v));
                }
                assert(rest@ =~= all.take(n));
            }
            let items = reversed(back);
            proof {
                lemma_list_view(items);
                assert(trees(items@) =~= tree->List_0);
            }
            Json::List(items)
        },
        Layer::Object(fields) => {
            let ghost all = fields@;
            let mut rest = fields;
            let mut back: Vec<(String, Json)> = Vec::new();
            while rest.len() > 0
                invariant
                    tree == value_tree(value),
                    tree == Tree::Object(
                        all.map_values(|f: (String, serde_json::Value)| (f.0@, value_tree(f.1))),
                    ),
                    rest@ == all.take(rest@.len() as int),
                    back@.len() + rest@.len() == all.len(),
                    forall|i: int|
                        0 <= i < back@.len() ==> (#[trigger] back@[i]).0 == all[all.len() - 1 - i].0
                            && back@[i].1@ == value_tree(all[all.len() - 1 - i].1),
                decreases rest.len(),
            {
                let ghost n = rest@.len() - 1;
                let field = rest.pop();
                if let Some((key, v)) = field {
                    assert(v == all[n].1);
                    assert(tree->Object_0[n] == (key@, value_tree(v)));
                    assert(decreases_to!(tree => tree->Object_0[n].1));
                    back.push((key, json_from_value(v)));
                }
                assert(rest@ =~= all.take(n));
            }
            let fields = reversed(back);
            proof {
                lemma_object_view(fields);
                assert(Json::Object(fields)@->Object_0 =~= tree->Object_0);
            }
            Json::Object(fields)
        },
    }
}

fn reversed<T>(list: Vec<T>) -> (out: Vec<T>)
    ensures
        out@ == list@.reverse(),
{
    let ghost all = list@;
    let mut rest = list;
    let mut out: Vec<T> = Vec::new();
    while rest.len() > 0
        invariant
            rest@ == all.take(rest@.len() as int),
            out@ == all.skip(rest@.len() as int).reverse(),
            rest@.len() <= all.len(),
        decreases rest.len(),
    {
        let ghost n = rest@.len() - 1;
        let item = rest.pop();
        if let Some(x) = item {
            out.push(x);
        }
        assert(rest@ =~= all.take(n));
        assert(out@ =~= all.skip(n).reverse());
    }
    assert(all.skip(0) =~= all);
    out
}

/// Reads a text as one JSON value.
pub fn parse_json(text: &str) -> (parsed: Option<Json>)
    ensures
        match parsed {
            Some(json) => json_of(text@) == Some(json@),
            None => json_of(text@) is None,
        },
{
    match parse_value(text) {
        Some(value) => Some(json_from_value(value)),
        None => None,
    }
}

proof fn lemma_object_view(fields: Vec<(String, Json)>)
    ensures
        Json::Object(fields)@ matches Tree::Object(all) && all.len() == fields@.len() && forall|j: int|
            0 <= j < all.len() ==> #[trigger] all[j] == (fields@[j].0@, fields@[j].1@),
{
    reveal_with_fuel(tree_of, 2);
}

proof fn lemma_list_view(items: Vec<Json>)
    ensures
        Json::List(items)@ == Tree::List(trees(items@)),
{
    reveal_with_fuel(tree_of, 2);
    assert(Json::List(items)@->List_0 =~= trees(items@));
}

impl Json {
    /// The value under `key`, if this is an object that has it.
    pub fn get(&self, key: &str) -> (found: Option<&Json>)
        ensures
            match found {
                Some(json) => self@.field(key@) == Some(json@),
                None => self@.field(key@) is None,
            },
    {
        match self {
            Json::Object(fields) => {
                proof {
                    lemma_object_view(*fields);
                }
                let ghost all = self@->Object_0;
                let mut i: usize = 0;
                assert(all.skip(0) =~= all);
                while i < fields.len()
                    invariant
                        i <= fields@.len(),
                        self@ == Tree::Object(all),
                        all.len() == fields@.len(),
                        forall|j: int|
                            0 <= j < all.len() ==> #[trigger] all[j] == (fields@[j].0@, fields@[j].1@),
                        first_field(all, key@) == first_field(all.skip(i as int), key@),
                    decreases fields.len() - i,
                {
                    assert(all.skip(i as int)[0] == all[i as int]);
                    assert(all.skip(i as int).skip(1) =~= all.skip(i + 1));
                    if same_text(&fields[i].0, key) {
                        return Some(&fields[i].1);
                    }
                    i += 1;
                }
                None
            },
            _ => None,
        }
    }

    /// The text, if this is one.
    pub fn as_str(&self) -> (text: Option<&str>)
        ensures
            match text {
                Some(t) => self@ == Tree::Text(t@),
                None => !(self@ is Text),
            },
    {
        match self {
            Json::Text(text) => Some(text.as_str()),
            _ => None,
        }
    }

    /// The items, if this is a list.
    pub fn as_array(&self) -> (items: Option<&Vec<Json>>)
        ensures
            match items {
                Some(v) => self@ == Tree::List(trees(v@)),
                None => !(self@ is List),
            },
    {
        match self {
            Json::List(items) => {
                proof {
                    lemma_list_view(*items);
                }
                Some(items)
            },
            _ => None,
        }
    }

    /// The number, if this is one that fits a signed 64-bit integer.
    pub fn as_i64(&self) -> (number: Option<i64>)
        ensures
            number == match self@ {
                Tree::Number(n) => n,
                _ => None,
            },
    {
        match self {
            Json::Number(number) => *number,
            _ => None,
        }
    }

    /// The text under `key`, if this is an object that has a text there.
    pub fn get_str(&self, key: &str) -> (text: Option<&str>)
        ensures
            match text {
                Some(t) => self@.text_field(key@) == Some(t@),
                None => self@.text_field(key@) is None,
            },
    {
        match self.get(key) {
            Some(json) => json.as_str(),
            None => None,
        }
    }

    /// The items of the list under `key`, if this is an object that has a list
    /// there.
    pub fn get_array(&self, key: &str) -> (items: Option<&Vec<Json>>)
        ensures
            match items {
                Some(v) => self@.list_field(key@) == Some(trees(v@)),
                None => self@.list_field(key@) is None,
            },
    {
        match self.get(key) {
            Some(json) => json.as_array(),
            None => None,
        }
    }
}

/// What the values of a list say.
pub open spec fn trees(items: Seq<Json>) -> Seq<Tree> {
    items.map_values(|json: Json| json@)
}

} // verus!
