//! JSON values as plain data.

use crate::text;
use crate::text::same_text;
use vstd::prelude::*;

verus! {

/// A JSON value. Of a number the crate keeps whether it is an unsigned integer
/// that fits 64 bits, and which.
#[derive(Debug)]
pub enum Json {
    Null,
    Bool(bool),
    Number(Option<u64>),
    Text(String),
    List(Vec<Json>),
    Object(Vec<(String, Json)>),
}

/// What a [`Json`] value means.
pub ghost enum JsonTree {
    Null,
    Bool(bool),
    Number(Option<u64>),
    Text(Seq<char>),
    List(Seq<JsonTree>),
    Object(Seq<(Seq<char>, JsonTree)>),
}

/// What `value` means.
pub open spec fn tree(value: Json) -> JsonTree
    decreases value,
{
    match value {
        Json::Null => JsonTree::Null,
        Json::Bool(b) => JsonTree::Bool(b),
        Json::Number(n) => JsonTree::Number(n),
        Json::Text(s) => JsonTree::Text(s@),
        Json::List(items) => JsonTree::List(trees(items@)),
        Json::Object(members) => JsonTree::Object(member_trees(members@)),
    }
}

/// What each of `items` means.
pub open spec fn trees(items: Seq<Json>) -> Seq<JsonTree>
    decreases items,
{
    if items.len() == 0 {
        Seq::empty()
    } else {
        trees(items.drop_last()).push(tree(items.last()))
    }
}

/// What each of `members` means.
pub open spec fn member_trees(members: Seq<(String, Json)>) -> Seq<(Seq<char>, JsonTree)>
    decreases members,
{
    if members.len() == 0 {
        Seq::empty()
    } else {
        member_trees(members.drop_last()).push((members.last().0@, tree(members.last().1)))
    }
}

impl View for Json {
    type V = JsonTree;

    open spec fn view(&self) -> JsonTree {
        tree(*self)
    }
}

pub proof fn lemma_trees(items: Seq<Json>)
    ensures
        trees(items).len() == items.len(),
        forall|i: int| 0 <= i < items.len() ==> #[trigger] trees(items)[i] == tree(items[i]),
    decreases items.len(),
{
    if items.len() > 0 {
        lemma_trees(items.drop_last());
    }
}

pub proof fn lemma_member_trees(members: Seq<(String, Json)>)
    ensures
        member_trees(members).len() == members.len(),
        forall|i: int|
            0 <= i < members.len() ==> #[trigger] member_trees(members)[i] == (
                members[i].0@,
                tree(members[i].1),
            ),
    decreases members.len(),
{
    if members.len() > 0 {
        lemma_member_trees(members.drop_last());
    }
}

/// The value of the first member of an object that is called `key`.
pub open spec fn find(members: Seq<(Seq<char>, JsonTree)>, key: Seq<char>) -> Option<JsonTree>
    decreases members.len(),
{
    if members.len() == 0 {
        None
    } else if members[0].0 == key {
        Some(members[0].1)
    } else {
        find(members.drop_first(), key)
    }
}

impl JsonTree {
    /// The member `key` of an object; nothing of any other value.
    pub open spec fn member(self, key: Seq<char>) -> Option<JsonTree> {
        match self {
            JsonTree::Object(members) => find(members, key),
            _ => None,
        }
    }

    /// The member `key`, where it is a text.
    pub open spec fn text_at(self, key: Seq<char>) -> Option<Seq<char>> {
        match self.member(key) {
            Some(JsonTree::Text(s)) => Some(s),
            _ => None,
        }
    }

    /// The member `key`, where it is an unsigned integer.
    pub open spec fn count_at(self, key: Seq<char>) -> Option<u64> {
        match self.member(key) {
            Some(JsonTree::Number(n)) => n,
            _ => None,
        }
    }

    /// The member `key`, where it is there and either null or a text.
    pub open spec fn nullable_text_at(self, key: Seq<char>) -> Option<Option<Seq<char>>> {
        match self.member(key) {
            Some(JsonTree::Null) => Some(None),
            Some(JsonTree::Text(s)) => Some(Some(s)),
            _ => None,
        }
    }

    /// The member `key`, where it is there and either null or an unsigned integer.
    pub open spec fn nullable_count_at(self, key: Seq<char>) -> Option<Option<u64>> {
        match self.member(key) {
            Some(JsonTree::Null) => Some(None),
            Some(JsonTree::Number(Some(n))) => Some(Some(n)),
            _ => None,
        }
    }
}

impl Json {
    /// The member `key` of an object; nothing of any other value.
    pub fn get(&self, key: &str) -> (r: Option<&Json>)
        ensures
            match r {
                Some(value) => self@.member(key@) == Some(value@),
                None => self@.member(key@) is None,
            },
    {
        match self {
            Json::Object(members) => {
                let ghost all = self@->Object_0;
                proof {
                    lemma_member_trees(members@);
                }
                let mut i: usize = 0;
                assert(all.skip(0) == all);
                while i < members.len()
                    invariant
                        i <= members@.len() == all.len(),
                        self@ == JsonTree::Object(all),
                        forall|j: int|
                            0 <= j < all.len() ==> (#[trigger] all[j]) == (
                                members@[j].0@,
                                members@[j].1@,
                            ),
                        find(all.skip(i as int), key@) == find(all, key@),
                    decreases members@.len() - i,
                {
                    assert(all.skip(i as int)[0] == all[i as int]);
                    assert(all.skip(i as int).drop_first() == all.skip(i + 1));
                    if same_text(members[i].0.as_str(), key) {
                        return Some(&members[i].1);
                    }
                    i += 1;
                }
                None
            },
            _ => None,
        }
    }

    /// The text of a text.
    pub fn as_str(&self) -> (r: Option<&str>)
        ensures
            match r {
                Some(s) => self@ == JsonTree::Text(s@),
                None => !(self@ is Text),
            },
    {
        match self {
            Json::Text(s) => Some(s.as_str()),
            _ => None,
        }
    }

    /// The value of an unsigned integer.
    pub fn as_u64(&self) -> (r: Option<u64>)
        ensures
            r == (match self@ {
                JsonTree::Number(n) => n,
                _ => None,
            }),
    {
        match self {
            Json::Number(n) => *n,
            _ => None,
        }
    }

    /// Whether the value is null.
    pub fn is_null(&self) -> (r: bool)
        ensures
            r == (self@ is Null),
    {
        match self {
            Json::Null => true,
            _ => false,
        }
    }

    /// Whether the value is an object.
    pub fn is_object(&self) -> (r: bool)
        ensures
            r == (self@ is Object),
    {
        match self {
            Json::Object(_) => true,
            _ => false,
        }
    }
}

#[verifier::external_type_specification]
#[verifier::external_body]
pub struct ExValue(serde_json::Value);

#[verifier::external_type_specification]
#[verifier::external_body]
pub struct ExError(serde_json::Error);

/// What `serde_json` reads from a text: the value it stands for, or nothing where
/// the text is not JSON.
pub uninterp spec fn json_of_text(text: Seq<char>) -> Option<JsonTree>;

/// The JSON value that a line stands for. How many carriage returns end it makes no
/// difference.
pub open spec fn json_of_line(line: Seq<char>) -> Option<JsonTree> {
    json_of_text(text::bare(line))
}

/// What a value of `serde_json` holds.
pub uninterp spec fn json_of_value(value: serde_json::Value) -> JsonTree;

/// `serde_json::from_str`, asked for a value of any shape. It fails exactly where
/// the text is not JSON, and otherwise returns what the text stands for. It passes over
/// white space after the value, so carriage returns at the end of the text make no
/// difference.
#[verifier::external_body]
fn value_from_str(text: &str) -> (r: Result<serde_json::Value, serde_json::Error>)
    ensures
        match r {
            Ok(value) => json_of_text(text@) == Some(json_of_value(value)) && json_of_text(
                text::bare(text@),
            ) == Some(json_of_value(value)),
            Err(_) => json_of_text(text@) is None && json_of_text(text::bare(text@)) is None,
        },
{
    serde_json::from_str::<serde_json::Value>(text)
}

/// One level of a value of `serde_json`.
enum Node {
    Null,
    Bool(bool),
    Number(Option<u64>),
    Text(String),
    List(Vec<serde_json::Value>),
    Object(Vec<(String, serde_json::Value)>),
}

/// What one level of a value means.
spec fn node_tree(node: Node) -> JsonTree {
    match node {
        Node::Null => JsonTree::Null,
        Node::Bool(b) => JsonTree::Bool(b),
        Node::Number(n) => JsonTree::Number(n),
        Node::Text(s) => JsonTree::Text(s@),
        Node::List(items) => JsonTree::List(
            Seq::new(items@.len(), |i: int| json_of_value(items@[i])),
        ),
        Node::Object(members) => JsonTree::Object(
            Seq::new(members@.len(), |i: int| (members@[i].0@, json_of_value(members@[i].1))),
        ),
    }
}

/// The variants of `serde_json::Value`, one for one. A number is kept as
/// `serde_json::Number::as_u64` gives it; the members of an object come as
/// `serde_json::Map` hands them out, each key once.
#[verifier::external_body]
fn value_node(value: serde_json::Value) -> (node: Node)
    ensures
        node_tree(node) == json_of_value(value),
{
    match value {
        serde_json::Value::Null => Node::Null,
        serde_json::Value::Bool(b) => Node::Bool(b),
        serde_json::Value::Number(n) => Node::Number(n.as_u64()),
        serde_json::Value::String(s) => Node::Text(s),
        serde_json::Value::Array(items) => Node::List(items),
        serde_json::Value::Object(members) => Node::Object(members.into_iter().collect()),
    }
}

/// `value` as plain data.
fn value_tree(value: serde_json::Value) -> (r: Json)
    ensures
        r@ == json_of_value(value),
    decreases json_of_value(value),
{
    let ghost whole = json_of_value(value);
    match value_node(value) {
        Node::Null => Json::Null,
        Node::Bool(b) => Json::Bool(b),
        Node::Number(n) => Json::Number(n),
        Node::Text(s) => Json::Text(s),
        Node::List(items) => {
            let ghost all = items@;
            let mut out: Vec<Json> = Vec::new();
            for item in it: items
                invariant
                    it.seq() == all,
                    whole == JsonTree::List(
                        Seq::new(all.len(), |i: int| json_of_value(all[i])),
                    ),
                    json_of_value(value) == whole,
                    out@.len() == it.index(),
                    forall|i: int|
                        0 <= i < out@.len() ==> (#[trigger] out@[i])@ == json_of_value(all[i]),
            {
                assert(whole->List_0[it.index()] == json_of_value(item));
                out.push(value_tree(item));
            }
            let list = Json::List(out);
            proof {
                lemma_trees(out@);
            }
            assert(list@->List_0 == whole->List_0);
            list
        },
        Node::Object(members) => {
            let ghost all = members@;
            let mut out: Vec<(String, Json)> = Vec::new();
            for member in it: members
                invariant
                    it.seq() == all,
                    whole == JsonTree::Object(
                        Seq::new(all.len(), |i: int| (all[i].0@, json_of_value(all[i].1))),
                    ),
                    json_of_value(value) == whole,
                    out@.len() == it.index(),
                    forall|i: int|
                        0 <= i < out@.len() ==> (#[trigger] out@[i]).0@ == all[i].0@ && out@[i].1@
                            == json_of_value(all[i].1),
            {
                assert(whole->Object_0[it.index()].1 == json_of_value(member.1));
                let (key, inner) = member;
                out.push((key, value_tree(inner)));
            }
            let object = Json::Object(out);
            proof {
                lemma_member_trees(out@);
            }
            assert(object@->Object_0 == whole->Object_0);
            object
        },
    }
}

/// The JSON value that `text` stands for, or nothing where it is not JSON.
pub fn parse_json(text: &str) -> (r: Option<Json>)
    ensures
        match r {
            Some(value) => json_of_text(text@) == Some(value@) && json_of_line(text@) == Some(
                value@,
            ),
            None => json_of_text(text@) is None && json_of_line(text@) is None,
        },
{
    match value_from_str(text) {
        Ok(value) => Some(value_tree(value)),
        Err(_) => None,
    }
}

} // verus!
