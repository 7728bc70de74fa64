//! JSON documents. Reading and writing JSON text is done by `serde_json`; the
//! library works on its own tree, [`Json`], which holds what a
//! `serde_json::Value` holds.

use vstd::prelude::*;
use crate::text::same_text;

verus! {

/// `serde_json::Value`, carried through as it is: nothing of what it holds is
/// seen here.
#[verifier::external_type_specification]
#[verifier::external_body]
pub struct ExValue(serde_json::Value);

/// `serde_json::Number`, carried through as it is: nothing of what it holds is
/// seen here.
#[verifier::external_type_specification]
#[verifier::external_body]
pub struct ExNumber(serde_json::Number);

/// A JSON document as a tree. An object holds its members in order; where a
/// key occurs more than once, the last occurrence counts.
#[derive(Debug)]
pub enum Json {
    Null,
    Bool(bool),
    Number(serde_json::Number),
    Text(String),
    Array(Vec<Json>),
    Object(Vec<(String, Json)>),
}

/// The derived `Clone` of `serde_json::Number`: the clone equals the number.
pub assume_specification[ <serde_json::Number as Clone>::clone ](
    number: &serde_json::Number,
) -> (out: serde_json::Number)
    ensures
        out == *number,
;

impl Clone for Json {
    fn clone(&self) -> (out: Json)
        decreases self,
    {
        match self {
            Json::Null => Json::Null,
            Json::Bool(flag) => Json::Bool(*flag),
            Json::Number(number) => Json::Number(number.clone()),
            Json::Text(text) => Json::Text(text.clone()),
            Json::Array(items) => {
                let mut out: Vec<Json> = Vec::new();
                let mut i: usize = 0;
                while i < items.len()
                    invariant
                        i <= items.len(),
                        *self == Json::Array(*items),
                    decreases items.len() - i,
                {
                    proof {
                        assert(decreases_to!(*self => self->Array_0));
                        assert(decreases_to!(*items => items[i as int]));
                    }
                    out.push(items[i].clone());
                    i += 1;
                }
                Json::Array(out)
            },
            Json::Object(members) => {
                let mut out: Vec<(String, Json)> = Vec::new();
                let mut i: usize = 0;
                while i < members.len()
                    invariant
                        i <= members.len(),
                        *self == Json::Object(*members),
                    decreases members.len() - i,
                {
                    proof {
                        assert(decreases_to!(*self => self->Object_0));
                        assert(decreases_to!(*members => members[i as int]));
                        assert(decreases_to!(members[i as int] => members[i as int].1));
                    }
                    out.push((members[i].0.clone(), members[i].1.clone()));
                    i += 1;
                }
                Json::Object(out)
            },
        }
    }
}

/// What `serde_json::from_str` gives for a text: the value it parses to, or
/// nothing where the text is no JSON document.
pub uninterp spec fn parsed_value(text: Seq<char>) -> Option<serde_json::Value>;

/// What a `serde_json::Value` holds, as a tree.
pub uninterp spec fn value_tree(value: serde_json::Value) -> Json;

/// The `serde_json::Value` that holds a tree.
pub uninterp spec fn tree_value(tree: Json) -> serde_json::Value;

/// What `serde_json::to_string_pretty` writes for a value.
pub uninterp spec fn pretty_text(value: serde_json::Value) -> Seq<char>;

/// The text that `serde_json::Number` displays as.
pub uninterp spec fn number_text(number: serde_json::Number) -> Seq<char>;

/// `serde_json::from_str` at type `serde_json::Value`: parses a JSON text. The
/// contract names the value; the error is handed on as its message.
#[verifier::external_body]
pub(crate) fn parse_value(text: &str) -> (out: Result<serde_json::Value, String>)
    ensures
        out is Ok <==> parsed_value(text@) is Some,
        out matches Ok(value) ==> parsed_value(text@) == Some(value),
{
    serde_json::from_str::<serde_json::Value>(text).map_err(|e| e.to_string())
}

/// Takes a `serde_json::Value` apart, one arm for each of its variants, and
/// moves what it holds into a `Json`; the members of an object come in the
/// order in which its map hands them out. The contract names the tree.
#[verifier::external_body]
pub(crate) fn tree_of(value: serde_json::Value) -> (out: Json)
    ensures
        out == value_tree(value),
{
    match value {
        serde_json::Value::Null => Json::Null,
        serde_json::Value::Bool(flag) => Json::Bool(flag),
        serde_json::Value::Number(number) => Json::Number(number),
        serde_json::Value::String(text) => Json::Text(text),
        serde_json::Value::Array(items) => Json::Array(items.into_iter().map(tree_of).collect()),
        serde_json::Value::Object(map) => Json::Object(
            map.into_iter().map(|(key, item)| (key, tree_of(item))).collect(),
        ),
    }
}

/// Builds the `serde_json::Value` that holds a tree, one arm for each variant;
/// the members of an object are collected into its map. The contract names the
/// value.
#[verifier::external_body]
pub(crate) fn value_of(tree: Json) -> (out: serde_json::Value)
    ensures
        out == tree_value(tree),
{
    match tree {
        Json::Null => serde_json::Value::Null,
        Json::Bool(flag) => serde_json::Value::Bool(flag),
        Json::Number(number) => serde_json::Value::Number(number),
        Json::Text(text) => serde_json::Value::String(text),
        Json::Array(items) => serde_json::Value::Array(items.into_iter().map(value_of).collect()),
        Json::Object(members) => serde_json::Value::Object(
            members.into_iter().map(|(key, item)| (key, value_of(item))).collect(),
        ),
    }
}

/// `serde_json::to_string_pretty` on a `Value`: never fails, as it writes into memory, `Value`
/// serializes without failing of itself and its maps have string keys. The text is only named.
#[verifier::external_body]
pub(crate) fn pretty(value: &serde_json::Value) -> (out: Result<String, String>)
    ensures
        out is Ok && out->Ok_0@ == pretty_text(*value),
{
    serde_json::to_string_pretty(value).map_err(|e| e.to_string())
}

/// The `Display` of `serde_json::Number`: the number as decimal text. The
/// contract only names the text.
#[verifier::external_body]
pub(crate) fn number_string(number: &serde_json::Number) -> (out: String)
    ensures
        out@ == number_text(*number),
{
    number.to_string()
}

/// The tree that a JSON text parses to, or nothing where the text is no JSON
/// document.
pub open spec fn parsed(text: Seq<char>) -> Option<Json> {
    match parsed_value(text) {
        Some(value) => Some(value_tree(value)),
        None => None,
    }
}

/// The indented JSON text of a tree.
pub open spec fn written(tree: Json) -> Seq<char> {
    pretty_text(tree_value(tree))
}

/// Parses a JSON text into a tree. The error carries the parser's message.
pub fn parse_json(text: &str) -> (out: Result<Json, String>)
    ensures
        out is Ok <==> parsed(text@) is Some,
        out matches Ok(tree) ==> parsed(text@) == Some(tree),
{
    match parse_value(text) {
        Ok(value) => Ok(tree_of(value)),
        Err(message) => Err(message),
    }
}

/// Writes a tree as indented JSON text. Every tree can be written: the
/// result is never an error.
pub fn write_json(tree: Json) -> (out: Result<String, String>)
    ensures
        out matches Ok(text) && text@ == written(tree),
{
    let value = value_of(tree);
    pretty(&value)
}

/// The value of the member `key` among `members`: that of the last member with
/// this key.
pub open spec fn member(members: Seq<(String, Json)>, key: Seq<char>) -> Option<Json>
    decreases members.len(),
{
    if members.len() == 0 {
        None
    } else if members.last().0@ == key {
        Some(members.last().1)
    } else {
        member(members.drop_last(), key)
    }
}

/// The position of the last member with key `key`, if there is one.
pub open spec fn member_index(members: Seq<(String, Json)>, key: Seq<char>) -> Option<int>
    decreases members.len(),
{
    if members.len() == 0 {
        None
    } else if members.last().0@ == key {
        Some(members.len() - 1)
    } else {
        member_index(members.drop_last(), key)
    }
}

/// `member_index` gives a position that holds the key, and `member` is the
/// value at that position.
pub proof fn lemma_member_index(members: Seq<(String, Json)>, key: Seq<char>)
    ensures
        member_index(members, key) matches Some(i) ==> 0 <= i < members.len() && members[i].0@
            == key && member(members, key) == Some(members[i].1) && forall|j: int|
            i < j < members.len() ==> (#[trigger] members[j]).0@ != key,
        member_index(members, key) is None ==> member(members, key) is None,
        member_index(members, key) is None <==> forall|i: int|
            0 <= i < members.len() ==> (#[trigger] members[i]).0@ != key,
    decreases members.len(),
{
    if members.len() > 0 {
        let front = members.drop_last();
        lemma_member_index(front, key);
        if members.last().0@ != key {
            assert forall|i: int| 0 <= i < front.len() implies front[i] == members[i] by {}
            if member_index(front, key) is None {
                assert forall|i: int| 0 <= i < members.len() implies (#[trigger] members[i]).0@
                    != key by {
                    if i < front.len() {
                        assert(front[i] == members[i]);
                    }
                }
            } else {
                let i = member_index(front, key)->0;
                assert(members[i] == front[i]);
                assert forall|j: int| i < j < members.len() implies (#[trigger] members[j]).0@
                    != key by {
                    if j < front.len() {
                        assert(front[j] == members[j]);
                    }
                }
            }
        }
    }
}

impl Json {
    /// The value of the field `key`, where this is an object that has it.
    pub open spec fn spec_field(self, key: Seq<char>) -> Option<Json> {
        match self {
            Json::Object(members) => member(members@, key),
            _ => None,
        }
    }

    /// The value of the field `key`, where this is an object that has it.
    #[verifier::loop_isolation(false)]
    pub fn field(&self, key: &str) -> (out: Option<&Json>)
        ensures
            out matches Some(value) ==> self.spec_field(key@) == Some(*value),
            out is None ==> self.spec_field(key@) is None,
    {
        match self {
            Json::Object(members) => {
                let mut i: usize = members.len();
                assert(members@.take(i as int) =~= members@);
                while i > 0
                    invariant
                        i <= members.len(),
                        member(members@, key@) == member(members@.take(i as int), key@),
                    decreases i,
                {
                    let ghost upto = members@.take(i as int);
                    assert(upto.last() == members@[i - 1]);
                    assert(upto.drop_last() =~= members@.take(i - 1));
                    if same_text(members[i - 1].0.as_str(), key) {
                        return Some(&members[i - 1].1);
                    }
                    i -= 1;
                }
                None
            },
            _ => None,
        }
    }

    /// Whether this tree can take a field: it is an object or `null`.
    pub open spec fn takes_fields(self) -> bool {
        self is Object || self is Null
    }

    /// The members that this tree has as an object; `null` has none.
    pub open spec fn members(self) -> Seq<(String, Json)> {
        match self {
            Json::Object(members) => members@,
            _ => seq![],
        }
    }

    /// `after` is this tree with the field `key` set to `value`: an object that
    /// holds the value in place of the member with that key, or as a new last
    /// member where no member has the key, and every other member as before.
    pub open spec fn sets_field(self, key: Seq<char>, value: Json, after: Json) -> bool {
        &&& self.takes_fields()
        &&& after is Object
        &&& match member_index(self.members(), key) {
            Some(i) => {
                &&& after.members().len() == self.members().len()
                &&& after.members()[i].0@ == key
                &&& after.members()[i].1 == value
                &&& forall|k: int|
                    0 <= k < self.members().len() && k != i ==> #[trigger] after.members()[k]
                        == self.members()[k]
            },
            None => {
                &&& after.members().len() == self.members().len() + 1
                &&& after.members().last().0@ == key
                &&& after.members().last().1 == value
                &&& forall|k: int|
                    0 <= k < self.members().len() ==> #[trigger] after.members()[k]
                        == self.members()[k]
            },
        }
    }

    /// Sets the field `key` to `value`. Gives the tree back unchanged, as the
    /// error, where it is neither an object nor `null`.
    #[verifier::loop_isolation(false)]
    pub fn with_field(self, key: String, value: Json) -> (out: Result<Json, Json>)
        ensures
            self.takes_fields() ==> (out matches Ok(after) && self.sets_field(key@, value, after)),
            !self.takes_fields() ==> out == Err::<Json, Json>(self),
    {
        match self {
            Json::Object(members) => {
                let mut members = members;
                let ghost before = members@;
                let mut i: usize = members.len();
                assert(before.take(i as int) =~= before);
                while i > 0
                    invariant
                        i <= members.len(),
                        members@ == before,
                        member_index(before, key@) == member_index(before.take(i as int), key@),
                    decreases i,
                {
                    let ghost upto = before.take(i as int);
                    assert(upto.last() == before[i - 1]);
                    assert(upto.drop_last() =~= before.take(i - 1));
                    if same_text(members[i - 1].0.as_str(), key.as_str()) {
                        assert(member_index(before, key@) == Some(i - 1));
                        members.set(i - 1, (key, value));
                        return Ok(Json::Object(members));
                    }
                    i -= 1;
                }
                assert(member_index(before, key@) is None);
                members.push((key, value));
                Ok(Json::Object(members))
            },
            Json::Null => {
                let mut members: Vec<(String, Json)> = Vec::new();
                members.push((key, value));
                Ok(Json::Object(members))
            },
            other => Err(other),
        }
    }
}

/// After a field is set it reads as the value it was set to, and every other
/// field reads as before.
pub proof fn lemma_set_field_reads_back(
    tree: Json,
    key: Seq<char>,
    value: Json,
    after: Json,
    other: Seq<char>,
)
    requires
        tree.sets_field(key, value, after),
    ensures
        after.spec_field(key) == Some(value),
        other != key ==> after.spec_field(other) == tree.spec_field(other),
{
    let old_members = tree.members();
    let new_members = after.members();
    lemma_member_index(old_members, key);
    lemma_member_index(old_members, other);
    match member_index(old_members, key) {
        Some(i) => {
            assert forall|j: int| i < j < new_members.len() implies (#[trigger] new_members[j]).0@
                != key by {
                assert(new_members[j] == old_members[j]);
            }
            lemma_member_at(new_members, key, i);
            if other != key {
                match member_index(old_members, other) {
                    Some(k) => {
                        assert(new_members[k] == old_members[k]);
                        assert forall|j: int| k < j < new_members.len() implies (#[trigger] new_members[j]).0@
                            != other by {
                            if j != i {
                                assert(new_members[j] == old_members[j]);
                            }
                        }
                        lemma_member_at(new_members, other, k);
                    },
                    None => {
                        assert forall|j: int| 0 <= j < new_members.len() implies (#[trigger] new_members[j]).0@
                            != other by {
                            if j != i {
                                assert(new_members[j] == old_members[j]);
                            }
                        }
                        lemma_member_index(new_members, other);
                    },
                }
            }
        },
        None => {
            let last = new_members.len() - 1;
            lemma_member_at(new_members, key, last);
            if other != key {
                match member_index(old_members, other) {
                    Some(k) => {
                        assert(new_members[k] == old_members[k]);
                        assert forall|j: int| k < j < new_members.len() implies (#[trigger] new_members[j]).0@
                            != other by {
                            if j != last {
                                assert(new_members[j] == old_members[j]);
                            }
                        }
                        lemma_member_at(new_members, other, k);
                    },
                    None => {
                        assert forall|j: int| 0 <= j < new_members.len() implies (#[trigger] new_members[j]).0@
                            != other by {
                            if j != last {
                                assert(new_members[j] == old_members[j]);
                            }
                        }
                        lemma_member_index(new_members, other);
                    },
                }
            }
        },
    }
}

/// `member` reads the value at `at` where that position holds the key and no
/// later position does.
pub proof fn lemma_member_at(members: Seq<(String, Json)>, key: Seq<char>, at: int)
    requires
        0 <= at < members.len(),
        members[at].0@ == key,
        forall|j: int| at < j < members.len() ==> (#[trigger] members[j]).0@ != key,
    ensures
        member(members, key) == Some(members[at].1),
        member_index(members, key) == Some(at),
    decreases members.len(),
{
    if at < members.len() - 1 {
        let front = members.drop_last();
        assert(members[members.len() - 1].0@ != key);
        assert(front[at] == members[at]);
        assert forall|j: int| at < j < front.len() implies (#[trigger] front[j]).0@ != key by {
            assert(front[j] == members[j]);
        }
        lemma_member_at(front, key, at);
    }
}

} // verus!
