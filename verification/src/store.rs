//! Favorites and presets as JSON documents.
//!
//! Favorites are kept as `{ "favorites": [name, ..] }`. Presets are kept as
//! `{ "default": name or null, "presets": { name: { "packages": [..],
//! "houdini": version, "avatar": text or null, "avatar_path": text or null } } }`.
//! A document of another shape is read as an empty one.

use vstd::prelude::*;
use crate::json::{lemma_member_at, member, parse_json, parsed, write_json, written, Json};
use crate::models::{
    preset_views, FavoritesFile, PresetData, PresetView, PresetsFile, PresetsView,
};
use crate::paths::{opt_text, texts};
use crate::text::same_text;

verus! {

/// The value is the text `text`.
pub open spec fn is_text(value: Json, text: Seq<char>) -> bool {
    value matches Json::Text(s) && s@ == text
}

/// The value is the text `text`, or `null` where the text is empty.
pub open spec fn is_optional_text(value: Json, text: Seq<char>) -> bool {
    if text.len() == 0 {
        value is Null
    } else {
        is_text(value, text)
    }
}

/// The value is an array of exactly the texts `items`.
pub open spec fn is_text_array(value: Json, items: Seq<Seq<char>>) -> bool {
    value matches Json::Array(values) && values@.len() == items.len() && forall|i: int|
        0 <= i < items.len() ==> is_text(#[trigger] values@[i], items[i])
}

/// The texts that the items are, where all of them are texts.
pub open spec fn text_items(items: Seq<Json>) -> Option<Seq<Seq<char>>>
    decreases items.len(),
{
    if items.len() == 0 {
        Some(seq![])
    } else {
        match (text_items(items.drop_last()), items.last()) {
            (Some(front), Json::Text(text)) => Some(front.push(text@)),
            _ => None,
        }
    }
}

/// The texts of an array of texts; nothing for any other value.
pub open spec fn text_array(value: Option<Json>) -> Option<Seq<Seq<char>>> {
    match value {
        Some(Json::Array(items)) => text_items(items@),
        _ => None,
    }
}

/// The text of an optional field: empty where the field is absent or `null`,
/// and nothing where it holds anything but a text.
pub open spec fn optional_text(value: Option<Json>) -> Option<Seq<char>> {
    match value {
        None => Some(Seq::<char>::empty()),
        Some(Json::Null) => Some(Seq::<char>::empty()),
        Some(Json::Text(text)) => Some(text@),
        _ => None,
    }
}

/// An array of texts reads as its texts.
pub proof fn lemma_text_array_reads_back(value: Json, items: Seq<Seq<char>>)
    requires
        is_text_array(value, items),
    ensures
        text_array(Some(value)) == Some(items),
{
    let values = value->Array_0@;
    lemma_text_items(values, items, items.len() as int);
    assert(values.take(values.len() as int) =~= values);
    assert(items.take(items.len() as int) =~= items);
}

proof fn lemma_text_items(values: Seq<Json>, items: Seq<Seq<char>>, upto: int)
    requires
        values.len() == items.len(),
        0 <= upto <= items.len(),
        forall|i: int| 0 <= i < items.len() ==> is_text(#[trigger] values[i], items[i]),
    ensures
        text_items(values.take(upto)) == Some(items.take(upto)),
    decreases upto,
{
    if upto == 0 {
        assert(items.take(0) =~= Seq::<Seq<char>>::empty());
    } else {
        lemma_text_items(values, items, upto - 1);
        assert(values.take(upto).drop_last() =~= values.take(upto - 1));
        assert(values.take(upto).last() == values[upto - 1]);
        assert(is_text(values[upto - 1], items[upto - 1]));
        assert(items.take(upto) =~= items.take(upto - 1).push(items[upto - 1]));
    }
}

/// The value that an optional reference points to.
pub open spec fn held(value: Option<&Json>) -> Option<Json> {
    match value {
        Some(v) => Some(*v),
        None => None,
    }
}

/// Reads an array of texts.
#[verifier::loop_isolation(false)]
pub fn read_text_array(value: Option<&Json>) -> (out: Option<Vec<String>>)
    ensures
        match out {
            Some(list) => text_array(held(value)) == Some(texts(list@)),
            None => text_array(held(value)) is None,
        },
{
    match value {
        Some(Json::Array(items)) => {
            let mut list: Vec<String> = Vec::new();
            let mut i: usize = 0;
            assert(items@.take(0) =~= Seq::<Json>::empty());
            assert(texts(list@) =~= Seq::<Seq<char>>::empty());
            while i < items.len()
                invariant
                    i <= items.len(),
                    text_items(items@.take(i as int)) == Some(texts(list@)),
                decreases items.len() - i,
            {
                proof {
                    let upto = items@.take(i + 1);
                    assert(upto.drop_last() =~= items@.take(i as int));
                    assert(upto.last() == items@[i as int]);
                }
                match &items[i] {
                    Json::Text(text) => {
                        let ghost before = list@;
                        list.push(text.clone());
                        assert(texts(list@) =~= texts(before).push(text@));
                    },
                    _ => {
                        proof {
                            lemma_text_items_fail(items@, i as int);
                        }
                        return None;
                    },
                }
                i += 1;
            }
            assert(items@.take(items@.len() as int) =~= items@);
            Some(list)
        },
        _ => None,
    }
}

proof fn lemma_text_items_fail(items: Seq<Json>, at: int)
    requires
        0 <= at < items.len(),
        !(items[at] is Text),
    ensures
        text_items(items) is None,
    decreases items.len(),
{
    if at < items.len() - 1 {
        assert(items.drop_last()[at] == items[at]);
        lemma_text_items_fail(items.drop_last(), at);
    }
}

/// Builds an array of texts.
pub fn write_text_array(items: &Vec<String>) -> (value: Json)
    ensures
        is_text_array(value, texts(items@)),
{
    let mut values: Vec<Json> = Vec::new();
    let mut i: usize = 0;
    while i < items.len()
        invariant
            i <= items.len(),
            values@.len() == i,
            forall|k: int| 0 <= k < i ==> is_text(#[trigger] values@[k], items@[k]@),
        decreases items.len() - i,
    {
        values.push(Json::Text(items[i].clone()));
        i += 1;
    }
    assert(texts(items@).len() == items@.len());
    assert forall|k: int| 0 <= k < texts(items@).len() implies is_text(
        #[trigger] values@[k],
        texts(items@)[k],
    ) by {
        assert(texts(items@)[k] == items@[k]@);
    }
    Json::Array(values)
}

/// Builds a text, or `null` for the empty text.
pub fn write_optional_text(text: &String) -> (value: Json)
    ensures
        is_optional_text(value, text@),
{
    if text.as_str().unicode_len() == 0 {
        Json::Null
    } else {
        Json::Text(text.clone())
    }
}

/// The favorites that a document holds: the texts of its `favorites` array;
/// nothing where the document is of another shape.
pub open spec fn decoded_favorites(tree: Json) -> Option<Seq<Seq<char>>> {
    text_array(tree.spec_field("favorites"@))
}

/// The tree is the document of the favorites `favorites`.
pub open spec fn is_favorites_tree(tree: Json, favorites: Seq<Seq<char>>) -> bool {
    &&& tree matches Json::Object(members)
    &&& members@.len() == 1
    &&& members@[0].0@ == "favorites"@
    &&& is_text_array(members@[0].1, favorites)
}

/// The favorites that the content of a favorites file gives: none where the
/// file is missing or unreadable, holds no JSON, or a document of another
/// shape.
pub open spec fn loaded_favorites(content: Option<Seq<char>>) -> Seq<Seq<char>> {
    match content {
        Some(text) => match parsed(text) {
            Some(tree) => match decoded_favorites(tree) {
                Some(favorites) => favorites,
                None => seq![],
            },
            None => seq![],
        },
        None => seq![],
    }
}

/// Reads a favorites file out of its document.
pub fn favorites_from_json(tree: &Json) -> (out: Option<FavoritesFile>)
    ensures
        match out {
            Some(file) => decoded_favorites(*tree) == Some(texts(file.favorites@)),
            None => decoded_favorites(*tree) is None,
        },
{
    match read_text_array(tree.field("favorites")) {
        Some(favorites) => Some(FavoritesFile { favorites }),
        None => None,
    }
}

/// Builds the document of a favorites file.
pub fn favorites_to_json(file: &FavoritesFile) -> (tree: Json)
    ensures
        is_favorites_tree(tree, texts(file.favorites@)),
{
    let mut members: Vec<(String, Json)> = Vec::new();
    members.push((String::from_str("favorites"), write_text_array(&file.favorites)));
    Json::Object(members)
}

/// Round trip of favorites: the document of a list of favorites reads as that
/// list.
pub proof fn lemma_favorites_round_trip(tree: Json, favorites: Seq<Seq<char>>)
    requires
        is_favorites_tree(tree, favorites),
    ensures
        decoded_favorites(tree) == Some(favorites),
{
    let members = tree->Object_0@;
    assert(members.last() == members[0]);
    assert(member(members, "favorites"@) == Some(members[0].1));
    lemma_text_array_reads_back(members[0].1, favorites);
}

/// The favorites of a config root, from the content of its favorites file.
pub fn load_favorites(content: &Option<String>) -> (favorites: Vec<String>)
    ensures
        texts(favorites@) == loaded_favorites(opt_text(*content)),
{
    let empty: Vec<String> = Vec::new();
    assert(texts(empty@) =~= Seq::<Seq<char>>::empty());
    match content {
        Some(text) => match parse_json(text.as_str()) {
            Ok(tree) => match favorites_from_json(&tree) {
                Some(file) => file.favorites,
                None => empty,
            },
            Err(_) => empty,
        },
        None => empty,
    }
}

/// Why a document could not be written.
#[derive(Debug)]
pub struct SerializeError {
    /// What was to be written: `favorites` or `presets`.
    pub what: String,
    /// The writer's message.
    pub detail: String,
}

impl SerializeError {
    /// The error in words.
    pub fn message(&self) -> (text: String)
        ensures
            text@ == "Failed to serialize "@ + self.what@ + ": "@ + self.detail@,
    {
        String::from_str("Failed to serialize ").concat(self.what.as_str()).concat(": ").concat(
            self.detail.as_str(),
        )
    }
}

/// The content of the favorites file for a list of favorites: their document
/// as indented JSON. Every list of favorites can be saved.
pub fn save_favorites(favorites: Vec<String>) -> (out: Result<String, SerializeError>)
    ensures
        out is Ok,
        out matches Ok(text) ==> exists|tree: Json|
            #![trigger written(tree)]
            is_favorites_tree(tree, texts(favorites@)) && text@ == written(tree),
        out matches Err(error) ==> error.what@ == "favorites"@,
{
    let tree = favorites_to_json(&FavoritesFile { favorites });
    let ghost built = tree;
    match write_json(tree) {
        Ok(text) => {
            assert(text@ == written(built));
            Ok(text)
        },
        Err(detail) => Err(SerializeError { what: String::from_str("favorites"), detail }),
    }
}

/// Reads the text of an optional field.
pub fn read_optional_text(value: Option<&Json>) -> (out: Option<String>)
    ensures
        match out {
            Some(text) => optional_text(held(value)) == Some(text@),
            None => optional_text(held(value)) is None,
        },
{
    match value {
        None => Some(String::new()),
        Some(Json::Null) => Some(String::new()),
        Some(Json::Text(text)) => Some(text.clone()),
        _ => None,
    }
}

/// The name in an optional field: none where the field is absent or `null`,
/// and nothing at all where it holds anything but a text.
pub open spec fn optional_name(value: Option<Json>) -> Option<Option<Seq<char>>> {
    match value {
        None => Some(None),
        Some(Json::Null) => Some(None),
        Some(Json::Text(text)) => Some(Some(text@)),
        _ => None,
    }
}

/// The value is the name `name`, or `null` where there is none.
pub open spec fn is_optional_name(value: Json, name: Option<Seq<char>>) -> bool {
    match name {
        Some(text) => is_text(value, text),
        None => value is Null,
    }
}

/// The preset that a member of the `presets` object holds under the name
/// `name`; nothing where the member is of another shape.
pub open spec fn decoded_preset(name: Seq<char>, value: Json) -> Option<PresetView> {
    match (
        text_array(value.spec_field("packages"@)),
        value.spec_field("houdini"@),
        optional_text(value.spec_field("avatar"@)),
        optional_text(value.spec_field("avatar_path"@)),
    ) {
        (Some(packages), Some(Json::Text(houdini)), Some(avatar), Some(avatar_path)) => Some(
            PresetView {
                name: name,
                packages: packages,
                houdini: houdini@,
                avatar: avatar,
                avatar_path: avatar_path,
            },
        ),
        _ => None,
    }
}

/// The presets that the members of the `presets` object hold, in order;
/// nothing where one of them is of another shape.
pub open spec fn decoded_preset_list(members: Seq<(String, Json)>) -> Option<Seq<PresetView>>
    decreases members.len(),
{
    if members.len() == 0 {
        Some(seq![])
    } else {
        match (
            decoded_preset_list(members.drop_last()),
            decoded_preset(members.last().0@, members.last().1),
        ) {
            (Some(front), Some(preset)) => Some(front.push(preset)),
            _ => None,
        }
    }
}

/// The presets that a document holds; nothing where the document is of
/// another shape.
pub open spec fn decoded_presets(tree: Json) -> Option<PresetsView> {
    match (optional_name(tree.spec_field("default"@)), tree.spec_field("presets"@)) {
        (Some(default), Some(Json::Object(members))) => match decoded_preset_list(members@) {
            Some(presets) => Some(PresetsView { default: default, presets: presets }),
            None => None,
        },
        _ => None,
    }
}

/// The value is the document of the preset `preset`, which is kept under the
/// preset's name.
pub open spec fn is_preset_tree(value: Json, preset: PresetView) -> bool {
    &&& value matches Json::Object(members)
    &&& members@.len() == 4
    &&& members@[0].0@ == "packages"@
    &&& is_text_array(members@[0].1, preset.packages)
    &&& members@[1].0@ == "houdini"@
    &&& is_text(members@[1].1, preset.houdini)
    &&& members@[2].0@ == "avatar"@
    &&& is_optional_text(members@[2].1, preset.avatar)
    &&& members@[3].0@ == "avatar_path"@
    &&& is_optional_text(members@[3].1, preset.avatar_path)
}

/// The members are the documents of the presets `presets`, each under its
/// name.
pub open spec fn is_preset_members(members: Seq<(String, Json)>, presets: Seq<PresetView>) -> bool {
    &&& members.len() == presets.len()
    &&& forall|i: int|
        0 <= i < presets.len() ==> (#[trigger] members[i]).0@ == presets[i].name && is_preset_tree(
            members[i].1,
            presets[i],
        )
}

/// The tree is the document of the presets file `file`.
pub open spec fn is_presets_tree(tree: Json, file: PresetsView) -> bool {
    &&& tree matches Json::Object(members)
    &&& members@.len() == 2
    &&& members@[0].0@ == "default"@
    &&& is_optional_name(members@[0].1, file.default)
    &&& members@[1].0@ == "presets"@
    &&& members@[1].1 matches Json::Object(list)
    &&& is_preset_members(list@, file.presets)
}

/// The position of the preset `name` in a list, if there is one: the last
/// position that holds this name.
pub open spec fn name_index(presets: Seq<PresetView>, name: Seq<char>) -> Option<int>
    decreases presets.len(),
{
    if presets.len() == 0 {
        None
    } else if presets.last().name == name {
        Some(presets.len() - 1)
    } else {
        name_index(presets.drop_last(), name)
    }
}

/// The presets as they are kept: each name once, a later preset standing in
/// place of an earlier one with the same name.
pub open spec fn saved_presets(presets: Seq<PresetView>) -> Seq<PresetView>
    decreases presets.len(),
{
    if presets.len() == 0 {
        seq![]
    } else {
        let front = saved_presets(presets.drop_last());
        match name_index(front, presets.last().name) {
            Some(i) => front.update(i, presets.last()),
            None => front.push(presets.last()),
        }
    }
}

/// No two presets have the same name.
pub open spec fn distinct_names(presets: Seq<PresetView>) -> bool {
    forall|i: int, j: int|
        0 <= i < j < presets.len() ==> (#[trigger] presets[i]).name != (#[trigger] presets[j]).name
}

/// `name_index` gives a position that holds the name, and none where no
/// position holds it.
pub proof fn lemma_name_index(presets: Seq<PresetView>, name: Seq<char>)
    ensures
        name_index(presets, name) matches Some(i) ==> 0 <= i < presets.len() && presets[i].name
            == name,
        name_index(presets, name) is None <==> forall|i: int|
            0 <= i < presets.len() ==> (#[trigger] presets[i]).name != name,
    decreases presets.len(),
{
    if presets.len() > 0 {
        let front = presets.drop_last();
        lemma_name_index(front, name);
        if presets.last().name != name {
            if name_index(front, name) is None {
                assert forall|i: int| 0 <= i < presets.len() implies (#[trigger] presets[i]).name
                    != name by {
                    if i < front.len() {
                        assert(front[i] == presets[i]);
                    }
                }
            } else {
                let i = name_index(front, name)->0;
                assert(presets[i] == front[i]);
            }
        }
    }
}

/// Presets with distinct names are kept as they are.
pub proof fn lemma_distinct_presets_are_kept(presets: Seq<PresetView>)
    requires
        distinct_names(presets),
    ensures
        saved_presets(presets) == presets,
    decreases presets.len(),
{
    if presets.len() > 0 {
        let front = presets.drop_last();
        assert forall|i: int, j: int| 0 <= i < j < front.len() implies (#[trigger] front[i]).name
            != (#[trigger] front[j]).name by {
            assert(front[i] == presets[i]);
            assert(front[j] == presets[j]);
        }
        lemma_distinct_presets_are_kept(front);
        lemma_name_index(front, presets.last().name);
        assert forall|i: int| 0 <= i < front.len() implies (#[trigger] front[i]).name
            != presets.last().name by {
            assert(front[i] == presets[i]);
            assert(presets[i].name != presets[presets.len() - 1].name);
        }
        assert(front.push(presets.last()) =~= presets);
    }
}

/// The document of a preset reads as that preset.
pub proof fn lemma_preset_round_trip(value: Json, preset: PresetView)
    requires
        is_preset_tree(value, preset),
    ensures
        decoded_preset(preset.name, value) == Some(preset),
{
    reveal_strlit("packages");
    reveal_strlit("houdini");
    reveal_strlit("avatar");
    reveal_strlit("avatar_path");
    let members = value->Object_0@;
    let m3 = members.drop_last();
    let m2 = m3.drop_last();
    let m1 = m2.drop_last();
    assert(members.last() == members[3]);
    assert(m3.last() == members[2]);
    assert(m2.last() == members[1]);
    assert(m1.last() == members[0]);
    assert("packages"@.len() == 8);
    assert("houdini"@.len() == 7);
    assert("avatar"@.len() == 6);
    assert("avatar_path"@.len() == 11);
    lemma_member_at(members, "avatar_path"@, 3);
    lemma_member_at(members, "avatar"@, 2);
    lemma_member_at(members, "houdini"@, 1);
    lemma_member_at(members, "packages"@, 0);
    lemma_text_array_reads_back(members[0].1, preset.packages);
    assert(value.spec_field("packages"@) == Some(members[0].1));
    assert(value.spec_field("houdini"@) == Some(members[1].1));
    assert(value.spec_field("avatar"@) == Some(members[2].1));
    assert(value.spec_field("avatar_path"@) == Some(members[3].1));
    if preset.avatar.len() == 0 {
        assert(preset.avatar =~= Seq::<char>::empty());
    }
    if preset.avatar_path.len() == 0 {
        assert(preset.avatar_path =~= Seq::<char>::empty());
    }
    assert(optional_text(Some(members[2].1)) == Some(preset.avatar));
    assert(optional_text(Some(members[3].1)) == Some(preset.avatar_path));
    let decoded = decoded_preset(preset.name, value)->0;
    assert(decoded.packages == preset.packages);
    assert(decoded.houdini == preset.houdini);
}

/// The documents of a list of presets read as that list.
pub proof fn lemma_preset_list_round_trip(members: Seq<(String, Json)>, presets: Seq<PresetView>)
    requires
        is_preset_members(members, presets),
    ensures
        decoded_preset_list(members) == Some(presets),
    decreases members.len(),
{
    if members.len() == 0 {
        assert(presets =~= Seq::<PresetView>::empty());
    } else {
        let front = members.drop_last();
        let first = presets.drop_last();
        assert forall|i: int| 0 <= i < first.len() implies (#[trigger] front[i]).0@
            == first[i].name && is_preset_tree(front[i].1, first[i]) by {
            assert(front[i] == members[i]);
            assert(first[i] == presets[i]);
        }
        lemma_preset_list_round_trip(front, first);
        let last = members.len() - 1;
        assert(members[last].0@ == presets[last].name);
        lemma_preset_round_trip(members[last].1, presets[last]);
        assert(first.push(presets.last()) =~= presets);
    }
}

/// Round trip of presets: the document of a presets file reads as that file.
pub proof fn lemma_presets_round_trip(tree: Json, file: PresetsView)
    requires
        is_presets_tree(tree, file),
    ensures
        decoded_presets(tree) == Some(file),
{
    reveal_strlit("default");
    reveal_strlit("presets");
    let members = tree->Object_0@;
    let m1 = members.drop_last();
    assert(members.last() == members[1]);
    assert(m1.last() == members[0]);
    assert("default"@[0] == 'd');
    assert("presets"@[0] == 'p');
    lemma_member_at(members, "presets"@, 1);
    lemma_member_at(members, "default"@, 0);
    let list = members[1].1->Object_0@;
    lemma_preset_list_round_trip(list, file.presets);
}

/// Saving then loading presets with distinct names gives them back: their
/// document reads as the default name and the presets that were saved.
pub proof fn lemma_saved_presets_load_back(
    tree: Json,
    default: Option<Seq<char>>,
    presets: Seq<PresetView>,
)
    requires
        distinct_names(presets),
        is_presets_tree(tree, PresetsView { default: default, presets: saved_presets(presets) }),
    ensures
        decoded_presets(tree) == Some(PresetsView { default: default, presets: presets }),
{
    lemma_distinct_presets_are_kept(presets);
    lemma_presets_round_trip(tree, PresetsView { default: default, presets: presets });
}

/// Builds the document of one preset.
pub fn preset_to_json(preset: &PresetData) -> (value: Json)
    ensures
        is_preset_tree(value, preset@),
{
    let mut members: Vec<(String, Json)> = Vec::new();
    members.push((String::from_str("packages"), write_text_array(&preset.packages)));
    members.push((String::from_str("houdini"), Json::Text(preset.houdini.clone())));
    members.push((String::from_str("avatar"), write_optional_text(&preset.avatar)));
    members.push((String::from_str("avatar_path"), write_optional_text(&preset.avatar_path)));
    Json::Object(members)
}

/// Builds the document of a presets file. Of presets with one name the last
/// is kept, in the place of the first.
pub fn presets_to_json(presets: &Vec<PresetData>, default: &Option<String>) -> (tree: Json)
    ensures
        is_presets_tree(
            tree,
            PresetsView {
                default: opt_text(*default),
                presets: saved_presets(preset_views(presets@)),
            },
        ),
{
    let mut list: Vec<(String, Json)> = Vec::new();
    let mut i: usize = 0;
    assert(preset_views(presets@).take(0) =~= Seq::<PresetView>::empty());
    while i < presets.len()
        invariant
            i <= presets.len(),
            is_preset_members(list@, saved_presets(preset_views(presets@).take(i as int))),
        decreases presets.len() - i,
    {
        let ghost kept = saved_presets(preset_views(presets@).take(i as int));
        let ghost view = presets@[i as int]@;
        proof {
            let upto = preset_views(presets@).take(i + 1);
            assert(upto.drop_last() =~= preset_views(presets@).take(i as int));
            assert(upto.last() == view);
        }
        let value = preset_to_json(&presets[i]);
        let name = presets[i].name.clone();
        let mut at: usize = list.len();
        assert(kept.take(at as int) =~= kept);
        let mut found = false;
        while at > 0 && !found
            invariant
                at <= list.len(),
                list@.len() == kept.len(),
                is_preset_members(list@, kept),
                name@ == view.name,
                !found ==> name_index(kept, view.name) == name_index(
                    kept.take(at as int),
                    view.name,
                ),
                found ==> at < list.len() && name_index(kept, view.name) == Some(at as int),
            decreases at + (if found { 0int } else { 1int }),
        {
            let ghost upto = kept.take(at as int);
            proof {
                assert(upto.last() == kept[at - 1]);
                assert(upto.drop_last() =~= kept.take(at - 1));
                assert(list@[at - 1].0@ == kept[at - 1].name);
            }
            at -= 1;
            if same_text(list[at].0.as_str(), name.as_str()) {
                found = true;
            }
        }
        if found {
            let ghost before = list@;
            list.set(at, (name, value));
            proof {
                let after = kept.update(at as int, view);
                assert forall|k: int| 0 <= k < after.len() implies (#[trigger] list@[k]).0@
                    == after[k].name && is_preset_tree(list@[k].1, after[k]) by {
                    if k != at {
                        assert(list@[k] == before[k]);
                        assert(after[k] == kept[k]);
                    }
                }
            }
        } else {
            let ghost before = list@;
            list.push((name, value));
            proof {
                assert(kept.take(0) =~= Seq::<PresetView>::empty());
                let after = kept.push(view);
                assert forall|k: int| 0 <= k < after.len() implies (#[trigger] list@[k]).0@
                    == after[k].name && is_preset_tree(list@[k].1, after[k]) by {
                    if k < kept.len() {
                        assert(list@[k] == before[k]);
                        assert(after[k] == kept[k]);
                    }
                }
            }
        }
        i += 1;
    }
    assert(preset_views(presets@).take(presets@.len() as int) =~= preset_views(presets@));
    let default_value = match default {
        Some(name) => Json::Text(name.clone()),
        None => Json::Null,
    };
    let mut members: Vec<(String, Json)> = Vec::new();
    members.push((String::from_str("default"), default_value));
    members.push((String::from_str("presets"), Json::Object(list)));
    Json::Object(members)
}

/// Reads one preset out of the member that holds it.
pub fn preset_from_json(name: &String, value: &Json) -> (out: Option<PresetData>)
    ensures
        match out {
            Some(preset) => decoded_preset(name@, *value) == Some(preset@),
            None => decoded_preset(name@, *value) is None,
        },
{
    let packages = read_text_array(value.field("packages"));
    let houdini = value.field("houdini");
    let avatar = read_optional_text(value.field("avatar"));
    let avatar_path = read_optional_text(value.field("avatar_path"));
    match (packages, houdini, avatar, avatar_path) {
        (Some(packages), Some(Json::Text(houdini)), Some(avatar), Some(avatar_path)) => Some(
            PresetData {
                name: name.clone(),
                packages,
                houdini: houdini.clone(),
                avatar,
                avatar_path,
            },
        ),
        _ => None,
    }
}

/// Reads a presets file out of its document.
#[verifier::loop_isolation(false)]
pub fn presets_from_json(tree: &Json) -> (out: Option<PresetsFile>)
    ensures
        match out {
            Some(file) => decoded_presets(*tree) == Some(file@),
            None => decoded_presets(*tree) is None,
        },
{
    let default: Option<String> = match tree.field("default") {
        None => None,
        Some(Json::Null) => None,
        Some(Json::Text(name)) => Some(name.clone()),
        _ => {
            return None;
        },
    };
    match tree.field("presets") {
        Some(Json::Object(members)) => {
            let mut presets: Vec<PresetData> = Vec::new();
            let mut i: usize = 0;
            assert(members@.take(0) =~= Seq::<(String, Json)>::empty());
            assert(preset_views(presets@) =~= Seq::<PresetView>::empty());
            while i < members.len()
                invariant
                    i <= members.len(),
                    decoded_preset_list(members@.take(i as int)) == Some(preset_views(presets@)),
                decreases members.len() - i,
            {
                proof {
                    let upto = members@.take(i + 1);
                    assert(upto.drop_last() =~= members@.take(i as int));
                    assert(upto.last() == members@[i as int]);
                }
                match preset_from_json(&members[i].0, &members[i].1) {
                    Some(preset) => {
                        let ghost before = presets@;
                        presets.push(preset);
                        assert(preset_views(presets@) =~= preset_views(before).push(preset@));
                    },
                    None => {
                        proof {
                            lemma_preset_list_fail(members@, i as int);
                        }
                        return None;
                    },
                }
                i += 1;
            }
            assert(members@.take(members@.len() as int) =~= members@);
            Some(PresetsFile { default, presets })
        },
        _ => None,
    }
}

proof fn lemma_preset_list_fail(members: Seq<(String, Json)>, at: int)
    requires
        0 <= at < members.len(),
        decoded_preset(members[at].0@, members[at].1) is None,
    ensures
        decoded_preset_list(members) is None,
    decreases members.len(),
{
    if at < members.len() - 1 {
        assert(members.drop_last()[at] == members[at]);
        lemma_preset_list_fail(members.drop_last(), at);
    }
}

/// The presets file that the content of a presets file gives: an empty one
/// where the file is missing or unreadable, holds no JSON, or a document of
/// another shape.
pub open spec fn loaded_presets(content: Option<Seq<char>>) -> PresetsView {
    let empty = PresetsView { default: None, presets: seq![] };
    match content {
        Some(text) => match parsed(text) {
            Some(tree) => match decoded_presets(tree) {
                Some(file) => file,
                None => empty,
            },
            None => empty,
        },
        None => empty,
    }
}

/// The presets of a config root, from the content of its presets file.
pub fn load_presets(content: &Option<String>) -> (file: PresetsFile)
    ensures
        file@ == loaded_presets(opt_text(*content)),
{
    let empty = PresetsFile { default: None, presets: Vec::new() };
    assert(preset_views(empty.presets@) =~= Seq::<PresetView>::empty());
    match content {
        Some(text) => match parse_json(text.as_str()) {
            Ok(tree) => match presets_from_json(&tree) {
                Some(file) => file,
                None => empty,
            },
            Err(_) => empty,
        },
        None => empty,
    }
}

/// The content of the presets file for a list of presets and the name of the
/// default one: their document as indented JSON. Every list of presets can be
/// saved.
pub fn save_presets(presets: &Vec<PresetData>, default_preset: &Option<String>) -> (out: Result<
    String,
    SerializeError,
>)
    ensures
        out is Ok,
        out matches Ok(text) ==> exists|tree: Json|
            #![trigger written(tree)]
            is_presets_tree(
                tree,
                PresetsView {
                    default: opt_text(*default_preset),
                    presets: saved_presets(preset_views(presets@)),
                },
            ) && text@ == written(tree),
        out matches Err(error) ==> error.what@ == "presets"@,
{
    let tree = presets_to_json(presets, default_preset);
    let ghost built = tree;
    match write_json(tree) {
        Ok(text) => {
            assert(text@ == written(built));
            Ok(text)
        },
        Err(detail) => Err(SerializeError { what: String::from_str("presets"), detail }),
    }
}

/// A new preset without a picture.
pub fn create_preset(name: String, packages: Vec<String>, houdini: String) -> (preset: PresetData)
    ensures
        preset@ == (PresetView {
            name: name@,
            packages: texts(packages@),
            houdini: houdini@,
            avatar: Seq::<char>::empty(),
            avatar_path: Seq::<char>::empty(),
        }),
{
    PresetData { name, packages, houdini, avatar: String::new(), avatar_path: String::new() }
}

} // verus!
