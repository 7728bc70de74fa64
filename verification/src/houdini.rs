//! Installed versions of the application. A version is a directory whose name
//! begins with `Houdini` and which holds a `bin` directory. What a directory
//! holds is read by the caller and handed in as a list of entries.

use vstd::prelude::*;
use crate::config::{saved_text, saved_value};
use crate::models::{HoudiniVersion, VersionView};
use crate::order::{
    arranged, key_texts, lemma_arranged_carries_keys, lemma_arranged_in_order,
    lemma_arranged_keeps_items, lemma_slot_bounds, place, slot, stays_behind,
};
use crate::paths::{file_name, join, opt_text, path_file_name, path_join, texts};
use crate::text::{chars_of, starts_with, text_before, trim, trimmed};

verus! {

/// The directories under which the application is usually installed.
pub fn common_houdini_roots() -> (roots: Vec<String>)
    ensures
        texts(roots@) == seq![
            "C:\\Program Files\\Side Effects Software"@,
            "C:\\Program Files\\SideFX"@,
        ],
{
    let mut roots: Vec<String> = Vec::new();
    roots.push(String::from_str("C:\\Program Files\\Side Effects Software"));
    roots.push(String::from_str("C:\\Program Files\\SideFX"));
    assert(texts(roots@) =~= seq![
        "C:\\Program Files\\Side Effects Software"@,
        "C:\\Program Files\\SideFX"@,
    ]);
    roots
}

/// What was found for one child of an installation root: its path, whether it
/// is a directory, and whether it holds a directory `bin`.
#[derive(Debug)]
pub struct InstallEntry {
    pub path: String,
    pub is_dir: bool,
    pub has_bin_dir: bool,
}

/// The `bin` directory of a version directory.
pub fn bin_dir(path: &str) -> (dir: String)
    ensures
        dir@ == path_join(path@, "bin"@),
{
    join(path, "bin")
}

/// The name of an entry: the last component of its path, or the empty text
/// where it has none.
pub open spec fn entry_name(path: Seq<char>) -> Seq<char> {
    match path_file_name(path) {
        Some(name) => name,
        None => Seq::<char>::empty(),
    }
}

/// The version that an entry is: none unless it is a directory whose name
/// begins with `Houdini` and which holds a directory `bin`.
pub open spec fn version_in(entry: InstallEntry) -> Option<VersionView> {
    if entry.is_dir && "Houdini"@.is_prefix_of(entry_name(entry.path@)) && entry.has_bin_dir {
        Some(
            VersionView {
                name: entry_name(entry.path@),
                path: entry.path@,
                bin_path: path_join(entry.path@, "bin"@),
            },
        )
    } else {
        None
    }
}

/// The versions among the entries, in the order of the entries.
pub open spec fn versions_in(entries: Seq<InstallEntry>) -> Seq<VersionView>
    decreases entries.len(),
{
    if entries.len() == 0 {
        seq![]
    } else {
        match version_in(entries.last()) {
            Some(version) => versions_in(entries.drop_last()).push(version),
            None => versions_in(entries.drop_last()),
        }
    }
}

/// The names of a list of versions.
pub open spec fn version_names(versions: Seq<VersionView>) -> Seq<Seq<char>>
    decreases versions.len(),
{
    if versions.len() == 0 {
        seq![]
    } else {
        version_names(versions.drop_last()).push(versions.last().name)
    }
}

/// The versions among the entries, listed by name in descending order.
pub open spec fn listed_versions(entries: Seq<InstallEntry>) -> Seq<VersionView> {
    arranged(versions_in(entries), version_names(versions_in(entries)), true)
}

/// The views of a list of versions.
pub open spec fn version_views(versions: Seq<HoudiniVersion>) -> Seq<VersionView> {
    versions.map_values(|v: HoudiniVersion| v@)
}

/// The installed versions under an installation root, from the entries of
/// that root, the highest name first.
pub fn list_houdini_versions_from_root(entries: &Vec<InstallEntry>) -> (versions: Vec<
    HoudiniVersion,
>)
    ensures
        version_views(versions@) == listed_versions(entries@),
{
    let mut versions: Vec<HoudiniVersion> = Vec::new();
    let mut keys: Vec<Vec<char>> = Vec::new();
    let mut i: usize = 0;
    proof {
        assert(entries@.take(0) =~= Seq::<InstallEntry>::empty());
        assert(version_views(versions@) =~= Seq::<VersionView>::empty());
        assert(key_texts(keys@) =~= Seq::<Seq<char>>::empty());
    }
    while i < entries.len()
        invariant
            i <= entries.len(),
            versions@.len() == keys@.len(),
            version_views(versions@) == listed_versions(entries@.take(i as int)),
            key_texts(keys@) == arranged(
                version_names(versions_in(entries@.take(i as int))),
                version_names(versions_in(entries@.take(i as int))),
                true,
            ),
            version_names(versions_in(entries@.take(i as int))).len() == versions_in(
                entries@.take(i as int),
            ).len(),
        decreases entries.len() - i,
    {
        let ghost found = versions_in(entries@.take(i as int));
        proof {
            let upto = entries@.take(i + 1);
            assert(upto.drop_last() =~= entries@.take(i as int));
            assert(upto.last() == entries@[i as int]);
        }
        let entry = &entries[i];
        if entry.is_dir {
            let name: String = match file_name(entry.path.as_str()) {
                Some(name) => name,
                None => String::new(),
            };
            if starts_with(name.as_str(), "Houdini") && entry.has_bin_dir {
                let key = chars_of(name.as_str());
                let version = HoudiniVersion {
                    name,
                    path: entry.path.clone(),
                    bin_path: bin_dir(entry.path.as_str()),
                };
                let ghost before = versions@;
                let ghost before_keys = key_texts(keys@);
                let ghost key_text = key@;
                let ghost view = version@;
                proof {
                    let next = found.push(view);
                    assert(next.drop_last() =~= found);
                    assert(next.last() == view);
                    assert(version_names(next).drop_last() =~= version_names(found));
                    assert(version_in(entries@[i as int]) == Some(view));
                }
                place(&mut versions, &mut keys, version, key, true);
                proof {
                    lemma_slot_bounds(before_keys, key_text, true);
                    assert(before.len() == before_keys.len());
                    assert(version_views(versions@) =~= version_views(before).insert(
                        slot(before_keys, key_text, true),
                        view,
                    ));
                }
            }
        }
        i += 1;
    }
    assert(entries@.take(entries@.len() as int) =~= entries@);
    versions
}

/// The names of versions, position by position.
pub proof fn lemma_version_names(versions: Seq<VersionView>)
    ensures
        version_names(versions).len() == versions.len(),
        forall|i: int|
            0 <= i < versions.len() ==> #[trigger] version_names(versions)[i] == versions[i].name,
    decreases versions.len(),
{
    if versions.len() > 0 {
        lemma_version_names(versions.drop_last());
        assert forall|i: int| 0 <= i < versions.len() implies #[trigger] version_names(versions)[i]
            == versions[i].name by {
            if i < versions.len() - 1 {
                assert(versions.drop_last()[i] == versions[i]);
            }
        }
    }
}

/// The versions of a root are listed with the highest name first: the listing
/// holds the versions among the entries, each as often as they do, and no
/// version stands in front of one whose name comes after its own.
pub proof fn lemma_versions_listed_highest_first(entries: Seq<InstallEntry>)
    ensures
        listed_versions(entries).len() == versions_in(entries).len(),
        listed_versions(entries).to_multiset() == versions_in(entries).to_multiset(),
        forall|i: int, j: int|
            0 <= i < j < listed_versions(entries).len() ==> !text_before(
                (#[trigger] listed_versions(entries)[i]).name,
                (#[trigger] listed_versions(entries)[j]).name,
            ),
{
    let versions = versions_in(entries);
    let keys = version_names(versions);
    let listed = listed_versions(entries);
    let key_of = |v: VersionView| v.name;
    lemma_version_names(versions);
    assert forall|i: int| 0 <= i < versions.len() implies key_of(#[trigger] versions[i])
        == keys[i] by {}
    lemma_arranged_carries_keys(versions, keys, key_of, true);
    lemma_arranged_keeps_items(versions, keys, true);
    lemma_arranged_in_order(keys, true);
    let ordered = arranged(keys, keys, true);
    assert forall|i: int, j: int| 0 <= i < j < listed.len() implies !text_before(
        (#[trigger] listed[i]).name,
        (#[trigger] listed[j]).name,
    ) by {
        assert(key_of(listed[i]) == ordered[i]);
        assert(key_of(listed[j]) == ordered[j]);
        assert(stays_behind(ordered[i], ordered[j], true));
    }
}

/// The listing that counts among several: the versions of the first root that
/// has any, or none where no root has one.
pub open spec fn first_listing(listings: Seq<Vec<InstallEntry>>) -> Seq<VersionView>
    decreases listings.len(),
{
    if listings.len() == 0 {
        seq![]
    } else if listed_versions(listings[0]@).len() > 0 {
        listed_versions(listings[0]@)
    } else {
        first_listing(listings.skip(1))
    }
}

/// The installed versions, from the entries of the roots to look in, taken in
/// order: those of the first root that holds a version.
pub fn list_houdini_versions(listings: &Vec<Vec<InstallEntry>>) -> (versions: Vec<HoudiniVersion>)
    ensures
        version_views(versions@) == first_listing(listings@),
{
    let mut i: usize = 0;
    assert(listings@.skip(0) =~= listings@);
    while i < listings.len()
        invariant
            i <= listings.len(),
            first_listing(listings@) == first_listing(listings@.skip(i as int)),
        decreases listings.len() - i,
    {
        let ghost rest = listings@.skip(i as int);
        proof {
            assert(rest[0] == listings@[i as int]);
            assert(rest.skip(1) =~= listings@.skip(i + 1));
        }
        let versions = list_houdini_versions_from_root(&listings[i]);
        if versions.len() > 0 {
            assert(version_views(versions@).len() == versions@.len());
            return versions;
        }
        assert(version_views(versions@).len() == versions@.len());
        i += 1;
    }
    let none: Vec<HoudiniVersion> = Vec::new();
    assert(version_views(none@) =~= Seq::<VersionView>::empty());
    none
}

/// The name of the executable to start: the one asked for, or `houdinifx.exe`.
pub open spec fn wanted_exe(exe_name: Option<Seq<char>>) -> Seq<char> {
    match exe_name {
        Some(name) => name,
        None => "houdinifx.exe"@,
    }
}

/// The executable asked for, inside the `bin` directory of a version.
pub open spec fn exe_path_of(version_path: Seq<char>, exe_name: Option<Seq<char>>) -> Seq<char> {
    path_join(path_join(version_path, "bin"@), wanted_exe(exe_name))
}

/// The executable to fall back to: `houdini.exe` inside the `bin` directory.
pub open spec fn fallback_exe_path_of(version_path: Seq<char>) -> Seq<char> {
    path_join(path_join(version_path, "bin"@), "houdini.exe"@)
}

/// The executable asked for, inside the `bin` directory of a version.
pub fn wanted_exe_path(version_path: &str, exe_name: &Option<String>) -> (path: String)
    ensures
        path@ == exe_path_of(version_path@, opt_text(*exe_name)),
{
    let bin = bin_dir(version_path);
    match exe_name {
        Some(name) => join(bin.as_str(), name.as_str()),
        None => join(bin.as_str(), "houdinifx.exe"),
    }
}

/// The executable to fall back to.
pub fn fallback_exe_path(version_path: &str) -> (path: String)
    ensures
        path@ == fallback_exe_path_of(version_path@),
{
    let bin = bin_dir(version_path);
    join(bin.as_str(), "houdini.exe")
}

/// The executable of a version: the one asked for where it exists, else the
/// fallback where that exists, else the one asked for all the same.
pub fn get_houdini_exe_path(
    version_path: &str,
    exe_name: &Option<String>,
    exe_exists: bool,
    fallback_exists: bool,
) -> (path: String)
    ensures
        path@ == (if !exe_exists && fallback_exists {
            fallback_exe_path_of(version_path@)
        } else {
            exe_path_of(version_path@, opt_text(*exe_name))
        }),
{
    if !exe_exists && fallback_exists {
        fallback_exe_path(version_path)
    } else {
        wanted_exe_path(version_path, exe_name)
    }
}

/// The saved executable, from the content of the file that holds it.
pub fn load_saved_houdini_exe(content: &Option<String>) -> (exe: Option<String>)
    ensures
        opt_text(exe) == saved_value(opt_text(*content)),
{
    saved_text(content)
}

/// The saved installation root, from the content of the file that holds it.
pub fn load_saved_houdini_root(content: &Option<String>) -> (root: Option<String>)
    ensures
        opt_text(root) == saved_value(opt_text(*content)),
{
    saved_text(content)
}

/// The text to write when an executable is saved.
pub fn save_houdini_exe(exe_path: &str) -> (content: String)
    ensures
        content@ == trimmed(exe_path@),
{
    trim(exe_path)
}

/// The text to write when an installation root is saved.
pub fn save_houdini_root(root: &str) -> (content: String)
    ensures
        content@ == trimmed(root@),
{
    trim(root)
}

} // verus!
