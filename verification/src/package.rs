//! Packages: JSON documents in the packages directory of a config root. A
//! package may be switched off by its `enable` field; the objects of its `env`
//! array bind variables and name paths. Paths are resolved against the
//! package's own variables and the config root. Whether a resolved path exists
//! is asked of the caller, one path at a time.

use vstd::prelude::*;
use crate::json::{number_string, number_text, parse_json, parsed, write_json, written, Json};
use crate::order::{
    arranged, key_texts, lemma_arranged_carries_keys, lemma_arranged_in_order,
    lemma_arranged_keeps_items, place, slot, stays_behind,
};
use crate::config::contains_text;
use crate::paths::{extension, file_stem, join, path_extension, path_file_stem, path_join, texts};
use crate::resolve::{env_of, pairs, resolve_placeholders, resolved, upsert, EnvVar};
use crate::text::{chars_of, lowercase, lowercased, same_text, text_before};

verus! {

/// A package as loaded from its file.
#[derive(Debug, Clone)]
pub struct Package {
    pub name: String,
    pub file_path: String,
    pub data: Json,
    pub enabled: bool,
    pub config_root: String,
}

/// What a package holds, with its texts as sequences of characters.
pub struct PackageView {
    pub name: Seq<char>,
    pub file_path: Seq<char>,
    pub data: Json,
    pub enabled: bool,
    pub config_root: Seq<char>,
}

impl View for Package {
    type V = PackageView;

    open spec fn view(&self) -> PackageView {
        PackageView {
            name: self.name@,
            file_path: self.file_path@,
            data: self.data,
            enabled: self.enabled,
            config_root: self.config_root@,
        }
    }
}

/// Whether a document says that its package is enabled: its `enable` field
/// when that is a boolean, and yes otherwise.
pub open spec fn enabled_in(data: Json) -> bool {
    match data.spec_field("enable"@) {
        Some(Json::Bool(flag)) => flag,
        _ => true,
    }
}

/// The entries of a document's `env` array; none where the document has no
/// such field or the field is no array.
pub open spec fn env_entries(data: Json) -> Seq<Json> {
    match data.spec_field("env"@) {
        Some(Json::Array(items)) => items@,
        _ => seq![],
    }
}

/// The variable that a member of an entry binds: its key with its text, or
/// with the decimal text of its number. Other values bind nothing.
pub open spec fn binding_of(item: (String, Json)) -> Option<(Seq<char>, Seq<char>)> {
    match item.1 {
        Json::Text(text) => Some((item.0@, text@)),
        Json::Number(number) => Some((item.0@, number_text(number))),
        _ => None,
    }
}

/// The variables that the members of an entry bind, in order.
pub open spec fn member_bindings(members: Seq<(String, Json)>) -> Seq<(Seq<char>, Seq<char>)>
    decreases members.len(),
{
    if members.len() == 0 {
        seq![]
    } else {
        match binding_of(members.last()) {
            Some(binding) => member_bindings(members.drop_last()).push(binding),
            None => member_bindings(members.drop_last()),
        }
    }
}

/// The variables that an entry binds; an entry that is no object binds none.
pub open spec fn entry_bindings(entry: Json) -> Seq<(Seq<char>, Seq<char>)> {
    match entry {
        Json::Object(members) => member_bindings(members@),
        _ => seq![],
    }
}

/// The variables that the entries bind, entry after entry.
pub open spec fn document_bindings(entries: Seq<Json>) -> Seq<(Seq<char>, Seq<char>)>
    decreases entries.len(),
{
    if entries.len() == 0 {
        seq![]
    } else {
        document_bindings(entries.drop_last()) + entry_bindings(entries.last())
    }
}

/// The environment of a package document: what its bindings build up, a later
/// binding overwriting an earlier one with the same key.
pub open spec fn package_env(data: Json) -> Seq<(Seq<char>, Seq<char>)> {
    env_of(document_bindings(env_entries(data)))
}

/// Whether a member of an entry names a path.
pub open spec fn is_path_key(key: Seq<char>) -> bool {
    key == "hpath"@ || key == "path"@
}

/// The raw path that a value gives: its text, or the empty text where it is no
/// text.
pub open spec fn raw_path(value: Json) -> Seq<char> {
    match value {
        Json::Text(text) => text@,
        _ => Seq::<char>::empty(),
    }
}

/// The raw paths that the members of an entry name, in order.
pub open spec fn member_paths(members: Seq<(String, Json)>) -> Seq<Seq<char>>
    decreases members.len(),
{
    if members.len() == 0 {
        seq![]
    } else if is_path_key(members.last().0@) {
        member_paths(members.drop_last()).push(raw_path(members.last().1))
    } else {
        member_paths(members.drop_last())
    }
}

/// The raw paths that an entry names; an entry that is no object names none.
pub open spec fn entry_paths(entry: Json) -> Seq<Seq<char>> {
    match entry {
        Json::Object(members) => member_paths(members@),
        _ => seq![],
    }
}

/// The raw paths that the entries name, entry after entry.
pub open spec fn document_paths(entries: Seq<Json>) -> Seq<Seq<char>>
    decreases entries.len(),
{
    if entries.len() == 0 {
        seq![]
    } else {
        document_paths(entries.drop_last()) + entry_paths(entries.last())
    }
}

/// Each of `raws` resolved against `env` and `config_root`.
pub open spec fn resolved_all(
    raws: Seq<Seq<char>>,
    env: Seq<(Seq<char>, Seq<char>)>,
    config_root: Seq<char>,
) -> Seq<Seq<char>>
    decreases raws.len(),
{
    if raws.len() == 0 {
        seq![]
    } else {
        resolved_all(raws.drop_last(), env, config_root).push(
            resolved(raws.last(), env, config_root),
        )
    }
}

/// The paths of a package that have to exist: every path that its document
/// names, resolved against the package's environment and its config root.
pub open spec fn checked_paths(data: Json, config_root: Seq<char>) -> Seq<Seq<char>> {
    resolved_all(document_paths(env_entries(data)), package_env(data), config_root)
}

/// One of `paths` is not among the `existing` ones.
pub open spec fn any_missing(paths: Seq<Seq<char>>, existing: Set<Seq<char>>) -> bool {
    exists|i: int| 0 <= i < paths.len() && !existing.contains(#[trigger] paths[i])
}

/// A check for missing paths in progress. It holds the paths to look for, in
/// order, and how far the check has come.
pub struct MissingPaths {
    paths: Vec<String>,
    position: usize,
    missing: bool,
}

impl MissingPaths {
    #[verifier::type_invariant]
    spec fn inv(&self) -> bool {
        &&& self.position <= self.paths.len()
        &&& self.missing ==> self.position < self.paths.len()
    }

    /// The paths that this check looks for, in order.
    pub closed spec fn paths(&self) -> Seq<Seq<char>> {
        texts(self.paths@)
    }

    /// How many paths have been found to exist.
    pub closed spec fn position(&self) -> int {
        self.position as int
    }

    /// Whether a path has been found missing.
    pub closed spec fn missing(&self) -> bool {
        self.missing
    }

    /// The check is consistent.
    pub open spec fn wf(&self) -> bool {
        &&& 0 <= self.position() <= self.paths().len()
        &&& self.missing() ==> self.position() < self.paths().len()
    }

    /// Nothing is left to look for.
    pub open spec fn finished(&self) -> bool {
        self.missing() || self.position() >= self.paths().len()
    }

    /// What this check ends with when every question still to be asked is
    /// answered from `existing`: whether a path is missing.
    pub open spec fn outcome(&self, existing: Set<Seq<char>>) -> bool {
        self.missing() || any_missing(self.paths().skip(self.position()), existing)
    }

    /// This is the check at its start for the given paths.
    pub open spec fn starts(&self, paths: Seq<Seq<char>>) -> bool {
        &&& self.wf()
        &&& self.paths() == paths
        &&& self.position() == 0
        &&& !self.missing()
    }

    /// `self` is what `before` becomes when its pending question is answered
    /// with `exists`.
    pub open spec fn follows(&self, before: &MissingPaths, exists: bool) -> bool {
        &&& self.wf()
        &&& self.paths() == before.paths()
        &&& if before.finished() {
            self.position() == before.position() && self.missing() == before.missing()
        } else if exists {
            self.position() == before.position() + 1 && !self.missing()
        } else {
            self.position() == before.position() && self.missing()
        }
    }

    /// Starts a check of the given paths.
    pub fn new(paths: Vec<String>) -> (check: MissingPaths)
        ensures
            check.starts(texts(paths@)),
    {
        MissingPaths { paths, position: 0, missing: false }
    }

    /// The path to look for next, or `None` when the check has finished.
    pub fn pending(&self) -> (next: Option<String>)
        ensures
            self.wf(),
            next is None <==> self.finished(),
            next matches Some(path) ==> path@ == self.paths()[self.position()],
    {
        proof {
            use_type_invariant(self);
        }
        if self.missing || self.position >= self.paths.len() {
            None
        } else {
            Some(self.paths[self.position].clone())
        }
    }

    /// Takes the answer to the pending question: whether that path exists. A
    /// finished check stays as it is.
    pub fn answer(&mut self, exists: bool)
        ensures
            final(self).follows(old(self), exists),
    {
        proof {
            use_type_invariant(&*self);
        }
        if self.missing || self.position >= self.paths.len() {
        } else if exists {
            self.position = self.position + 1;
        } else {
            self.missing = true;
        }
    }

    /// Whether a path is missing, once the check has finished.
    pub fn result(&self) -> (out: Option<bool>)
        ensures
            self.wf(),
            out is Some <==> self.finished(),
            out matches Some(missing) ==> missing == self.missing(),
    {
        proof {
            use_type_invariant(self);
        }
        if self.missing {
            Some(true)
        } else if self.position >= self.paths.len() {
            Some(false)
        } else {
            None
        }
    }
}

impl MissingPaths {
    /// Runs the check to its end, answering every question from the paths
    /// that are known to exist.
    pub fn check_among(self, existing: &Vec<String>) -> (missing: bool)
        ensures
            missing == self.outcome(texts(existing@).to_set()),
            forall|paths: Seq<Seq<char>>| #[trigger]
                self.starts(paths) ==> missing == any_missing(paths, texts(existing@).to_set()),
    {
        let ghost known = texts(existing@).to_set();
        let ghost start = self;
        let mut check = self;
        proof {
            use_type_invariant(&check);
        }
        loop
            invariant
                check.wf(),
                check.outcome(known) == start.outcome(known),
                known == texts(existing@).to_set(),
            ensures
                check.wf(),
                check.finished(),
                check.outcome(known) == start.outcome(known),
            decreases
                    check.paths().len() - check.position() + (if check.missing() {
                        0int
                    } else {
                        1int
                    }),
        {
            match check.pending() {
                Some(path) => {
                    let ghost before = check;
                    let exists = contains_text(existing, path.as_str());
                    check.answer(exists);
                    proof {
                        lemma_answer_keeps_missing(before, check, exists, known);
                    }
                },
                None => {
                    break ;
                },
            }
        }
        proof {
            lemma_finished_missing(check, known);
            assert forall|paths: Seq<Seq<char>>| #[trigger] start.starts(paths) implies start.outcome(
                known,
            ) == any_missing(paths, known) by {
                assert(start.paths().skip(0) =~= start.paths());
            }
        }
        match check.result() {
            Some(missing) => missing,
            None => false,
        }
    }
}

/// An answer that agrees with what exists on disk does not change what the
/// check ends with.
pub proof fn lemma_answer_keeps_missing(
    before: MissingPaths,
    after: MissingPaths,
    exists: bool,
    existing: Set<Seq<char>>,
)
    requires
        before.wf(),
        after.follows(&before, exists),
        !before.finished() ==> exists == existing.contains(before.paths()[before.position()]),
    ensures
        after.outcome(existing) == before.outcome(existing),
{
    if !before.finished() {
        let rest = before.paths().skip(before.position());
        let later = before.paths().skip(before.position() + 1);
        assert(rest[0] == before.paths()[before.position()]);
        if exists {
            if any_missing(rest, existing) {
                let i = choose|i: int| 0 <= i < rest.len() && !existing.contains(#[trigger] rest[i]);
                assert(later[i - 1] == rest[i]);
            }
            if any_missing(later, existing) {
                let i = choose|i: int|
                    0 <= i < later.len() && !existing.contains(#[trigger] later[i]);
                assert(rest[i + 1] == later[i]);
            }
        }
    }
}

/// A finished check ends with what it has found, whatever exists on disk.
pub proof fn lemma_finished_missing(check: MissingPaths, existing: Set<Seq<char>>)
    requires
        check.wf(),
        check.finished(),
    ensures
        check.outcome(existing) == check.missing(),
{
}

/// Missing-path detection: a check of a package's paths ends with `true`
/// exactly when one of the paths that have to exist is not on disk.
pub proof fn lemma_missing_paths(
    check: MissingPaths,
    data: Json,
    config_root: Seq<char>,
    existing: Set<Seq<char>>,
)
    requires
        check.starts(checked_paths(data, config_root)),
    ensures
        check.outcome(existing) == any_missing(checked_paths(data, config_root), existing),
        (forall|i: int|
            0 <= i < checked_paths(data, config_root).len() ==> existing.contains(
                #[trigger] checked_paths(data, config_root)[i],
            )) ==> !check.outcome(existing),
{
    assert(check.paths().skip(0) =~= check.paths());
}

/// A document without an `env` field names no path, so its package has no
/// missing path.
pub proof fn lemma_no_env_no_missing_paths(
    data: Json,
    config_root: Seq<char>,
    existing: Set<Seq<char>>,
)
    requires
        data.spec_field("env"@) is None,
    ensures
        checked_paths(data, config_root).len() == 0,
        !any_missing(checked_paths(data, config_root), existing),
{
}

/// Reads the `enable` field of a document.
pub fn is_enabled(data: &Json) -> (enabled: bool)
    ensures
        enabled == enabled_in(*data),
{
    match data.field("enable") {
        Some(Json::Bool(flag)) => *flag,
        _ => true,
    }
}

/// The environment of a package document.
pub fn env_map(data: &Json) -> (env: Vec<EnvVar>)
    ensures
        pairs(env@) == package_env(*data),
{
    let mut env: Vec<EnvVar> = Vec::new();
    assert(pairs(env@) =~= Seq::<(Seq<char>, Seq<char>)>::empty());
    match data.field("env") {
        Some(Json::Array(items)) => {
            let mut i: usize = 0;
            assert(items@.take(0) =~= Seq::<Json>::empty());
            while i < items.len()
                invariant
                    i <= items.len(),
                    pairs(env@) == env_of(document_bindings(items@.take(i as int))),
                decreases items.len() - i,
            {
                let ghost done = document_bindings(items@.take(i as int));
                proof {
                    let upto = items@.take(i + 1);
                    assert(upto.drop_last() =~= items@.take(i as int));
                    assert(upto.last() == items@[i as int]);
                }
                match &items[i] {
                    Json::Object(members) => {
                        let mut j: usize = 0;
                        assert(members@.take(0) =~= Seq::<(String, Json)>::empty());
                        assert(done + member_bindings(members@.take(0)) =~= done);
                        while j < members.len()
                            invariant
                                j <= members.len(),
                                pairs(env@) == env_of(
                                    done + member_bindings(members@.take(j as int)),
                                ),
                            decreases members.len() - j,
                        {
                            let ghost sofar = done + member_bindings(members@.take(j as int));
                            proof {
                                let upto = members@.take(j + 1);
                                assert(upto.drop_last() =~= members@.take(j as int));
                                assert(upto.last() == members@[j as int]);
                                if let Some(binding) = binding_of(members@[j as int]) {
                                    let next = done + member_bindings(upto);
                                    assert(next =~= sofar.push(binding));
                                    assert(next.drop_last() =~= sofar);
                                    assert(next.last() == binding);
                                }
                            }
                            match &members[j].1 {
                                Json::Text(text) => {
                                    upsert(&mut env, members[j].0.clone(), text.clone());
                                },
                                Json::Number(number) => {
                                    upsert(&mut env, members[j].0.clone(), number_string(number));
                                },
                                _ => {},
                            }
                            j += 1;
                        }
                        assert(members@.take(members@.len() as int) =~= members@);
                    },
                    _ => {
                        assert(done + Seq::<(Seq<char>, Seq<char>)>::empty() =~= done);
                    },
                }
                i += 1;
            }
            assert(items@.take(items@.len() as int) =~= items@);
        },
        _ => {},
    }
    env
}

/// The raw paths that a package document names.
pub fn raw_paths(data: &Json) -> (raws: Vec<String>)
    ensures
        texts(raws@) == document_paths(env_entries(*data)),
{
    let mut raws: Vec<String> = Vec::new();
    assert(texts(raws@) =~= Seq::<Seq<char>>::empty());
    match data.field("env") {
        Some(Json::Array(items)) => {
            let mut i: usize = 0;
            assert(items@.take(0) =~= Seq::<Json>::empty());
            while i < items.len()
                invariant
                    i <= items.len(),
                    texts(raws@) == document_paths(items@.take(i as int)),
                decreases items.len() - i,
            {
                let ghost done = document_paths(items@.take(i as int));
                proof {
                    let upto = items@.take(i + 1);
                    assert(upto.drop_last() =~= items@.take(i as int));
                    assert(upto.last() == items@[i as int]);
                }
                match &items[i] {
                    Json::Object(members) => {
                        let mut j: usize = 0;
                        assert(members@.take(0) =~= Seq::<(String, Json)>::empty());
                        assert(done + member_paths(members@.take(0)) =~= done);
                        while j < members.len()
                            invariant
                                j <= members.len(),
                                texts(raws@) == done + member_paths(members@.take(j as int)),
                            decreases members.len() - j,
                        {
                            proof {
                                let upto = members@.take(j + 1);
                                assert(upto.drop_last() =~= members@.take(j as int));
                                assert(upto.last() == members@[j as int]);
                            }
                            let key = members[j].0.as_str();
                            if same_text(key, "hpath") || same_text(key, "path") {
                                let raw: String = match &members[j].1 {
                                    Json::Text(text) => text.clone(),
                                    _ => String::new(),
                                };
                                let ghost before = raws@;
                                raws.push(raw);
                                assert(texts(raws@) =~= texts(before).push(raw@));
                                assert(texts(raws@) =~= done + member_paths(
                                    members@.take(j + 1),
                                ));
                            }
                            j += 1;
                        }
                        assert(members@.take(members@.len() as int) =~= members@);
                    },
                    _ => {
                        assert(done + Seq::<Seq<char>>::empty() =~= done);
                    },
                }
                i += 1;
            }
            assert(items@.take(items@.len() as int) =~= items@);
        },
        _ => {},
    }
    raws
}

impl Package {
    /// The package of a document: enabled unless the document says otherwise.
    pub fn from_json(name: String, file_path: String, data: Json, config_root: String) -> (package:
        Package)
        ensures
            package@ == (PackageView {
                name: name@,
                file_path: file_path@,
                data: data,
                enabled: enabled_in(data),
                config_root: config_root@,
            }),
    {
        let enabled = is_enabled(&data);
        Package { name, file_path, data, enabled, config_root }
    }

    /// The variables that the package's document binds.
    pub fn get_env_map(&self) -> (env: Vec<EnvVar>)
        ensures
            pairs(env@) == package_env(self.data),
    {
        env_map(&self.data)
    }

    /// Resolves a raw path against the package's variables and its config
    /// root.
    pub fn resolve_path(&self, raw: &str) -> (path: String)
        ensures
            path@ == resolved(raw@, package_env(self.data), self.config_root@),
    {
        let env = self.get_env_map();
        resolve_placeholders(raw, &env, self.config_root.as_str())
    }

    /// The paths of the package that have to exist, resolved.
    pub fn checked_paths(&self) -> (paths: Vec<String>)
        ensures
            texts(paths@) == checked_paths(self.data, self.config_root@),
    {
        let env = self.get_env_map();
        let raws = raw_paths(&self.data);
        let mut paths: Vec<String> = Vec::new();
        let mut i: usize = 0;
        assert(texts(raws@).take(0) =~= Seq::<Seq<char>>::empty());
        assert(texts(paths@) =~= Seq::<Seq<char>>::empty());
        while i < raws.len()
            invariant
                i <= raws.len(),
                texts(paths@) == resolved_all(
                    texts(raws@).take(i as int),
                    pairs(env@),
                    self.config_root@,
                ),
            decreases raws.len() - i,
        {
            proof {
                let upto = texts(raws@).take(i + 1);
                assert(upto.drop_last() =~= texts(raws@).take(i as int));
                assert(upto.last() == raws@[i as int]@);
            }
            let path = resolve_placeholders(raws[i].as_str(), &env, self.config_root.as_str());
            let ghost before = paths@;
            paths.push(path);
            assert(texts(paths@) =~= texts(before).push(path@));
            i += 1;
        }
        assert(texts(raws@).take(raws@.len() as int) =~= texts(raws@));
        paths
    }

    /// Starts the check for missing paths of this package.
    pub fn has_missing_paths(&self) -> (check: MissingPaths)
        ensures
            check.starts(checked_paths(self.data, self.config_root@)),
    {
        MissingPaths::new(self.checked_paths())
    }
}

/// A file found in the packages directory: its path, and its content where it
/// could be read.
#[derive(Debug)]
pub struct PackageFile {
    pub path: String,
    pub content: Option<String>,
}

/// Whether a path names a package file: its extension is `json`.
pub open spec fn names_package(path: Seq<char>) -> bool {
    path_extension(path) == Some("json"@)
}

/// The name of the package in a file: the file's stem, or the empty text
/// where it has none.
pub open spec fn package_name(path: Seq<char>) -> Seq<char> {
    match path_file_stem(path) {
        Some(stem) => stem,
        None => Seq::<char>::empty(),
    }
}

/// The package that a file gives: none where the file is no package file, could
/// not be read or holds no JSON document.
pub open spec fn package_in(file: PackageFile, config_root: Seq<char>) -> Option<PackageView> {
    if !names_package(file.path@) {
        None
    } else {
        match file.content {
            Some(text) => match parsed(text@) {
                Some(data) => Some(
                    PackageView {
                        name: package_name(file.path@),
                        file_path: file.path@,
                        data: data,
                        enabled: enabled_in(data),
                        config_root: config_root,
                    },
                ),
                None => None,
            },
            None => None,
        }
    }
}

/// The packages that the files give, in the order of the files.
pub open spec fn packages_in(files: Seq<PackageFile>, config_root: Seq<char>) -> Seq<PackageView>
    decreases files.len(),
{
    if files.len() == 0 {
        seq![]
    } else {
        match package_in(files.last(), config_root) {
            Some(package) => packages_in(files.drop_last(), config_root).push(package),
            None => packages_in(files.drop_last(), config_root),
        }
    }
}

/// The keys by which packages are listed: their names in lower case.
pub open spec fn listing_keys(packages: Seq<PackageView>) -> Seq<Seq<char>>
    decreases packages.len(),
{
    if packages.len() == 0 {
        seq![]
    } else {
        listing_keys(packages.drop_last()).push(lowercased(packages.last().name))
    }
}

/// The views of a list of packages.
pub open spec fn views(packages: Seq<Package>) -> Seq<PackageView> {
    packages.map_values(|p: Package| p@)
}

/// Tests whether a path names a package file.
pub fn is_package_file(path: &str) -> (yes: bool)
    ensures
        yes == names_package(path@),
{
    match extension(path) {
        Some(ext) => same_text(ext.as_str(), "json"),
        None => false,
    }
}

/// The packages of a packages directory, from its files: one for every file
/// with the extension `json` that could be read and holds a JSON document,
/// listed by name without regard to case.
pub fn load_packages(files: &Vec<PackageFile>, config_root: &str) -> (packages: Vec<Package>)
    ensures
        views(packages@) == arranged(
            packages_in(files@, config_root@),
            listing_keys(packages_in(files@, config_root@)),
            false,
        ),
{
    let mut packages: Vec<Package> = Vec::new();
    let mut keys: Vec<Vec<char>> = Vec::new();
    let mut i: usize = 0;
    proof {
        assert(files@.take(0) =~= Seq::<PackageFile>::empty());
        assert(views(packages@) =~= Seq::<PackageView>::empty());
        assert(key_texts(keys@) =~= Seq::<Seq<char>>::empty());
    }
    while i < files.len()
        invariant
            i <= files.len(),
            packages@.len() == keys@.len(),
            views(packages@) == arranged(
                packages_in(files@.take(i as int), config_root@),
                listing_keys(packages_in(files@.take(i as int), config_root@)),
                false,
            ),
            key_texts(keys@) == arranged(
                listing_keys(packages_in(files@.take(i as int), config_root@)),
                listing_keys(packages_in(files@.take(i as int), config_root@)),
                false,
            ),
            listing_keys(packages_in(files@.take(i as int), config_root@)).len() == packages_in(
                files@.take(i as int),
                config_root@,
            ).len(),
        decreases files.len() - i,
    {
        let ghost found = packages_in(files@.take(i as int), config_root@);
        proof {
            let upto = files@.take(i + 1);
            assert(upto.drop_last() =~= files@.take(i as int));
            assert(upto.last() == files@[i as int]);
        }
        let file = &files[i];
        if is_package_file(file.path.as_str()) {
            match &file.content {
                Some(text) => {
                    match parse_json(text.as_str()) {
                        Ok(data) => {
                            let name = match file_stem(file.path.as_str()) {
                                Some(stem) => stem,
                                None => String::new(),
                            };
                            let key = chars_of(lowercase(name.as_str()).as_str());
                            let package = Package::from_json(
                                name,
                                file.path.clone(),
                                data,
                                String::from_str(config_root),
                            );
                            let ghost before = packages@;
                            let ghost before_keys = key_texts(keys@);
                            let ghost key_text = key@;
                            let ghost view = package@;
                            proof {
                                let next = found.push(view);
                                assert(next.drop_last() =~= found);
                                assert(next.last() == view);
                                assert(listing_keys(next).drop_last() =~= listing_keys(found));
                                assert(package_in(files@[i as int], config_root@) == Some(view));
                            }
                            place(&mut packages, &mut keys, package, key, false);
                            proof {
                                crate::order::lemma_slot_bounds(before_keys, key_text, false);
                                assert(before.len() == before_keys.len());
                                assert(views(packages@) =~= views(before).insert(
                                    slot(before_keys, key_text, false),
                                    view,
                                ));
                            }
                        },
                        Err(_) => {},
                    }
                },
                None => {},
            }
        }
        i += 1;
    }
    assert(files@.take(files@.len() as int) =~= files@);
    packages
}

/// The listing keys of packages are their names in lower case, position by
/// position.
pub proof fn lemma_listing_keys(packages: Seq<PackageView>)
    ensures
        listing_keys(packages).len() == packages.len(),
        forall|i: int|
            0 <= i < packages.len() ==> #[trigger] listing_keys(packages)[i] == lowercased(
                packages[i].name,
            ),
    decreases packages.len(),
{
    if packages.len() > 0 {
        lemma_listing_keys(packages.drop_last());
        assert forall|i: int| 0 <= i < packages.len() implies #[trigger] listing_keys(packages)[i]
            == lowercased(packages[i].name) by {
            if i < packages.len() - 1 {
                assert(packages.drop_last()[i] == packages[i]);
            }
        }
    }
}

/// The packages of a directory are listed by name without regard to case: the
/// listing holds the packages that the files give, each as often as they do,
/// and no package stands in front of one whose name in lower case comes
/// before its own.
pub proof fn lemma_packages_listed_by_name(packages: Seq<PackageView>)
    ensures
        arranged(packages, listing_keys(packages), false).len() == packages.len(),
        arranged(packages, listing_keys(packages), false).to_multiset() == packages.to_multiset(),
        forall|i: int, j: int|
            0 <= i < j < packages.len() ==> !text_before(
                lowercased((#[trigger] arranged(packages, listing_keys(packages), false)[j]).name),
                lowercased((#[trigger] arranged(packages, listing_keys(packages), false)[i]).name),
            ),
{
    let keys = listing_keys(packages);
    let listed = arranged(packages, keys, false);
    let key_of = |p: PackageView| lowercased(p.name);
    lemma_listing_keys(packages);
    assert forall|i: int| 0 <= i < packages.len() implies key_of(#[trigger] packages[i])
        == keys[i] by {}
    lemma_arranged_carries_keys(packages, keys, key_of, false);
    lemma_arranged_keeps_items(packages, keys, false);
    lemma_arranged_in_order(keys, false);
    let ordered = arranged(keys, keys, false);
    assert forall|i: int, j: int| 0 <= i < j < packages.len() implies !text_before(
        lowercased((#[trigger] listed[j]).name),
        lowercased((#[trigger] listed[i]).name),
    ) by {
        assert(key_of(listed[i]) == ordered[i]);
        assert(key_of(listed[j]) == ordered[j]);
        assert(stays_behind(ordered[i], ordered[j], false));
    }
}

/// Why a package could not be switched on or off.
#[derive(Debug)]
pub enum PackageError {
    /// The file holds no JSON document; with the parser's message.
    Parse(String),
    /// The document is neither an object nor `null`, so it has no fields.
    NotAnObject,
    /// The changed document could not be written; with the writer's message.
    Serialize(String),
}

impl PackageError {
    /// The error in words.
    pub fn message(&self) -> (text: String)
        ensures
            match *self {
                PackageError::Parse(detail) => text@ == "Failed to parse package JSON: "@
                    + detail@,
                PackageError::NotAnObject => text@ == "Package JSON is not an object"@,
                PackageError::Serialize(detail) => text@ == "Failed to serialize package: "@
                    + detail@,
            },
    {
        match self {
            PackageError::Parse(detail) => {
                String::from_str("Failed to parse package JSON: ").concat(detail.as_str())
            },
            PackageError::NotAnObject => String::from_str("Package JSON is not an object"),
            PackageError::Serialize(detail) => {
                String::from_str("Failed to serialize package: ").concat(detail.as_str())
            },
        }
    }
}

/// The file of the package `name` in a packages directory.
pub fn package_file_path(packages_dir: &str, name: &str) -> (path: String)
    ensures
        path@ == path_join(packages_dir@, name@ + ".json"@),
{
    let file = String::from_str(name).concat(".json");
    join(packages_dir, file.as_str())
}

/// Switches a package on or off: the content of its file with the `enable`
/// field of the document set, written as indented JSON. This succeeds for
/// every file that holds an object or `null`.
pub fn save_package_enabled(content: &str, enabled: bool) -> (out: Result<String, PackageError>)
    ensures
        out matches Err(PackageError::Parse(_)) <==> parsed(content@) is None,
        out matches Err(PackageError::NotAnObject) <==> (parsed(content@) matches Some(data)
            && !data.takes_fields()),
        out is Ok <==> (parsed(content@) matches Some(data) && data.takes_fields()),
        out matches Ok(text) ==> exists|after: Json|
            #![trigger written(after)]
            parsed(content@)->0.sets_field("enable"@, Json::Bool(enabled), after) && text@
                == written(after),
{
    match parse_json(content) {
        Err(message) => Err(PackageError::Parse(message)),
        Ok(data) => {
            match data.with_field(String::from_str("enable"), Json::Bool(enabled)) {
                Err(_) => Err(PackageError::NotAnObject),
                Ok(after) => {
                    let ghost changed = after;
                    match write_json(after) {
                        Ok(text) => {
                            assert(text@ == written(changed));
                            Ok(text)
                        },
                        Err(message) => Err(PackageError::Serialize(message)),
                    }
                },
            }
        },
    }
}

/// A document whose `enable` field was set says what it was set to.
pub proof fn lemma_enabled_after_set(data: Json, enabled: bool, after: Json)
    requires
        data.sets_field("enable"@, Json::Bool(enabled), after),
    ensures
        enabled_in(after) == enabled,
{
    crate::json::lemma_set_field_reads_back(data, "enable"@, Json::Bool(enabled), after, "enable"@);
}

/// Enabled by default: a document without an `enable` field is enabled, and one
/// whose `enable` field is a boolean is what the field says.
pub proof fn lemma_enabled_default(data: Json)
    ensures
        data.spec_field("enable"@) is None ==> enabled_in(data),
        data.spec_field("enable"@) matches Some(Json::Bool(flag)) ==> enabled_in(data) == flag,
{
}

} // verus!
