//! Where the launcher keeps its own files, what a saved setting says, and what
//! makes a directory look like a config root.

use vstd::prelude::*;
use crate::paths::{join, opt_text, path_join, texts};
use crate::text::{chars_of, same_text, string_of, trim, trimmed};

verus! {

/// `dirs::home_dir`: the home directory of the current user, as text. It depends
/// on the environment of the process, so nothing is promised of it.
#[verifier::external_body]
pub fn get_home_dir() -> Option<String> {
    dirs::home_dir().map(|p| p.to_string_lossy().into_owned())
}

/// The launcher's own directory for a given home directory: `houdini-launcher`
/// under the home, or the bare name when no home is known.
pub open spec fn config_dir_of(home: Option<Seq<char>>) -> Seq<char> {
    match home {
        Some(h) => path_join(h, "houdini-launcher"@),
        None => "houdini-launcher"@,
    }
}

/// The launcher's own directory for the given home directory.
pub fn config_dir_in(home: &Option<String>) -> (dir: String)
    ensures
        dir@ == config_dir_of(opt_text(*home)),
{
    match home {
        Some(h) => join(h.as_str(), "houdini-launcher"),
        None => String::from_str("houdini-launcher"),
    }
}

/// The file `name` inside the launcher's own directory for the given home.
pub fn config_file_in(home: &Option<String>, name: &str) -> (file: String)
    ensures
        file@ == path_join(config_dir_of(opt_text(*home)), name@),
{
    let dir = config_dir_in(home);
    join(dir.as_str(), name)
}

/// The launcher's own directory, for the home directory of the current user.
pub fn get_config_dir() -> (dir: String)
    ensures
        exists|home: Option<Seq<char>>| dir@ == #[trigger] config_dir_of(home),
{
    let home = get_home_dir();
    let dir = config_dir_in(&home);
    assert(dir@ == config_dir_of(opt_text(home)));
    dir
}

/// Some home directory puts the file `name` of the launcher's own directory at
/// `file`.
pub open spec fn is_config_file(file: Seq<char>, name: Seq<char>) -> bool {
    exists|home: Option<Seq<char>>| file == path_join(#[trigger] config_dir_of(home), name)
}

fn current_config_file(name: &str) -> (file: String)
    ensures
        is_config_file(file@, name@),
{
    let home = get_home_dir();
    let file = config_file_in(&home, name);
    assert(file@ == path_join(config_dir_of(opt_text(home)), name@));
    file
}

/// The file that holds the saved config root.
pub fn get_config_root_txt_path() -> (file: String)
    ensures
        is_config_file(file@, "config_root.txt"@),
{
    current_config_file("config_root.txt")
}

/// The presets file in the launcher's own directory.
pub fn get_presets_json_path() -> (file: String)
    ensures
        is_config_file(file@, "launcher_presets.json"@),
{
    current_config_file("launcher_presets.json")
}

/// The favorites file in the launcher's own directory.
pub fn get_favorites_json_path() -> (file: String)
    ensures
        is_config_file(file@, "launcher_favorites.json"@),
{
    current_config_file("launcher_favorites.json")
}

/// The file that holds the saved installation root.
pub fn get_houdini_root_txt_path() -> (file: String)
    ensures
        is_config_file(file@, "houdini_root.txt"@),
{
    current_config_file("houdini_root.txt")
}

/// The file that holds the saved executable.
pub fn get_houdini_exe_txt_path() -> (file: String)
    ensures
        is_config_file(file@, "houdini_exe.txt"@),
{
    current_config_file("houdini_exe.txt")
}

/// The file that holds the switch of the render-farm monitor.
pub fn get_deadline_monitor_txt_path() -> (file: String)
    ensures
        is_config_file(file@, "deadline_monitor_enabled.txt"@),
{
    current_config_file("deadline_monitor_enabled.txt")
}

/// The launcher's icon for the given home directory: the file
/// `houdini_badge_flat.svg` in the directory `icon` of the launcher's own
/// directory.
pub open spec fn app_icon_of(home: Option<Seq<char>>) -> Seq<char> {
    path_join(path_join(config_dir_of(home), "icon"@), "houdini_badge_flat.svg"@)
}

/// The launcher's icon for the given home directory.
pub fn app_icon_in(home: &Option<String>) -> (file: String)
    ensures
        file@ == app_icon_of(opt_text(*home)),
{
    let dir = config_file_in(home, "icon");
    join(dir.as_str(), "houdini_badge_flat.svg")
}

/// The launcher's icon, for the home directory of the current user.
pub fn get_app_icon_path() -> (file: String)
    ensures
        exists|home: Option<Seq<char>>| file@ == #[trigger] app_icon_of(home),
{
    let home = get_home_dir();
    let file = app_icon_in(&home);
    assert(file@ == app_icon_of(opt_text(home)));
    file
}

/// The name of the environment variable that may name the config root.
pub fn config_root_variable() -> (name: String)
    ensures
        name@ == "HOUDINI_CONFIG_ROOT"@,
{
    String::from_str("HOUDINI_CONFIG_ROOT")
}

/// What a one-line settings file says: its text without surrounding
/// whitespace, or nothing when that is empty or the file could not be read.
pub open spec fn saved_value(content: Option<Seq<char>>) -> Option<Seq<char>> {
    match content {
        Some(text) => if trimmed(text).len() == 0 {
            None
        } else {
            Some(trimmed(text))
        },
        None => None,
    }
}

/// Reads a one-line settings file from its content; `None` stands for a file
/// that is missing or unreadable.
pub fn saved_text(content: &Option<String>) -> (value: Option<String>)
    ensures
        opt_text(value) == saved_value(opt_text(*content)),
{
    match content {
        Some(text) => {
            let t = trim(text.as_str());
            if t.as_str().unicode_len() == 0 {
                None
            } else {
                Some(t)
            }
        },
        None => None,
    }
}

/// The saved config root, from the content of the file that holds it.
pub fn load_saved_config_root(content: &Option<String>) -> (root: Option<String>)
    ensures
        opt_text(root) == saved_value(opt_text(*content)),
{
    saved_text(content)
}

/// The text to write when a config root is saved: the root without surrounding
/// whitespace.
pub fn save_config_root(root: &str) -> (content: String)
    ensures
        content@ == trimmed(root@),
{
    trim(root)
}

/// Whether a character separates the components of a path.
pub open spec fn is_separator(c: char) -> bool {
    c == '/' || c == '\\'
}

/// `text` without the separators that it begins with.
pub open spec fn without_leading_separators(text: Seq<char>) -> Seq<char>
    decreases text.len(),
{
    if text.len() > 0 && is_separator(text[0]) {
        without_leading_separators(text.skip(1))
    } else {
        text
    }
}

/// A path with a leading `~` replaced by the home directory: the home joined
/// with what follows the `~` and the separators behind it. Without a home
/// directory, and without a leading `~`, the path stays as it is.
pub open spec fn expanded(path: Seq<char>, home: Option<Seq<char>>) -> Seq<char> {
    match home {
        Some(h) => if path.len() > 0 && path[0] == '~' {
            path_join(h, without_leading_separators(path.skip(1)))
        } else {
            path
        },
        None => path,
    }
}

/// Expands a leading `~` in `path` to the given home directory.
pub fn expand_tilde(path: String, home: &Option<String>) -> (out: String)
    ensures
        out@ == expanded(path@, opt_text(*home)),
{
    match home {
        Some(h) => {
            let chars = chars_of(path.as_str());
            if chars.len() > 0 && chars[0] == '~' {
                let mut start: usize = 1;
                assert(path@.skip(1) =~= chars@.skip(1));
                while start < chars.len() && (chars[start] == '/' || chars[start] == '\\')
                    invariant
                        1 <= start <= chars.len(),
                        without_leading_separators(chars@.skip(1)) == without_leading_separators(
                            chars@.skip(start as int),
                        ),
                    decreases chars.len() - start,
                {
                    assert(chars@.skip(start as int)[0] == chars@[start as int]);
                    assert(chars@.skip(start as int).skip(1) =~= chars@.skip(start + 1));
                    start += 1;
                }
                proof {
                    let rest = chars@.skip(start as int);
                    if start < chars.len() {
                        assert(rest[0] == chars@[start as int]);
                    }
                    assert(without_leading_separators(rest) == rest);
                }
                let mut rest: Vec<char> = Vec::new();
                let mut i: usize = start;
                while i < chars.len()
                    invariant
                        start <= i <= chars.len(),
                        rest@ == chars@.subrange(start as int, i as int),
                    decreases chars.len() - i,
                {
                    rest.push(chars[i]);
                    i += 1;
                }
                assert(rest@ =~= chars@.skip(start as int));
                let rest = string_of(&rest);
                join(h.as_str(), rest.as_str())
            } else {
                path
            }
        },
        None => path,
    }
}

/// Expands a leading `~` in `p` to the home directory of the current user.
pub fn normalize_path(p: String) -> (out: String)
    ensures
        exists|home: Option<Seq<char>>| out@ == #[trigger] expanded(p@, home),
{
    let home = get_home_dir();
    let ghost before = p@;
    let out = expand_tilde(p, &home);
    assert(out@ == expanded(before, opt_text(home)));
    out
}

/// The directory whose presence makes `root` look like a config root.
pub fn packages_dir(root: &str) -> (dir: String)
    ensures
        dir@ == path_join(root@, "packages"@),
{
    join(root, "packages")
}

/// Whether `path` looks like a config root, given the directories that exist:
/// its `packages` entry is one of them.
pub open spec fn looks_like_root(path: Seq<char>, directories: Set<Seq<char>>) -> bool {
    directories.contains(path_join(path, "packages"@))
}

/// The paths that look like a config root, given the directories that exist.
pub open spec fn roots_among(directories: Set<Seq<char>>) -> Set<Seq<char>> {
    Set::new(|path: Seq<char>| looks_like_root(path, directories))
}

/// Whether `item` is one of `list`.
pub fn contains_text(list: &Vec<String>, item: &str) -> (found: bool)
    ensures
        found == texts(list@).contains(item@),
{
    let mut i: usize = 0;
    while i < list.len()
        invariant
            i <= list.len(),
            forall|j: int| 0 <= j < i ==> texts(list@)[j] != item@,
        decreases list.len() - i,
    {
        if same_text(list[i].as_str(), item) {
            assert(texts(list@)[i as int] == item@);
            return true;
        }
        i += 1;
    }
    false
}

/// Tests whether `path` looks like a config root, given the directories that
/// are known to exist.
pub fn looks_like_config_root(path: &str, directories: &Vec<String>) -> (yes: bool)
    ensures
        yes == looks_like_root(path@, texts(directories@).to_set()),
        yes == roots_among(texts(directories@).to_set()).contains(path@),
{
    let dir = packages_dir(path);
    contains_text(directories, dir.as_str())
}

} // verus!
