//! The data the launcher works with: the file layout under a config root,
//! presets, favorites, global variables and installed versions.

use vstd::prelude::*;
use crate::paths::{join, path_join};

verus! {

/// The files and directories that belong to a config root.
#[derive(Debug, Clone)]
pub struct ConfigPaths {
    pub root: String,
    pub packages_dir: String,
    pub global_vars_file: String,
    pub presets_file: String,
    pub favorites_file: String,
    pub houdini_root_file: String,
    pub houdini_exe_file: String,
}

impl ConfigPaths {
    /// Every field is the given root joined with that field's fixed segments.
    pub open spec fn derived_from(&self, root: Seq<char>) -> bool {
        &&& self.root@ == root
        &&& self.packages_dir@ == path_join(root, "packages"@)
        &&& self.global_vars_file@ == path_join(path_join(root, "scripts"@), "global_vars.json"@)
        &&& self.presets_file@ == path_join(path_join(root, "config"@), "launcher_presets.json"@)
        &&& self.favorites_file@ == path_join(
            path_join(root, "config"@),
            "launcher_favorites.json"@,
        )
        &&& self.houdini_root_file@ == path_join(path_join(root, "config"@), "houdini_root.txt"@)
        &&& self.houdini_exe_file@ == path_join(path_join(root, "config"@), "houdini_exe.txt"@)
    }

    /// The bundle is consistent: all fields follow from its own root.
    pub open spec fn wf(&self) -> bool {
        self.derived_from(self.root@)
    }

    /// The root that a bundle is computed from: the given one, or the current
    /// directory `.` when none is given.
    pub open spec fn root_or_here(root: Option<String>) -> Seq<char> {
        match root {
            Some(r) => r@,
            None => "."@,
        }
    }

    /// The layout under `root`, or under `.` when no root is given.
    pub fn from_root(root: &Option<String>) -> (paths: ConfigPaths)
        ensures
            paths.derived_from(Self::root_or_here(*root)),
            paths.wf(),
    {
        let root: String = match root {
            Some(r) => r.clone(),
            None => String::from_str("."),
        };
        let scripts = join(root.as_str(), "scripts");
        let config = join(root.as_str(), "config");
        ConfigPaths {
            packages_dir: join(root.as_str(), "packages"),
            global_vars_file: join(scripts.as_str(), "global_vars.json"),
            presets_file: join(config.as_str(), "launcher_presets.json"),
            favorites_file: join(config.as_str(), "launcher_favorites.json"),
            houdini_root_file: join(config.as_str(), "houdini_root.txt"),
            houdini_exe_file: join(config.as_str(), "houdini_exe.txt"),
            root,
        }
    }
}

/// A named choice of packages for one version of the application, with an
/// optional picture. An empty `avatar` or `avatar_path` stands for none.
#[derive(Debug, Clone)]
pub struct PresetData {
    pub name: String,
    pub packages: Vec<String>,
    pub houdini: String,
    pub avatar: String,
    pub avatar_path: String,
}

/// The presets of a config root and the name of the default one.
#[derive(Debug, Clone)]
pub struct PresetsFile {
    pub default: Option<String>,
    pub presets: Vec<PresetData>,
}

/// The favorite packages of a config root.
#[derive(Debug, Clone)]
pub struct FavoritesFile {
    pub favorites: Vec<String>,
}

/// One global variable.
#[derive(Debug, Clone)]
pub struct GlobalVar {
    pub name: String,
    pub value: String,
}

/// The global variables of a config root, each name once.
#[derive(Debug, Clone)]
pub struct GlobalVarsFile {
    pub vars: Vec<GlobalVar>,
}

/// An installed version of the application.
#[derive(Debug, Clone)]
pub struct HoudiniVersion {
    pub name: String,
    pub path: String,
    pub bin_path: String,
}

/// What a preset holds, with its texts as sequences of characters.
pub struct PresetView {
    pub name: Seq<char>,
    pub packages: Seq<Seq<char>>,
    pub houdini: Seq<char>,
    pub avatar: Seq<char>,
    pub avatar_path: Seq<char>,
}

impl View for PresetData {
    type V = PresetView;

    open spec fn view(&self) -> PresetView {
        PresetView {
            name: self.name@,
            packages: crate::paths::texts(self.packages@),
            houdini: self.houdini@,
            avatar: self.avatar@,
            avatar_path: self.avatar_path@,
        }
    }
}

/// What an installed version holds, with its texts as sequences of characters.
pub struct VersionView {
    pub name: Seq<char>,
    pub path: Seq<char>,
    pub bin_path: Seq<char>,
}

impl View for HoudiniVersion {
    type V = VersionView;

    open spec fn view(&self) -> VersionView {
        VersionView { name: self.name@, path: self.path@, bin_path: self.bin_path@ }
    }
}

/// What a presets file holds, with its texts as sequences of characters.
pub struct PresetsView {
    pub default: Option<Seq<char>>,
    pub presets: Seq<PresetView>,
}

/// The views of a list of presets.
pub open spec fn preset_views(presets: Seq<PresetData>) -> Seq<PresetView> {
    presets.map_values(|p: PresetData| p@)
}

impl View for PresetsFile {
    type V = PresetsView;

    open spec fn view(&self) -> PresetsView {
        PresetsView {
            default: crate::paths::opt_text(self.default),
            presets: preset_views(self.presets@),
        }
    }
}

} // verus!
