//! What an assembly reads from outside the shader text, captured as plain data.
//!
//! The checker's file reads (module fragments, prelude files, a dialect's shared
//! library), deck's project functions resolved from `node_modules`, and the
//! presets a project defines in its own `glslint.toml` are gathered by the caller
//! and handed over as a [`Workspace`]. A path naming no file of `files` is one
//! that could not be read; `.`, `..` and repeated `/` in a path are resolved
//! when it is looked up.

use vstd::prelude::*;
use crate::deck::{ProjectFn, ProjectFnModel, fns_view};
use crate::preset::{Preset, PresetModel, presets_view};
use crate::path::{same_file, same_file_exec};
use crate::text::{lines, to_chars};

verus! {

/// The file contents, deck functions and project presets an assembly may use.
pub struct Workspace {
    /// `(path, contents)` of every readable file; the first entry naming a file wins.
    pub files: Vec<(String, String)>,
    /// deck's `project*` functions from `node_modules` (empty when deck isn't
    /// installed, so the baked-in stub applies).
    pub deck_fns: Vec<ProjectFn>,
    /// The presets of the project's own `glslint.toml`, tried before the bundled ones.
    pub project_presets: Vec<Preset>,
}

pub struct WorkspaceModel {
    pub files: Seq<(Seq<char>, Seq<char>)>,
    pub deck_fns: Seq<ProjectFnModel>,
    pub project_presets: Seq<PresetModel>,
}

pub open spec fn files_view(v: Seq<(String, String)>) -> Seq<(Seq<char>, Seq<char>)> {
    v.map_values(|e: (String, String)| (e.0@, e.1@))
}

impl View for Workspace {
    type V = WorkspaceModel;

    open spec fn view(&self) -> WorkspaceModel {
        WorkspaceModel {
            files: files_view(self.files@),
            deck_fns: fns_view(self.deck_fns@),
            project_presets: presets_view(self.project_presets@),
        }
    }
}

/// The contents of `path`: the first entry naming the same file.
pub open spec fn lookup(files: Seq<(Seq<char>, Seq<char>)>, path: Seq<char>) -> Option<Seq<char>>
    decreases files.len(),
{
    if files.len() == 0 {
        None
    } else if same_file(files[0].0, path) {
        Some(files[0].1)
    } else {
        lookup(files.drop_first(), path)
    }
}

/// Line numbers fit in a `u32` for every file of the workspace.
pub open spec fn line_counts_fit(files: Seq<(Seq<char>, Seq<char>)>) -> bool {
    forall|j: int| 0 <= j < files.len() ==> lines(#[trigger] files[j].1).len() < u32::MAX
}

/// What a lookup finds is the contents of some entry.
pub proof fn lemma_lookup_is_a_file(files: Seq<(Seq<char>, Seq<char>)>, p: Seq<char>)
    ensures
        lookup(files, p) matches Some(c) ==> exists|j: int| 0 <= j < files.len() && (#[trigger] files[j]).1 == c,
    decreases files.len(),
{
    if files.len() > 0 && !same_file(files[0].0, p) {
        lemma_lookup_is_a_file(files.drop_first(), p);
        if lookup(files, p) is Some {
            let j = choose|j: int| 0 <= j < files.drop_first().len() && (#[trigger] files.drop_first()[j]).1 == lookup(files, p).unwrap();
            assert(files[j + 1] == files.drop_first()[j]);
        }
    } else if files.len() > 0 {
        assert(files[0].1 == lookup(files, p).unwrap());
    }
}

impl Workspace {
    /// No files, no deck functions, no project presets.
    pub fn empty() -> (r: Workspace)
        ensures
            r@.files.len() == 0,
            r@.deck_fns.len() == 0,
            r@.project_presets.len() == 0,
    {
        Workspace { files: Vec::new(), deck_fns: Vec::new(), project_presets: Vec::new() }
    }

    /// The contents of `path`, when it was readable.
    pub fn read(&self, path: &[char]) -> (r: Option<&String>)
        ensures
            match r {
                Some(c) => lookup(self@.files, path@) == Some(c@),
                None => lookup(self@.files, path@) is None,
            },
    {
        let mut i: usize = 0;
        let ghost fv = self@.files;
        assert(fv.skip(0) == fv);
        while i < self.files.len()
            invariant
                0 <= i <= self.files.len(),
                fv == files_view(self.files@),
                lookup(fv, path@) == lookup(fv.skip(i as int), path@),
            decreases self.files.len() - i,
        {
            proof {
                assert(fv.skip(i as int)[0] == (self.files@[i as int].0@, self.files@[i as int].1@));
                assert(fv.skip(i as int).drop_first() == fv.skip(i + 1));
            }
            if same_file_exec(to_chars(self.files[i].0.as_str()).as_slice(), path) {
                return Some(&self.files[i].1);
            }
            i = i + 1;
        }
        None
    }

    /// Whether `path` names a readable file.
    pub fn has_file(&self, path: &[char]) -> (r: bool)
        ensures
            r == (lookup(self@.files, path@) is Some),
    {
        self.read(path).is_some()
    }
}

} // verus!
