//! A snapshot of the WGSL files visible to one resolution pass: each entry
//! pairs a canonical absolute path with the file's full text.
//!
//! The resolver consults the snapshot for existence checks and file reads,
//! so every answer it gives is a deterministic function of the snapshot.

use vstd::prelude::*;
use crate::paths::{AbsoluteWgslPath, components_view};

verus! {

pub struct FileTree {
    pub entries: Vec<(AbsoluteWgslPath, String)>,
}

impl FileTree {
    /// Well-formed: every key is a valid absolute WGSL path and no two
    /// entries name the same file.
    pub open spec fn wf(&self) -> bool {
        &&& forall|i: int| 0 <= i < self.entries@.len() ==> (#[trigger] self.entries@[i].0).wf()
        &&& forall|i: int, j: int|
            0 <= i < self.entries@.len() && 0 <= j < self.entries@.len() && i != j
                ==> self.entries@[i].0@ != self.entries@[j].0@
    }

    /// Whether a file with canonical path `p` exists in the snapshot.
    pub open spec fn contains_path(&self, p: Seq<Seq<char>>) -> bool {
        exists|i: int| 0 <= i < self.entries@.len() && self.entries@[i].0@ == p
    }

    /// The text of the file at canonical path `p`.
    pub open spec fn text_of(&self, p: Seq<Seq<char>>) -> Seq<char> {
        let i = choose|i: int| 0 <= i < self.entries@.len() && self.entries@[i].0@ == p;
        self.entries@[i].1@
    }

    pub fn new() -> (r: Self)
        ensures
            r.wf(),
            r.entries@.len() == 0,
    {
        FileTree { entries: Vec::new() }
    }

    /// Adds a file to the snapshot.  Returns `false`, changing nothing, if a
    /// file with the same canonical path is already present.
    pub fn insert(&mut self, path: AbsoluteWgslPath, text: String) -> (r: bool)
        requires
            old(self).wf(),
            path.wf(),
        ensures
            final(self).wf(),
            r == !old(self).contains_path(path@),
            r ==> final(self).entries@ == old(self).entries@.push((path, text)),
            !r ==> final(self).entries@ == old(self).entries@,
    {
        match self.find(&path) {
            Some(_) => false,
            None => {
                self.entries.push((path, text));
                true
            },
        }
    }

    /// Finds the entry whose path equals `path`.
    pub fn find(&self, path: &AbsoluteWgslPath) -> (r: Option<usize>)
        ensures
            match r {
                Some(i) => i < self.entries@.len() && self.entries@[i as int].0@ == path@,
                None => !self.contains_path(path@),
            },
    {
        let mut i: usize = 0;
        while i < self.entries.len()
            invariant
                i <= self.entries@.len(),
                forall|j: int| 0 <= j < i ==> self.entries@[j].0@ != path@,
            decreases self.entries@.len() - i,
        {
            if self.entries[i].0.matches(path) {
                return Some(i);
            }
            i = i + 1;
        }
        None
    }

    /// Finds the entry whose path consists of the given components.
    pub fn find_components(&self, comps: &Vec<String>) -> (r: Option<usize>)
        ensures
            match r {
                Some(i) => i < self.entries@.len() && self.entries@[i as int].0@ == components_view(
                    comps@,
                ),
                None => !self.contains_path(components_view(comps@)),
            },
    {
        let mut i: usize = 0;
        while i < self.entries.len()
            invariant
                i <= self.entries@.len(),
                forall|j: int| 0 <= j < i ==> self.entries@[j].0@ != components_view(comps@),
            decreases self.entries@.len() - i,
        {
            if self.entries[i].0.matches_components(comps) {
                return Some(i);
            }
            i = i + 1;
        }
        None
    }

    /// The path of entry `i`.
    pub fn path_at(&self, i: usize) -> (r: &AbsoluteWgslPath)
        requires
            i < self.entries@.len(),
        ensures
            r == self.entries@[i as int].0,
    {
        &self.entries[i].0
    }

    /// The text of entry `i`.
    pub fn text_at(&self, i: usize) -> (r: &String)
        requires
            i < self.entries@.len(),
        ensures
            r == self.entries@[i as int].1,
    {
        &self.entries[i].1
    }

    /// In a well-formed snapshot, the entry found for a path carries the
    /// text that `text_of` denotes.
    pub proof fn lemma_entry_text(&self, i: int)
        requires
            self.wf(),
            0 <= i < self.entries@.len(),
        ensures
            self.contains_path(self.entries@[i].0@),
            self.text_of(self.entries@[i].0@) == self.entries@[i].1@,
    {
        let p = self.entries@[i].0@;
        assert(self.contains_path(p));
        let j = choose|j: int| 0 <= j < self.entries@.len() && self.entries@[j].0@ == p;
        assert(j == i);
    }
}

} // verus!
