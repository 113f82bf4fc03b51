//! The test environment: a label, the root of a workspace, and the store
//! that says what the workspace is to hold.
//!
//! Nothing here touches a filesystem. The environment says what is to be
//! done (`setup`) and makes sense of what was found (`tree`, `render`);
//! making directories, writing files and walking the workspace is left to
//! the caller.

use crate::listing::{below, is_listing, lines, listing_of};
use crate::path::resolved;
use crate::plan::{plan_of, Step};
use crate::store::{as_map, distinct_paths, upsert, Fixture, Node};
use vstd::prelude::*;
use vstd::string::*;

verus! {

/// The permission bits of a file that was marked as executable: read and
/// execute for everyone, write for the owner.
pub const EXEC_MODE: u32 = 0o755;

/// The mode lets everyone read and run the file, and the owner alone write
/// it.
pub proof fn exec_mode_bits()
    ensures
        EXEC_MODE & 0o555 == 0o555,
        EXEC_MODE & 0o222 == 0o200,
        EXEC_MODE & !0o777u32 == 0,
{
    assert(0o755u32 & 0o555 == 0o555) by (bit_vector);
    assert(0o755u32 & 0o222 == 0o200) by (bit_vector);
    assert(0o755u32 & !0o777u32 == 0) by (bit_vector);
}

/// A fixture for one test: where its workspace is and what it is to hold.
pub struct IntegrationTestEnvironment {
    label: String,
    root: String,
    fixture: Fixture,
}

/// An environment as a mathematical value.
pub struct EnvironmentView {
    /// The name the test gave to the environment.
    pub label: Seq<char>,
    /// The spelling of the root of the workspace.
    pub root: Seq<char>,
    /// The entries of the store, in the order in which their paths were
    /// first named.
    pub entries: Seq<(Seq<char>, Node)>,
}

impl View for IntegrationTestEnvironment {
    type V = EnvironmentView;

    closed spec fn view(&self) -> EnvironmentView {
        EnvironmentView { label: self.label@, root: self.root@, entries: self.fixture@ }
    }
}

impl IntegrationTestEnvironment {
    /// An environment named `label` whose workspace has been allocated at
    /// `root`. Its store is empty.
    pub fn new(label: &str, root: &str) -> (env: Self)
        ensures
            env@.label == label@,
            env@.root == root@,
            env@.entries == Seq::<(Seq<char>, Node)>::empty(),
    {
        IntegrationTestEnvironment {
            label: label.to_owned(),
            root: root.to_owned(),
            fixture: Fixture::new(),
        }
    }

    /// The name of the environment.
    pub fn label(&self) -> (label: &str)
        ensures
            label@ == self@.label,
    {
        self.label.as_str()
    }

    /// The root of the workspace.
    pub fn path(&self) -> (root: &str)
        ensures
            root@ == self@.root,
    {
        self.root.as_str()
    }

    /// Records that `path`, taken relative to the root, is to be a regular
    /// file that holds exactly `content`. What was said of `path` before is
    /// forgotten; nothing else changes, and nothing is written.
    pub fn add_file(&mut self, path: &str, content: &str)
        ensures
            final(self)@.label == old(self)@.label,
            final(self)@.root == old(self)@.root,
            final(self)@.entries == upsert(old(self)@.entries, path@, Node::File(content@)),
            as_map(final(self)@.entries) == as_map(old(self)@.entries).insert(
                path@,
                Node::File(content@),
            ),
            distinct_paths(final(self)@.entries),
    {
        self.fixture.add_file(path, content);
    }

    /// Records that `path`, taken relative to the root, is to be a
    /// directory. What was said of `path` before is forgotten; nothing else
    /// changes, and nothing is written.
    pub fn add_dir(&mut self, path: &str)
        ensures
            final(self)@.label == old(self)@.label,
            final(self)@.root == old(self)@.root,
            final(self)@.entries == upsert(old(self)@.entries, path@, Node::Dir),
            as_map(final(self)@.entries) == as_map(old(self)@.entries).insert(path@, Node::Dir),
            distinct_paths(final(self)@.entries),
    {
        self.fixture.add_dir(path);
    }

    /// The spelling of `rel` below the root of the workspace.
    pub fn resolve(&self, rel: &str) -> (full: String)
        ensures
            full@ == resolved(self@.root, rel@),
    {
        crate::path::resolve(self.root.as_str(), rel)
    }

    /// The steps that materialise the store, with paths relative to the
    /// root. Carrying them out in order is the caller's part.
    pub fn setup(&self) -> (steps: Vec<Step>)
        ensures
            steps.deep_view() == plan_of(self@.entries),
    {
        crate::plan::plan(&self.fixture)
    }

    /// The tree listing, given the paths that a walk of the workspace
    /// found: those below the root, relative to it, in the order of paths.
    pub fn tree(&self, walked: &Vec<String>) -> (out: Vec<String>)
        ensures
            is_listing(out.deep_view(), below(self@.root, walked.deep_view())),
            out.deep_view() == listing_of(below(self@.root, walked.deep_view())),
    {
        crate::listing::tree(self.root.as_str(), walked)
    }

    /// The tree listing as text, one path to a line.
    pub fn render(&self, walked: &Vec<String>) -> (text: String)
        ensures
            text@ == lines(listing_of(below(self@.root, walked.deep_view()))),
    {
        let listing = self.tree(walked);
        crate::listing::render(&listing)
    }
}

} // verus!
