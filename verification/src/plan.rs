//! From the store of entries to the steps that bring it about.

use crate::path::{parent, parent_of};
use crate::store::{Entry, Fixture, Node};
use vstd::prelude::*;
use vstd::string::*;

verus! {

/// One thing to do to the workspace. Paths are relative to its root.
pub enum Step {
    /// Make this directory and every directory above it, where they are
    /// not there yet.
    CreateDir(String),
    /// Write this text to this file, in place of what the file held.
    WriteFile(String, String),
}

/// A step as a mathematical value.
pub enum Action {
    CreateDir(Seq<char>),
    WriteFile(Seq<char>, Seq<char>),
}

impl View for Step {
    type V = Action;

    open spec fn view(&self) -> Action {
        match self {
            Step::CreateDir(dir) => Action::CreateDir(dir@),
            Step::WriteFile(path, content) => Action::WriteFile(path@, content@),
        }
    }
}

impl DeepView for Step {
    type V = Action;

    open spec fn deep_view(&self) -> Action {
        self@
    }
}

/// The steps for one entry. A directory is made with the directories above
/// it. A file is written after the directory that holds it has been made;
/// only for the empty path, which has no parent, nothing is made first.
pub open spec fn steps_for(path: Seq<char>, node: Node) -> Seq<Action> {
    match node {
        Node::Dir => seq![Action::CreateDir(path)],
        Node::File(content) => match parent_of(path) {
            Some(dir) => seq![Action::CreateDir(dir), Action::WriteFile(path, content)],
            None => seq![Action::WriteFile(path, content)],
        },
    }
}

/// The steps for all entries, entry by entry in the order of the store.
pub open spec fn plan_of(items: Seq<(Seq<char>, Node)>) -> Seq<Action>
    decreases items.len(),
{
    if items.len() == 0 {
        Seq::empty()
    } else {
        plan_of(items.drop_last()) + steps_for(items.last().0, items.last().1)
    }
}

/// The steps that materialise `fixture`.
pub fn plan(fixture: &Fixture) -> (steps: Vec<Step>)
    ensures
        steps.deep_view() == plan_of(fixture@),
{
    let mut steps: Vec<Step> = Vec::new();
    let n: usize = fixture.len();
    let mut i: usize = 0;
    assert(fixture@.subrange(0, 0) =~= Seq::empty());
    assert(steps.deep_view() =~= Seq::empty());
    while i < n
        invariant
            i <= n,
            n == fixture@.len(),
            steps.deep_view() == plan_of(fixture@.subrange(0, i as int)),
        decreases n - i,
    {
        let ghost done = steps.deep_view();
        let ghost item = fixture@[i as int];
        let path = fixture.path_at(i);
        match fixture.entry_at(i) {
            Entry::Dir => {
                steps.push(Step::CreateDir(path.to_owned()));
            },
            Entry::File(content) => {
                match parent(path) {
                    Some(dir) => {
                        steps.push(Step::CreateDir(dir));
                    },
                    None => {},
                }
                steps.push(Step::WriteFile(path.to_owned(), content.clone()));
            },
        }
        proof {
            let upto = fixture@.subrange(0, i as int + 1);
            assert(upto.drop_last() =~= fixture@.subrange(0, i as int));
            assert(upto.last() == item);
            assert(steps.deep_view() =~= done + steps_for(item.0, item.1));
        }
        i += 1;
    }
    assert(fixture@.subrange(0, n as int) =~= fixture@);
    steps
}

} // verus!
