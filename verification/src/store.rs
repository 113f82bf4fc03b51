//! The store of entries: which paths a workspace is to hold, and as what.
//!
//! The store is filled before anything is written. It keeps one entry per
//! path, in the order in which the paths were first named.

use vstd::prelude::*;
use vstd::string::*;

verus! {

/// What a path is to become.
pub enum Entry {
    /// A regular file with this text.
    File(String),
    /// A directory.
    Dir,
}

/// An entry as a mathematical value.
pub enum Node {
    File(Seq<char>),
    Dir,
}

impl View for Entry {
    type V = Node;

    open spec fn view(&self) -> Node {
        match self {
            Entry::File(content) => Node::File(content@),
            Entry::Dir => Node::Dir,
        }
    }
}

/// Some entry of `items` is about `path`.
pub open spec fn holds(items: Seq<(Seq<char>, Node)>, path: Seq<char>) -> bool {
    exists|i: int| 0 <= i < items.len() && (#[trigger] items[i]).0 == path
}

/// The place of an entry about `path`.
pub open spec fn index_of(items: Seq<(Seq<char>, Node)>, path: Seq<char>) -> int {
    choose|i: int| 0 <= i < items.len() && (#[trigger] items[i]).0 == path
}

/// No path has two entries.
pub open spec fn distinct_paths(items: Seq<(Seq<char>, Node)>) -> bool {
    forall|i: int, j: int|
        0 <= i < j < items.len() ==> (#[trigger] items[i]).0 != (#[trigger] items[j]).0
}

/// The entries as a map from path to what the path is to become.
pub open spec fn as_map(items: Seq<(Seq<char>, Node)>) -> Map<Seq<char>, Node> {
    Map::new(|p: Seq<char>| holds(items, p), |p: Seq<char>| items[index_of(items, p)].1)
}

/// The entries once `path` is set to `node`: the entry about `path` is
/// replaced where it stands, or a new one is put at the end.
pub open spec fn upsert(items: Seq<(Seq<char>, Node)>, path: Seq<char>, node: Node) -> Seq<
    (Seq<char>, Node),
> {
    if holds(items, path) {
        items.update(index_of(items, path), (path, node))
    } else {
        items.push((path, node))
    }
}

/// Setting a path keeps the paths distinct.
pub proof fn lemma_upsert_distinct(items: Seq<(Seq<char>, Node)>, path: Seq<char>, node: Node)
    requires
        distinct_paths(items),
    ensures
        distinct_paths(upsert(items, path, node)),
{
    let after = upsert(items, path, node);
    assert forall|i: int, j: int| 0 <= i < j < after.len() implies (#[trigger] after[i]).0 != (
    #[trigger] after[j]).0 by {
        if holds(items, path) {
            assert(after[i].0 == items[i].0);
            assert(after[j].0 == items[j].0);
        } else {
            if j < items.len() {
                assert(after[i] == items[i] && after[j] == items[j]);
            } else {
                assert(after[i] == items[i]);
            }
        }
    }
}

/// In a store with distinct paths the entry about a path is found at the
/// one place where the path stands.
pub proof fn lemma_index_of(items: Seq<(Seq<char>, Node)>, i: int)
    requires
        distinct_paths(items),
        0 <= i < items.len(),
    ensures
        holds(items, items[i].0),
        index_of(items, items[i].0) == i,
{
    let k = index_of(items, items[i].0);
    if k < i {
        assert(items[k].0 != items[i].0);
    } else if i < k {
        assert(items[i].0 != items[k].0);
    }
}

/// Setting a path is an insertion into the map of entries: the last write
/// to a path wins, and no other path is touched.
pub proof fn lemma_upsert_map(items: Seq<(Seq<char>, Node)>, path: Seq<char>, node: Node)
    requires
        distinct_paths(items),
    ensures
        as_map(upsert(items, path, node)) == as_map(items).insert(path, node),
{
    let after = upsert(items, path, node);
    lemma_upsert_distinct(items, path, node);
    let lhs = as_map(after);
    let rhs = as_map(items).insert(path, node);
    assert forall|p: Seq<char>| lhs.dom().contains(p) <==> rhs.dom().contains(p) by {
        if holds(items, path) {
            if holds(after, p) {
                let i = index_of(after, p);
                assert(after[i].0 == items[i].0);
            }
            if holds(items, p) {
                let i = index_of(items, p);
                assert(after[i].0 == p);
            }
        } else {
            let last = items.len() as int;
            assert(after[last].0 == path);
            if holds(after, p) {
                let i = index_of(after, p);
                if i < last {
                    assert(after[i] == items[i]);
                }
            }
            if holds(items, p) {
                let i = index_of(items, p);
                assert(after[i] == items[i]);
            }
        }
    }
    assert forall|p: Seq<char>| lhs.dom().contains(p) implies lhs[p] == rhs[p] by {
        let i = index_of(after, p);
        lemma_index_of(after, i);
        if holds(items, path) {
            let k = index_of(items, path);
            if p != path {
                assert(after[i] == items[i]);
                lemma_index_of(items, i);
            } else {
                lemma_index_of(items, k);
                assert(after[k].0 == path);
                lemma_index_of(after, k);
            }
        } else {
            let last = items.len() as int;
            if i < last {
                assert(after[i] == items[i]);
                lemma_index_of(items, i);
            }
        }
    }
    assert(lhs =~= rhs);
}

/// What a workspace is to hold: one entry for each path that was named.
pub struct Fixture {
    items: Vec<(String, Entry)>,
}

impl View for Fixture {
    type V = Seq<(Seq<char>, Node)>;

    closed spec fn view(&self) -> Seq<(Seq<char>, Node)> {
        Seq::new(self.items@.len(), |i: int| (self.items@[i].0@, self.items@[i].1@))
    }
}

impl Fixture {
    #[verifier::type_invariant]
    spec fn paths_are_distinct(&self) -> bool {
        distinct_paths(self@)
    }

    /// The entries as a map.
    pub open spec fn map(&self) -> Map<Seq<char>, Node> {
        as_map(self@)
    }

    /// A store without entries.
    pub fn new() -> (s: Self)
        ensures
            s@ == Seq::<(Seq<char>, Node)>::empty(),
            distinct_paths(s@),
    {
        let s = Fixture { items: Vec::new() };
        assert(s@ =~= Seq::<(Seq<char>, Node)>::empty());
        s
    }

    /// How many paths the store names.
    pub fn len(&self) -> (n: usize)
        ensures
            n == self@.len(),
    {
        self.items.len()
    }

    /// The path of the entry at place `i`.
    pub fn path_at(&self, i: usize) -> (p: &str)
        requires
            i < self@.len(),
        ensures
            p@ == self@[i as int].0,
    {
        self.items[i].0.as_str()
    }

    /// What the entry at place `i` is to become.
    pub fn entry_at(&self, i: usize) -> (e: &Entry)
        requires
            i < self@.len(),
        ensures
            e@ == self@[i as int].1,
    {
        &self.items[i].1
    }

    /// The place of the entry about `path`, where there is one.
    pub fn find(&self, path: &str) -> (r: Option<usize>)
        ensures
            r is Some <==> holds(self@, path@),
            r is Some ==> r->0 < self@.len() && self@[r->0 as int].0 == path@,
            r is Some ==> r->0 == index_of(self@, path@),
    {
        proof {
            use_type_invariant(self);
        }
        let key = path.to_owned();
        let mut i: usize = 0;
        while i < self.items.len()
            invariant
                i <= self.items@.len(),
                key@ == path@,
                distinct_paths(self@),
                forall|j: int| 0 <= j < i ==> (#[trigger] self@[j]).0 != path@,
            decreases self.items@.len() - i,
        {
            if self.items[i].0 == key {
                assert(self@[i as int].0 == path@);
                proof {
                    lemma_index_of(self@, i as int);
                }
                return Some(i);
            }
            i += 1;
        }
        None
    }

    /// What `path` is to become, where the store names it.
    pub fn get(&self, path: &str) -> (r: Option<&Entry>)
        ensures
            r is Some <==> self.map().dom().contains(path@),
            r is Some ==> r->0@ == self.map()[path@],
    {
        match self.find(path) {
            Some(i) => Some(&self.items[i].1),
            None => None,
        }
    }

    /// Sets `path` to `entry`, in place of what the store said of it before.
    pub fn set(&mut self, path: &str, entry: Entry)
        ensures
            final(self)@ == upsert(old(self)@, path@, entry@),
            final(self).map() == old(self).map().insert(path@, entry@),
            distinct_paths(final(self)@),
    {
        proof {
            use_type_invariant(&*self);
            lemma_upsert_distinct(self@, path@, entry@);
            lemma_upsert_map(self@, path@, entry@);
        }
        let ghost before = self@;
        let found = self.find(path);
        let mut items: Vec<(String, Entry)> = Vec::new();
        std::mem::swap(&mut items, &mut self.items);
        match found {
            Some(i) => {
                items.set(i, (path.to_owned(), entry));
            },
            None => {
                items.push((path.to_owned(), entry));
            },
        }
        let ghost after = Seq::new(items@.len(), |i: int| (items@[i].0@, items@[i].1@));
        assert(after =~= upsert(before, path@, entry@));
        self.items = items;
    }

    /// Records that `path` is to be a regular file that holds `content`.
    pub fn add_file(&mut self, path: &str, content: &str)
        ensures
            final(self)@ == upsert(old(self)@, path@, Node::File(content@)),
            final(self).map() == old(self).map().insert(path@, Node::File(content@)),
            distinct_paths(final(self)@),
    {
        self.set(path, Entry::File(content.to_owned()));
    }

    /// Records that `path` is to be a directory.
    pub fn add_dir(&mut self, path: &str)
        ensures
            final(self)@ == upsert(old(self)@, path@, Node::Dir),
            final(self).map() == old(self).map().insert(path@, Node::Dir),
            distinct_paths(final(self)@),
    {
        self.set(path, Entry::Dir);
    }
}

} // verus!
