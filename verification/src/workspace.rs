//! A workspace as a mathematical value, what the steps of a plan do to it,
//! and what setup and the tree listing are proved to give.
//!
//! The workspace is a map from relative path to what stands there. The root
//! itself is always a directory and is not among the keys. A path is
//! identified with its spelling, so what is proved here speaks of plain
//! paths, which a filesystem lists as they are spelled.

use crate::listing::{below, is_listing};
use crate::path::{
    is_ancestor, is_plain, lemma_ancestors_through_parent, parent_of, path_order, relative_to,
    resolved,
};
use crate::plan::{plan_of, steps_for, Action};
use crate::store::{
    as_map, distinct_paths, holds, index_of, lemma_index_of, lemma_upsert_distinct,
    lemma_upsert_map, upsert, Node,
};
use vstd::prelude::*;
use vstd::relations::sorted_by;
use vstd::seq_lib::*;

verus! {

/// Neither `dir` nor a directory above it stands in the workspace as a file.
pub open spec fn can_create_dir(ws: Map<Seq<char>, Node>, dir: Seq<char>) -> bool {
    forall|q: Seq<char>|
        #![trigger ws.dom().contains(q)]
        (q == dir || is_ancestor(q, dir)) && ws.dom().contains(q) ==> ws[q] is Dir
}

/// The workspace once `dir` and the directories above it are there. What
/// stood in the workspace before stays as it was.
pub open spec fn with_dir(ws: Map<Seq<char>, Node>, dir: Seq<char>) -> Map<Seq<char>, Node> {
    Map::new(
        |q: Seq<char>| ws.dom().contains(q) || (q == dir && q.len() > 0) || is_ancestor(q, dir),
        |q: Seq<char>|
            if ws.dom().contains(q) {
                ws[q]
            } else {
                Node::Dir
            },
    )
}

/// A file can be written at `path`: the path names something, no directory
/// stands there, and every directory above it is there.
pub open spec fn can_write_file(ws: Map<Seq<char>, Node>, path: Seq<char>) -> bool {
    &&& path.len() > 0
    &&& ws.dom().contains(path) ==> ws[path] is File
    &&& forall|q: Seq<char>|
        #![trigger is_ancestor(q, path)]
        is_ancestor(q, path) ==> ws.dom().contains(q) && ws[q] is Dir
}

/// What one step makes of the workspace; `None` where the step fails. A
/// step removes nothing: it fails where a file stands in the place of a
/// directory that it needs, or a directory in the place of the file that it
/// is to write.
pub open spec fn apply(ws: Map<Seq<char>, Node>, action: Action) -> Option<Map<Seq<char>, Node>> {
    match action {
        Action::CreateDir(dir) => if can_create_dir(ws, dir) {
            Some(with_dir(ws, dir))
        } else {
            None
        },
        Action::WriteFile(path, content) => if can_write_file(ws, path) {
            Some(ws.insert(path, Node::File(content)))
        } else {
            None
        },
    }
}

/// What the steps make of the workspace, taken in order; `None` as soon as
/// one of them fails.
pub open spec fn run(ws: Map<Seq<char>, Node>, actions: Seq<Action>) -> Option<
    Map<Seq<char>, Node>,
>
    decreases actions.len(),
{
    if actions.len() == 0 {
        Some(ws)
    } else {
        match run(ws, actions.drop_last()) {
            Some(reached) => apply(reached, actions.last()),
            None => None,
        }
    }
}

/// `q` is the path of an entry or names a directory above one.
pub open spec fn implied(items: Seq<(Seq<char>, Node)>, q: Seq<char>) -> bool {
    exists|i: int|
        0 <= i < items.len() && (q == (#[trigger] items[i]).0 || is_ancestor(q, items[i].0))
}

/// The workspace that the entries describe: each entry at its path, and a
/// directory wherever a path needs one above it.
pub open spec fn materialised(items: Seq<(Seq<char>, Node)>) -> Map<Seq<char>, Node> {
    Map::new(
        |q: Seq<char>| implied(items, q),
        |q: Seq<char>|
            if holds(items, q) {
                items[index_of(items, q)].1
            } else {
                Node::Dir
            },
    )
}

/// Every path of the store is plain.
pub open spec fn all_plain(items: Seq<(Seq<char>, Node)>) -> bool {
    forall|i: int| 0 <= i < items.len() ==> is_plain((#[trigger] items[i]).0)
}

/// No entry lies below a path that is to be a file.
pub open spec fn no_file_above(items: Seq<(Seq<char>, Node)>) -> bool {
    forall|i: int, j: int|
        0 <= i < items.len() && 0 <= j < items.len() && (#[trigger] items[i]).1 is File
            ==> !is_ancestor(items[i].0, (#[trigger] items[j]).0)
}

/// The entries can stand together in one workspace: their paths are
/// distinct and plain, and none lies below a file.
pub open spec fn realisable(items: Seq<(Seq<char>, Node)>) -> bool {
    &&& distinct_paths(items)
    &&& all_plain(items)
    &&& no_file_above(items)
}

/// Whatever stands in `ws` stands in `target` too, as the same thing.
pub open spec fn agrees(ws: Map<Seq<char>, Node>, target: Map<Seq<char>, Node>) -> bool {
    forall|q: Seq<char>| #[trigger]
        ws.dom().contains(q) ==> target.dom().contains(q) && ws[q] == target[q]
}

/// The part of the described workspace that is there once the steps for the
/// first `k` entries have run on `start`.
pub open spec fn reached(start: Map<Seq<char>, Node>, items: Seq<(Seq<char>, Node)>, k: int) -> Map<
    Seq<char>,
    Node,
> {
    Map::new(
        |q: Seq<char>| start.dom().contains(q) || implied(items.subrange(0, k), q),
        |q: Seq<char>| materialised(items)[q],
    )
}

/// Running two runs of steps one after the other is running them joined.
pub proof fn lemma_run_concat(ws: Map<Seq<char>, Node>, first: Seq<Action>, then: Seq<Action>)
    ensures
        run(ws, first + then) == match run(ws, first) {
            Some(mid) => run(mid, then),
            None => None,
        },
    decreases then.len(),
{
    if then.len() == 0 {
        assert(first + then =~= first);
    } else {
        assert((first + then).drop_last() =~= first + then.drop_last());
        assert((first + then).last() == then.last());
        lemma_run_concat(ws, first, then.drop_last());
    }
}

/// A run of one step is that step.
pub proof fn lemma_run_one(ws: Map<Seq<char>, Node>, a: Action)
    ensures
        run(ws, seq![a]) == apply(ws, a),
{
    reveal_with_fuel(run, 2);
    assert(seq![a].drop_last() =~= Seq::<Action>::empty());
}

/// A run of two steps is the first, then the second.
pub proof fn lemma_run_two(ws: Map<Seq<char>, Node>, a: Action, b: Action)
    ensures
        run(ws, seq![a, b]) == match apply(ws, a) {
            Some(mid) => apply(mid, b),
            None => None,
        },
{
    lemma_run_one(ws, a);
    assert(seq![a, b].drop_last() =~= seq![a]);
}

/// What the first `k + 1` entries imply is what the first `k` imply, the
/// path of the next entry, and the directories above that path.
pub proof fn lemma_implied_step(items: Seq<(Seq<char>, Node)>, k: int, q: Seq<char>)
    requires
        0 <= k < items.len(),
    ensures
        implied(items.subrange(0, k + 1), q) <==> (implied(items.subrange(0, k), q) || q
            == items[k].0 || is_ancestor(q, items[k].0)),
        implied(items.subrange(0, k + 1), q) ==> implied(items, q),
{
    let shorter = items.subrange(0, k);
    let longer = items.subrange(0, k + 1);
    if implied(longer, q) {
        let i = choose|i: int|
            0 <= i < longer.len() && (q == (#[trigger] longer[i]).0 || is_ancestor(
                q,
                longer[i].0,
            ));
        assert(longer[i] == items[i]);
        if i < k {
            assert(shorter[i] == items[i]);
        }
    }
    if implied(shorter, q) {
        let i = choose|i: int|
            0 <= i < shorter.len() && (q == (#[trigger] shorter[i]).0 || is_ancestor(
                q,
                shorter[i].0,
            ));
        assert(longer[i] == shorter[i]);
    }
    if q == items[k].0 || is_ancestor(q, items[k].0) {
        assert(longer[k] == items[k]);
    }
}

/// In the described workspace an entry stands at its path as what the store
/// says, and whatever lies above an entry is a directory.
pub proof fn lemma_described(items: Seq<(Seq<char>, Node)>, k: int, q: Seq<char>)
    requires
        realisable(items),
        0 <= k < items.len(),
    ensures
        materialised(items).dom().contains(items[k].0),
        materialised(items)[items[k].0] == items[k].1,
        is_ancestor(q, items[k].0) ==> materialised(items).dom().contains(q) && materialised(
            items,
        )[q] is Dir,
{
    lemma_index_of(items, k);
    if is_ancestor(q, items[k].0) {
        if holds(items, q) {
            let j = index_of(items, q);
            assert(items[j].0 == q);
            assert(!(items[j].1 is File));
        }
    }
}

/// The empty path stands in no described workspace.
pub proof fn lemma_root_is_no_key(items: Seq<(Seq<char>, Node)>, q: Seq<char>)
    requires
        all_plain(items),
        implied(items, q),
    ensures
        q.len() > 0,
{
}

/// The steps for one entry bring the workspace from what the entries
/// before it gave to what they give together with it.
pub proof fn lemma_entry_step(start: Map<Seq<char>, Node>, items: Seq<(Seq<char>, Node)>, k: int)
    requires
        realisable(items),
        agrees(start, materialised(items)),
        0 <= k < items.len(),
    ensures
        run(reached(start, items, k), steps_for(items[k].0, items[k].1)) == Some(
            reached(start, items, k + 1),
        ),
{
    let target = materialised(items);
    let before = reached(start, items, k);
    let after = reached(start, items, k + 1);
    let p = items[k].0;
    assert(is_plain(p));
    assert forall|q: Seq<char>| #[trigger] after.dom().contains(q) <==> (before.dom().contains(q)
        || q == p || is_ancestor(q, p)) by {
        lemma_implied_step(items, k, q);
    }
    assert forall|q: Seq<char>| #[trigger] before.dom().contains(q) implies target.dom().contains(
        q,
    ) && q.len() > 0 by {
        if implied(items.subrange(0, k), q) {
            lemma_implied_step(items, k, q);
        }
        lemma_root_is_no_key(items, q);
    }
    assert forall|q: Seq<char>| is_ancestor(q, p) implies #[trigger] target.dom().contains(q)
        && target[q] is Dir by {
        lemma_described(items, k, q);
    }
    lemma_described(items, k, p);
    match items[k].1 {
        Node::Dir => {
            lemma_run_one(before, Action::CreateDir(p));
            assert(can_create_dir(before, p));
            assert(with_dir(before, p) =~= after);
        },
        Node::File(content) => {
            let dir = parent_of(p)->0;
            assert forall|q: Seq<char>| is_ancestor(q, p) <==> (q.len() > 0 && (q == dir
                || is_ancestor(q, dir))) by {
                lemma_ancestors_through_parent(q, p);
            }
            lemma_run_two(before, Action::CreateDir(dir), Action::WriteFile(p, content));
            assert(can_create_dir(before, dir));
            let mid = with_dir(before, dir);
            assert(can_write_file(mid, p));
            assert(mid.insert(p, Node::File(content)) =~= after);
        },
    }
}

/// The steps for the first `k` entries succeed on any workspace that holds
/// nothing but parts of the described one, and leave what `reached` says.
pub proof fn lemma_run_reaches(start: Map<Seq<char>, Node>, items: Seq<(Seq<char>, Node)>, k: int)
    requires
        realisable(items),
        agrees(start, materialised(items)),
        0 <= k <= items.len(),
    ensures
        run(start, plan_of(items.subrange(0, k))) == Some(reached(start, items, k)),
    decreases k,
{
    if k == 0 {
        assert(items.subrange(0, 0) =~= Seq::<(Seq<char>, Node)>::empty());
        assert(reached(start, items, 0) =~= start);
    } else {
        lemma_run_reaches(start, items, k - 1);
        let upto = items.subrange(0, k);
        assert(upto.drop_last() =~= items.subrange(0, k - 1));
        assert(upto.last() == items[k - 1]);
        lemma_run_concat(
            start,
            plan_of(items.subrange(0, k - 1)),
            steps_for(items[k - 1].0, items[k - 1].1),
        );
        lemma_entry_step(start, items, k - 1);
    }
}

/// Setup completes what is there. On a workspace that holds nothing but
/// parts of the described one, every step succeeds, in whatever order the
/// store names its paths, and what is left is the described workspace.
pub proof fn setup_completes(start: Map<Seq<char>, Node>, items: Seq<(Seq<char>, Node)>)
    requires
        realisable(items),
        agrees(start, materialised(items)),
    ensures
        run(start, plan_of(items)) == Some(materialised(items)),
{
    lemma_run_reaches(start, items, items.len() as int);
    assert(items.subrange(0, items.len() as int) =~= items);
    assert(reached(start, items, items.len() as int) =~= materialised(items));
}

/// Setup on a fresh workspace succeeds and leaves the paths of the store
/// and the directories above them, and nothing else.
pub proof fn setup_materialises(items: Seq<(Seq<char>, Node)>)
    requires
        realisable(items),
    ensures
        run(Map::empty(), plan_of(items)) == Some(materialised(items)),
        forall|q: Seq<char>| #[trigger]
            materialised(items).dom().contains(q) <==> exists|i: int|
                0 <= i < items.len() && (q == (#[trigger] items[i]).0 || is_ancestor(
                    q,
                    items[i].0,
                )),
{
    setup_completes(Map::empty(), items);
}

/// After setup each file of the store stands at its path with exactly the
/// text that the store gave it, and each directory of the store is a
/// directory.
pub proof fn setup_keeps_entries(items: Seq<(Seq<char>, Node)>, k: int)
    requires
        realisable(items),
        0 <= k < items.len(),
    ensures
        run(Map::empty(), plan_of(items)) matches Some(ws) && ws.dom().contains(items[k].0)
            && ws[items[k].0] == items[k].1,
{
    setup_materialises(items);
    lemma_described(items, k, items[k].0);
}

/// The last word on a path wins: a file, then a directory at the same path
/// leave the store as the directory alone would, and after setup the path
/// is a directory.
pub proof fn last_write_wins(items: Seq<(Seq<char>, Node)>, path: Seq<char>, content: Seq<char>)
    requires
        distinct_paths(items),
        realisable(upsert(items, path, Node::Dir)),
    ensures
        upsert(upsert(items, path, Node::File(content)), path, Node::Dir) == upsert(
            items,
            path,
            Node::Dir,
        ),
        as_map(upsert(items, path, Node::Dir))[path] == Node::Dir,
        run(Map::empty(), plan_of(upsert(items, path, Node::Dir))) matches Some(ws)
            && ws.dom().contains(path) && ws[path] == Node::Dir,
{
    let first = upsert(items, path, Node::File(content));
    let second = upsert(first, path, Node::Dir);
    let direct = upsert(items, path, Node::Dir);
    lemma_upsert_distinct(items, path, Node::File(content));
    if holds(items, path) {
        let k = index_of(items, path);
        assert(first[k].0 == path);
        lemma_index_of(first, k);
    } else {
        let k = items.len() as int;
        assert(first[k].0 == path);
        lemma_index_of(first, k);
    }
    assert(second =~= direct);
    lemma_upsert_map(items, path, Node::Dir);
    assert(as_map(items).insert(path, Node::Dir).dom().contains(path));
    assert(holds(direct, path));
    let j = index_of(direct, path);
    setup_keeps_entries(direct, j);
}

/// Setup twice is setup once: a second run of the same steps succeeds and
/// changes nothing.
pub proof fn setup_is_idempotent(items: Seq<(Seq<char>, Node)>)
    requires
        realisable(items),
    ensures
        run(Map::empty(), plan_of(items)) matches Some(once) && run(once, plan_of(items)) == Some(
            once,
        ),
{
    setup_materialises(items);
    setup_completes(materialised(items), items);
}

/// The described workspace does not depend on the order of the store: two
/// stores that say the same of every path describe one workspace.
pub proof fn materialised_ignores_order(a: Seq<(Seq<char>, Node)>, b: Seq<(Seq<char>, Node)>)
    requires
        as_map(a) == as_map(b),
    ensures
        materialised(a) == materialised(b),
{
    assert forall|q: Seq<char>| implied(a, q) <==> implied(b, q) by {
        if implied(a, q) {
            lemma_implied_by_map(a, b, q);
        }
        if implied(b, q) {
            lemma_implied_by_map(b, a, q);
        }
    }
    assert forall|q: Seq<char>| implied(a, q) implies materialised(a)[q] == materialised(b)[q] by {
        assert(holds(a, q) == as_map(a).dom().contains(q));
        assert(holds(b, q) == as_map(b).dom().contains(q));
        if holds(a, q) {
            assert(as_map(a)[q] == a[index_of(a, q)].1);
            assert(as_map(b)[q] == b[index_of(b, q)].1);
        }
    }
    assert(materialised(a) =~= materialised(b));
}

/// What one store implies, a store with the same paths implies too.
proof fn lemma_implied_by_map(a: Seq<(Seq<char>, Node)>, b: Seq<(Seq<char>, Node)>, q: Seq<char>)
    requires
        as_map(a) == as_map(b),
        implied(a, q),
    ensures
        implied(b, q),
{
    let i = choose|i: int|
        0 <= i < a.len() && (q == (#[trigger] a[i]).0 || is_ancestor(q, a[i].0));
    let p = a[i].0;
    assert(holds(a, p));
    assert(as_map(a).dom().contains(p));
    assert(as_map(b).dom().contains(p));
    assert(holds(b, p));
    let j = index_of(b, p);
    assert(b[j].0 == p);
}

/// `walked` is what a walk of the workspace `ws` at `root` may find: every
/// path of the workspace, spelled below the root, and nothing else below
/// the root; nothing twice, in any order. The root itself may be among
/// them.
pub open spec fn walks(walked: Seq<Seq<char>>, root: Seq<char>, ws: Map<Seq<char>, Node>) -> bool {
    &&& walked.no_duplicates()
    &&& forall|q: Seq<char>| #[trigger] ws.dom().contains(q) ==> walked.contains(resolved(root, q))
    &&& forall|w: Seq<char>| #[trigger]
        walked.contains(w) ==> relative_to(root, w) is None || exists|q: Seq<char>|
            ws.dom().contains(q) && w == #[trigger] resolved(root, q)
}

/// Taking the root from the front undoes putting a path below the root.
pub proof fn lemma_relative_to_resolved(root: Seq<char>, q: Seq<char>)
    requires
        q.len() > 0,
    ensures
        relative_to(root, resolved(root, q)) == Some(q),
        relative_to(root, root) is None,
{
    let full = resolved(root, q);
    assert(full.subrange(0, root.len() as int) =~= root);
    assert(full.subrange(root.len() as int + 1, full.len() as int) =~= q);
}

/// A path that lies below the root is the root, a separator and the
/// relative path.
pub proof fn lemma_resolved_relative_to(root: Seq<char>, full: Seq<char>)
    requires
        relative_to(root, full) is Some,
    ensures
        relative_to(root, full)->0.len() > 0,
        full == resolved(root, relative_to(root, full)->0),
{
    let rel = relative_to(root, full)->0;
    assert(full =~= root + seq!['/'] + rel);
}

/// What `below` holds are the relative spellings of what was walked.
pub proof fn lemma_below_contains(root: Seq<char>, walked: Seq<Seq<char>>, rel: Seq<char>)
    ensures
        below(root, walked).contains(rel) <==> exists|i: int|
            0 <= i < walked.len() && relative_to(root, #[trigger] walked[i]) == Some(rel),
    decreases walked.len(),
{
    if walked.len() > 0 {
        let front = walked.drop_last();
        let last = walked.len() - 1;
        lemma_below_contains(root, front, rel);
        let rest = below(root, front);
        if below(root, walked).contains(rel) {
            let k = choose|k: int| 0 <= k < below(root, walked).len() && below(root, walked)[k] == rel;
            if k < rest.len() {
                assert(rest[k] == rel);
                assert(rest.contains(rel));
                let i = choose|i: int|
                    0 <= i < front.len() && relative_to(root, #[trigger] front[i]) == Some(rel);
                assert(walked[i] == front[i]);
            } else {
                assert(relative_to(root, walked[last]) == Some(rel));
            }
        }
        if exists|i: int|
            0 <= i < walked.len() && relative_to(root, #[trigger] walked[i]) == Some(rel) {
            let i = choose|i: int|
                0 <= i < walked.len() && relative_to(root, #[trigger] walked[i]) == Some(rel);
            if i < last {
                assert(front[i] == walked[i]);
                assert(rest.contains(rel));
                let k = choose|k: int| 0 <= k < rest.len() && rest[k] == rel;
                assert(below(root, walked)[k] == rel);
            } else {
                assert(below(root, walked) == rest.push(rel));
                assert(below(root, walked)[rest.len() as int] == rel);
            }
        }
    }
}

/// A walk that finds nothing twice lists nothing twice.
pub proof fn lemma_below_no_duplicates(root: Seq<char>, walked: Seq<Seq<char>>)
    requires
        walked.no_duplicates(),
    ensures
        below(root, walked).no_duplicates(),
    decreases walked.len(),
{
    if walked.len() > 0 {
        let front = walked.drop_last();
        let last = walked.len() - 1;
        assert forall|i: int, j: int| 0 <= i < front.len() && 0 <= j < front.len() && i != j implies
            front[i] != front[j] by {
            assert(front[i] == walked[i] && front[j] == walked[j]);
        }
        lemma_below_no_duplicates(root, front);
        let rest = below(root, front);
        if relative_to(root, walked[last]) is Some {
            let rel = relative_to(root, walked[last])->0;
            lemma_below_contains(root, front, rel);
            if rest.contains(rel) {
                let i = choose|i: int|
                    0 <= i < front.len() && relative_to(root, #[trigger] front[i]) == Some(rel);
                lemma_resolved_relative_to(root, front[i]);
                lemma_resolved_relative_to(root, walked[last]);
                assert(front[i] == walked[i]);
                assert(false);
            }
            let grown = rest.push(rel);
            assert forall|i: int, j: int| 0 <= i < grown.len() && 0 <= j < grown.len() && i != j implies
                grown[i] != grown[j] by {
                if i < rest.len() && j < rest.len() {
                    assert(grown[i] == rest[i] && grown[j] == rest[j]);
                } else if i < rest.len() {
                    assert(rest[i] == grown[i]);
                    assert(rest.contains(grown[i]));
                } else {
                    assert(rest[j] == grown[j]);
                    assert(rest.contains(grown[j]));
                }
            }
        }
    }
}

/// The tree listing of a walk of a workspace names exactly the paths of
/// the workspace, each once, in the order of paths.
pub proof fn tree_lists_workspace(
    listing: Seq<Seq<char>>,
    walked: Seq<Seq<char>>,
    root: Seq<char>,
    ws: Map<Seq<char>, Node>,
)
    requires
        walks(walked, root, ws),
        forall|q: Seq<char>| #[trigger] ws.dom().contains(q) ==> q.len() > 0,
        is_listing(listing, below(root, walked)),
    ensures
        sorted_by(listing, path_order()),
        listing.no_duplicates(),
        forall|q: Seq<char>| listing.contains(q) <==> ws.dom().contains(q),
{
    let found = below(root, walked);
    lemma_below_no_duplicates(root, walked);
    found.lemma_multiset_has_no_duplicates();
    listing.lemma_multiset_has_no_duplicates_conv();
    found.to_multiset_ensures();
    listing.to_multiset_ensures();
    assert forall|q: Seq<char>| listing.contains(q) <==> ws.dom().contains(q) by {
        assert(listing.contains(q) <==> found.contains(q)) by {
            assert(listing.to_multiset().count(q) == found.to_multiset().count(q));
        }
        lemma_below_contains(root, walked, q);
        if found.contains(q) {
            let i = choose|i: int|
                0 <= i < walked.len() && relative_to(root, #[trigger] walked[i]) == Some(q);
            let w = walked[i];
            assert(walked.contains(w));
            let p = choose|p: Seq<char>| ws.dom().contains(p) && w == #[trigger] resolved(root, p);
            lemma_relative_to_resolved(root, p);
        }
        if ws.dom().contains(q) {
            let w = resolved(root, q);
            lemma_relative_to_resolved(root, q);
            assert(walked.contains(w));
            let i = choose|i: int| 0 <= i < walked.len() && walked[i] == w;
            assert(relative_to(root, walked[i]) == Some(q));
        }
    }
}

/// After setup on a fresh workspace the tree listing names exactly the
/// paths of the store and the directories above them: none is missing,
/// none is there twice, nothing else is there, and they stand in the order
/// of paths.
pub proof fn tree_after_setup(
    items: Seq<(Seq<char>, Node)>,
    root: Seq<char>,
    walked: Seq<Seq<char>>,
    listing: Seq<Seq<char>>,
)
    requires
        realisable(items),
        run(Map::empty(), plan_of(items)) matches Some(ws) && walks(walked, root, ws),
        is_listing(listing, below(root, walked)),
    ensures
        sorted_by(listing, path_order()),
        listing.no_duplicates(),
        forall|q: Seq<char>|
            listing.contains(q) <==> exists|i: int|
                0 <= i < items.len() && (q == (#[trigger] items[i]).0 || is_ancestor(
                    q,
                    items[i].0,
                )),
{
    setup_materialises(items);
    let ws = materialised(items);
    assert forall|q: Seq<char>| #[trigger] ws.dom().contains(q) implies q.len() > 0 by {
        lemma_root_is_no_key(items, q);
    }
    tree_lists_workspace(listing, walked, root, ws);
    assert forall|q: Seq<char>|
        listing.contains(q) <==> exists|i: int|
            0 <= i < items.len() && (q == (#[trigger] items[i]).0 || is_ancestor(
                q,
                items[i].0,
            )) by {
        assert(listing.contains(q) <==> ws.dom().contains(q));
    }
}

/// Two listings that name the same paths, each once, are one listing.
pub proof fn lemma_same_paths_same_listing(a: Seq<Seq<char>>, b: Seq<Seq<char>>)
    requires
        sorted_by(a, path_order()),
        sorted_by(b, path_order()),
        a.no_duplicates(),
        b.no_duplicates(),
        forall|q: Seq<char>| a.contains(q) <==> b.contains(q),
    ensures
        a == b,
{
    a.lemma_multiset_has_no_duplicates();
    b.lemma_multiset_has_no_duplicates();
    a.to_multiset_ensures();
    b.to_multiset_ensures();
    assert forall|q: Seq<char>| a.to_multiset().count(q) == b.to_multiset().count(q) by {
        assert(a.contains(q) <==> b.contains(q));
    }
    assert(a.to_multiset() =~= b.to_multiset());
    crate::path::lemma_path_order_total();
    lemma_sorted_unique(a, b, path_order());
}

/// The tree listing is the same after a second setup as after the first,
/// in whatever order the two walks found the paths.
pub proof fn tree_after_second_setup(
    items: Seq<(Seq<char>, Node)>,
    root: Seq<char>,
    first_walk: Seq<Seq<char>>,
    first_listing: Seq<Seq<char>>,
    second_walk: Seq<Seq<char>>,
    second_listing: Seq<Seq<char>>,
)
    requires
        realisable(items),
        ({
            let once = run(Map::empty(), plan_of(items))->0;
            let twice = run(once, plan_of(items))->0;
            walks(first_walk, root, once) && walks(second_walk, root, twice)
        }),
        is_listing(first_listing, below(root, first_walk)),
        is_listing(second_listing, below(root, second_walk)),
    ensures
        first_listing == second_listing,
{
    setup_materialises(items);
    setup_is_idempotent(items);
    let ws = materialised(items);
    assert forall|q: Seq<char>| #[trigger] ws.dom().contains(q) implies q.len() > 0 by {
        lemma_root_is_no_key(items, q);
    }
    tree_lists_workspace(first_listing, first_walk, root, ws);
    tree_lists_workspace(second_listing, second_walk, root, ws);
    lemma_same_paths_same_listing(first_listing, second_listing);
}

} // verus!
