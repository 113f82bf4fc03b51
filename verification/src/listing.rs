//! The tree listing: what a walk of the workspace found, relative to the
//! root and in order.

use crate::path::{
    lemma_path_order_total, lemma_precedes_total, lemma_precedes_transitive, path_le, path_order,
    precedes, relative_to, strip_root,
};
use vstd::prelude::*;
use vstd::relations::sorted_by;
use vstd::seq_lib::*;
use vstd::string::*;

verus! {

/// The relative spellings of those of `walked` that lie below `root`, in
/// the order of `walked`. The root itself and whatever lies elsewhere are
/// left out.
pub open spec fn below(root: Seq<char>, walked: Seq<Seq<char>>) -> Seq<Seq<char>>
    decreases walked.len(),
{
    if walked.len() == 0 {
        Seq::empty()
    } else {
        let rest = below(root, walked.drop_last());
        match relative_to(root, walked.last()) {
            Some(rel) => rest.push(rel),
            None => rest,
        }
    }
}

/// `listing` holds the same paths as `paths`, each as often, in the order
/// of paths.
pub open spec fn is_listing(listing: Seq<Seq<char>>, paths: Seq<Seq<char>>) -> bool {
    &&& sorted_by(listing, path_order())
    &&& listing.to_multiset() == paths.to_multiset()
}

/// The listing of `paths`. There is exactly one, whatever `paths` holds:
/// see `lemma_listing_exists` and `lemma_listing_unique`.
pub open spec fn listing_of(paths: Seq<Seq<char>>) -> Seq<Seq<char>> {
    choose|listing: Seq<Seq<char>>| is_listing(listing, paths)
}

/// The text of a listing: each path followed by a line feed.
pub open spec fn lines(paths: Seq<Seq<char>>) -> Seq<char>
    decreases paths.len(),
{
    if paths.len() == 0 {
        Seq::empty()
    } else {
        lines(paths.drop_last()) + paths.last() + seq!['\n']
    }
}

/// Where `x` goes into a sorted sequence: behind the last path that comes
/// no later than `x`.
pub open spec fn insertion_point(sorted: Seq<Seq<char>>, x: Seq<char>) -> int
    decreases sorted.len(),
{
    if sorted.len() == 0 {
        0
    } else if path_le(sorted.last(), x) {
        sorted.len() as int
    } else {
        insertion_point(sorted.drop_last(), x)
    }
}

/// A sorted sequence stays sorted when `x` is put in at a place where
/// everything before it comes no later than `x` and what follows comes
/// later.
pub proof fn lemma_insert_sorted(sorted: Seq<Seq<char>>, j: int, x: Seq<char>)
    requires
        sorted_by(sorted, path_order()),
        0 <= j <= sorted.len(),
        forall|k: int| 0 <= k < j ==> path_le(#[trigger] sorted[k], x),
        j < sorted.len() ==> !path_le(sorted[j], x),
    ensures
        sorted_by(sorted.insert(j, x), path_order()),
{
    let grown = sorted.insert(j, x);
    assert forall|a: int, b: int| 0 <= a < b < grown.len() implies #[trigger] path_order()(
        grown[a],
        grown[b],
    ) by {
        if b == j {
            assert(grown[a] == sorted[a]);
        } else if a == j {
            lemma_precedes_total(sorted[j], x, 0);
            assert(grown[b] == sorted[b - 1]);
            if b - 1 > j {
                assert(path_order()(sorted[j], sorted[b - 1]));
                lemma_precedes_transitive(x, sorted[j], sorted[b - 1], 0);
            }
        } else {
            let a0 = if a < j {
                a
            } else {
                a - 1
            };
            let b0 = if b < j {
                b
            } else {
                b - 1
            };
            assert(grown[a] == sorted[a0] && grown[b] == sorted[b0]);
            assert(path_order()(sorted[a0], sorted[b0]));
        }
    }
}

/// In a sorted sequence everything before the insertion point comes no
/// later than `x`, and what stands at it comes later.
pub proof fn lemma_insertion_point(sorted: Seq<Seq<char>>, x: Seq<char>)
    requires
        sorted_by(sorted, path_order()),
    ensures
        0 <= insertion_point(sorted, x) <= sorted.len(),
        forall|k: int| 0 <= k < insertion_point(sorted, x) ==> path_le(#[trigger] sorted[k], x),
        insertion_point(sorted, x) < sorted.len() ==> !path_le(
            sorted[insertion_point(sorted, x)],
            x,
        ),
    decreases sorted.len(),
{
    if sorted.len() > 0 {
        let last = sorted.len() - 1;
        if path_le(sorted.last(), x) {
            assert forall|k: int| 0 <= k < sorted.len() implies path_le(#[trigger] sorted[k], x) by {
                if k < last {
                    assert(path_order()(sorted[k], sorted[last]));
                    lemma_precedes_transitive(sorted[k], sorted[last], x, 0);
                }
            }
        } else {
            let front = sorted.drop_last();
            assert forall|a: int, b: int| 0 <= a < b < front.len() implies #[trigger] path_order()(
                front[a],
                front[b],
            ) by {
                assert(path_order()(sorted[a], sorted[b]));
            }
            lemma_insertion_point(front, x);
            let j = insertion_point(front, x);
            assert forall|k: int| 0 <= k < j implies path_le(#[trigger] sorted[k], x) by {
                assert(front[k] == sorted[k]);
            }
            if j < front.len() {
                assert(front[j] == sorted[j]);
            }
        }
    }
}

/// Any paths have a listing.
pub proof fn lemma_listing_exists(paths: Seq<Seq<char>>)
    ensures
        is_listing(listing_of(paths), paths),
    decreases paths.len(),
{
    if paths.len() == 0 {
        assert(is_listing(paths, paths));
    } else {
        let front = paths.drop_last();
        let x = paths.last();
        lemma_listing_exists(front);
        let sorted = listing_of(front);
        lemma_insertion_point(sorted, x);
        let j = insertion_point(sorted, x);
        lemma_insert_sorted(sorted, j, x);
        to_multiset_insert(sorted, j, x);
        to_multiset_build(front, x);
        assert(paths =~= front.push(x));
        assert(is_listing(sorted.insert(j, x), paths));
    }
}

/// Two listings of the same paths are one listing, in whatever order the
/// paths were handed in.
pub proof fn lemma_listing_unique(
    a: Seq<Seq<char>>,
    b: Seq<Seq<char>>,
    paths: Seq<Seq<char>>,
    others: Seq<Seq<char>>,
)
    requires
        is_listing(a, paths),
        is_listing(b, others),
        paths.to_multiset() == others.to_multiset(),
    ensures
        a == b,
{
    lemma_path_order_total();
    lemma_sorted_unique(a, b, path_order());
}

/// A listing of `paths` is the listing of `paths`.
pub proof fn lemma_listing_of(listing: Seq<Seq<char>>, paths: Seq<Seq<char>>)
    requires
        is_listing(listing, paths),
    ensures
        listing == listing_of(paths),
{
    lemma_listing_unique(listing, listing_of(paths), paths, paths);
}

/// The paths of `walked` that lie below `root`, relative to it.
pub fn relative_paths(root: &str, walked: &Vec<String>) -> (out: Vec<String>)
    ensures
        out.deep_view() == below(root@, walked.deep_view()),
{
    let mut out: Vec<String> = Vec::new();
    let n: usize = walked.len();
    let mut i: usize = 0;
    assert(walked.deep_view().subrange(0, 0) =~= Seq::empty());
    assert(out.deep_view() =~= Seq::empty());
    while i < n
        invariant
            i <= n,
            n == walked@.len(),
            out.deep_view() == below(root@, walked.deep_view().subrange(0, i as int)),
        decreases n - i,
    {
        let ghost done = out.deep_view();
        let ghost upto = walked.deep_view().subrange(0, i as int + 1);
        assert(upto.drop_last() =~= walked.deep_view().subrange(0, i as int));
        assert(upto.last() == walked@[i as int]@);
        match strip_root(root, walked[i].as_str()) {
            Some(rel) => {
                let ghost r = rel@;
                out.push(rel);
                assert(out.deep_view() =~= done.push(r));
            },
            None => {},
        }
        i += 1;
    }
    assert(walked.deep_view().subrange(0, n as int) =~= walked.deep_view());
    out
}

/// The same paths in the order of paths.
pub fn sort_paths(paths: &Vec<String>) -> (out: Vec<String>)
    ensures
        is_listing(out.deep_view(), paths.deep_view()),
        out.deep_view() == listing_of(paths.deep_view()),
{
    let mut out: Vec<String> = Vec::new();
    let n: usize = paths.len();
    let mut i: usize = 0;
    assert(paths.deep_view().subrange(0, 0) =~= Seq::empty());
    assert(out.deep_view() =~= Seq::empty());
    while i < n
        invariant
            i <= n,
            n == paths@.len(),
            is_listing(out.deep_view(), paths.deep_view().subrange(0, i as int)),
        decreases n - i,
    {
        let item = paths[i].clone();
        let ghost sorted = out.deep_view();
        let mut j: usize = 0;
        while j < out.len() && precedes(out[j].as_str(), item.as_str())
            invariant
                j <= out@.len(),
                out.deep_view() == sorted,
                item@ == paths@[i as int]@,
                forall|k: int| 0 <= k < j ==> path_le(#[trigger] sorted[k], item@),
            decreases out@.len() - j,
        {
            j += 1;
        }
        out.insert(j, item);
        proof {
            let x = paths@[i as int]@;
            assert(out.deep_view() =~= sorted.insert(j as int, x));
            lemma_insert_sorted(sorted, j as int, x);
            let upto = paths.deep_view().subrange(0, i as int + 1);
            assert(upto =~= paths.deep_view().subrange(0, i as int).push(x));
            to_multiset_insert(sorted, j as int, x);
            to_multiset_build(paths.deep_view().subrange(0, i as int), x);
        }
        i += 1;
    }
    assert(paths.deep_view().subrange(0, n as int) =~= paths.deep_view());
    proof {
        lemma_listing_of(out.deep_view(), paths.deep_view());
    }
    out
}

/// The tree listing of a walk: the paths found below `root`, relative to
/// it, in the order of paths.
pub fn tree(root: &str, walked: &Vec<String>) -> (out: Vec<String>)
    ensures
        is_listing(out.deep_view(), below(root@, walked.deep_view())),
        out.deep_view() == listing_of(below(root@, walked.deep_view())),
{
    let found = relative_paths(root, walked);
    sort_paths(&found)
}

/// The listing as text, one path to a line.
pub fn render(paths: &Vec<String>) -> (text: String)
    ensures
        text@ == lines(paths.deep_view()),
{
    let mut text = String::new();
    let n: usize = paths.len();
    let mut i: usize = 0;
    assert(paths.deep_view().subrange(0, 0) =~= Seq::empty());
    while i < n
        invariant
            i <= n,
            n == paths@.len(),
            text@ == lines(paths.deep_view().subrange(0, i as int)),
        decreases n - i,
    {
        proof {
            reveal_strlit("\n");
            assert("\n"@ =~= seq!['\n']);
            let upto = paths.deep_view().subrange(0, i as int + 1);
            assert(upto.drop_last() =~= paths.deep_view().subrange(0, i as int));
            assert(upto.last() == paths@[i as int]@);
        }
        text.append(paths[i].as_str());
        text.append("\n");
        i += 1;
    }
    assert(paths.deep_view().subrange(0, n as int) =~= paths.deep_view());
    text
}

} // verus!
