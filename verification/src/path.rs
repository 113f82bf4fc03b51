//! Relative paths as character sequences.
//!
//! A path inside a workspace is written with `/` between its components and
//! is identified with its spelling: nothing here touches a filesystem.

use vstd::prelude::*;
use vstd::string::*;

verus! {

/// The character that separates the components of a path.
pub open spec fn is_sep(c: char) -> bool {
    c == '/'
}

/// `a` names a directory strictly between the workspace root and `p`:
/// a non-empty proper prefix of `p` that ends just before a separator.
pub open spec fn is_ancestor(a: Seq<char>, p: Seq<char>) -> bool {
    &&& 0 < a.len() < p.len()
    &&& p.subrange(0, a.len() as int) == a
    &&& is_sep(p[a.len() as int])
}

/// Index of the last separator of `p`, or -1 where `p` holds none.
pub open spec fn last_sep(p: Seq<char>) -> int
    decreases p.len(),
{
    if p.len() == 0 {
        -1
    } else if is_sep(p.last()) {
        p.len() - 1
    } else {
        last_sep(p.drop_last())
    }
}

/// The path without its final component. The empty path has no parent; the
/// parent of a single component is the empty path, which names the root.
pub open spec fn parent_of(p: Seq<char>) -> Option<Seq<char>> {
    if p.len() == 0 {
        None
    } else if last_sep(p) < 0 {
        Some(Seq::empty())
    } else {
        Some(p.subrange(0, last_sep(p)))
    }
}

/// `rel` placed under `root`. The empty relative path names the root itself.
pub open spec fn resolved(root: Seq<char>, rel: Seq<char>) -> Seq<char> {
    if rel.len() == 0 {
        root
    } else {
        root + seq!['/'] + rel
    }
}

/// What is left of `full` once `root` and one separator are taken from its
/// front; `None` where `full` does not lie strictly below `root`.
pub open spec fn relative_to(root: Seq<char>, full: Seq<char>) -> Option<Seq<char>> {
    if full.len() > root.len() + 1 && full.subrange(0, root.len() as int) == root && is_sep(
        full[root.len() as int],
    ) {
        Some(full.subrange(root.len() as int + 1, full.len() as int))
    } else {
        None
    }
}

/// A component that names an entry: not empty, not `.`, not `..`.
pub open spec fn is_normal_name(name: Seq<char>) -> bool {
    &&& name.len() > 0
    &&& name != seq!['.']
    &&& name != seq!['.', '.']
}

/// The component of `p` that ends at index `end`.
pub open spec fn component_ending_at(p: Seq<char>, end: int) -> Seq<char> {
    p.subrange(last_sep(p.subrange(0, end)) + 1, end)
}

/// `p` is spelled the way a filesystem lists it: at least one component, and
/// every component a normal name. Such a path neither starts nor ends with a
/// separator and holds no two separators in a row.
pub open spec fn is_plain(p: Seq<char>) -> bool {
    &&& p.len() > 0
    &&& forall|end: int|
        0 <= end <= p.len() && (end == p.len() || is_sep(p[end])) ==> is_normal_name(
            #[trigger] component_ending_at(p, end),
        )
}

/// Where a character stands in the order of paths: the separator before
/// every other character, the others by code point.
pub open spec fn rank(c: char) -> int {
    if is_sep(c) {
        0
    } else {
        c as u32 as int + 1
    }
}

/// `a` comes no later than `b`, looking only at the characters from index
/// `i` on.
pub open spec fn precedes_from(a: Seq<char>, b: Seq<char>, i: int) -> bool
    decreases a.len() - i,
{
    if i < 0 || i >= a.len() {
        true
    } else if i >= b.len() {
        false
    } else if a[i] != b[i] {
        rank(a[i]) < rank(b[i])
    } else {
        precedes_from(a, b, i + 1)
    }
}

/// The order in which a tree is listed: character by character, with a
/// shorter path before its extensions and the separator before any other
/// character, so that a directory is followed at once by what it holds.
pub open spec fn path_le(a: Seq<char>, b: Seq<char>) -> bool {
    precedes_from(a, b, 0)
}

/// `path_le` as a relation value.
pub open spec fn path_order() -> spec_fn(Seq<char>, Seq<char>) -> bool {
    |a: Seq<char>, b: Seq<char>| path_le(a, b)
}

/// `last_sep` points at a separator, and none follows it.
pub proof fn lemma_last_sep(p: Seq<char>)
    ensures
        -1 <= last_sep(p) < p.len(),
        last_sep(p) >= 0 ==> is_sep(p[last_sep(p)]),
        forall|j: int| last_sep(p) < j < p.len() ==> !is_sep(#[trigger] p[j]),
    decreases p.len(),
{
    if p.len() > 0 && !is_sep(p.last()) {
        lemma_last_sep(p.drop_last());
        assert forall|j: int| last_sep(p) < j < p.len() implies !is_sep(#[trigger] p[j]) by {
            if j < p.len() - 1 {
                assert(p.drop_last()[j] == p[j]);
            }
        }
    }
}

/// Extending a prefix by one character moves `last_sep` only onto a
/// separator.
pub proof fn lemma_last_sep_step(p: Seq<char>, i: int)
    requires
        0 <= i < p.len(),
    ensures
        last_sep(p.subrange(0, i + 1)) == if is_sep(p[i]) {
            i
        } else {
            last_sep(p.subrange(0, i))
        },
{
    assert(p.subrange(0, i + 1).drop_last() =~= p.subrange(0, i));
}

/// The directories above a path are its parent and the directories above
/// the parent.
pub proof fn lemma_ancestors_through_parent(a: Seq<char>, p: Seq<char>)
    requires
        p.len() > 0,
    ensures
        is_ancestor(a, p) <==> (a.len() > 0 && (a == parent_of(p)->0 || is_ancestor(
            a,
            parent_of(p)->0,
        ))),
{
    lemma_last_sep(p);
    let k = last_sep(p);
    let par = parent_of(p)->0;
    if k >= 0 {
        assert(par == p.subrange(0, k));
        if is_ancestor(a, p) {
            let n = a.len() as int;
            assert(n <= k);
            if n < k {
                assert(par.subrange(0, n) =~= p.subrange(0, n));
                assert(par[n] == p[n]);
            } else {
                assert(a =~= par);
            }
        }
        if a.len() > 0 && a == par {
            assert(p.subrange(0, a.len() as int) =~= a);
        }
        if is_ancestor(a, par) {
            let n = a.len() as int;
            assert(p.subrange(0, n) =~= par.subrange(0, n));
            assert(par[n] == p[n]);
        }
    } else {
        assert(par =~= Seq::<char>::empty());
    }
}

/// Different characters stand at different places in the order.
pub proof fn lemma_rank_injective(c: char, d: char)
    ensures
        rank(c) == rank(d) ==> c == d,
{
    assert(c as u32 == d as u32 ==> c == d) by {
        assert(c as u32 as char == c);
        assert(d as u32 as char == d);
    }
}

/// Every path comes no later than itself.
pub proof fn lemma_precedes_reflexive(a: Seq<char>, i: int)
    ensures
        precedes_from(a, a, i),
    decreases a.len() - i,
{
    if 0 <= i < a.len() {
        lemma_precedes_reflexive(a, i + 1);
    }
}

/// Of two paths one comes no later than the other.
pub proof fn lemma_precedes_total(a: Seq<char>, b: Seq<char>, i: int)
    ensures
        precedes_from(a, b, i) || precedes_from(b, a, i),
    decreases a.len() - i,
{
    if 0 <= i < a.len() && i < b.len() {
        if a[i] == b[i] {
            lemma_precedes_total(a, b, i + 1);
        } else {
            lemma_rank_injective(a[i], b[i]);
        }
    }
}

/// Two paths that agree before `i` and precede each other from `i` on are
/// one path.
pub proof fn lemma_precedes_antisymmetric(a: Seq<char>, b: Seq<char>, i: int)
    requires
        0 <= i <= a.len(),
        i <= b.len(),
        a.subrange(0, i) == b.subrange(0, i),
        precedes_from(a, b, i),
        precedes_from(b, a, i),
    ensures
        a == b,
    decreases a.len() - i,
{
    if i < a.len() {
        assert(a[i] == b[i]);
        assert(a.subrange(0, i + 1) =~= a.subrange(0, i).push(a[i]));
        assert(b.subrange(0, i + 1) =~= b.subrange(0, i).push(b[i]));
        lemma_precedes_antisymmetric(a, b, i + 1);
    } else {
        assert(a =~= a.subrange(0, i));
        assert(b =~= b.subrange(0, i));
    }
}

/// The order passes through a path in the middle.
pub proof fn lemma_precedes_transitive(a: Seq<char>, b: Seq<char>, c: Seq<char>, i: int)
    requires
        precedes_from(a, b, i),
        precedes_from(b, c, i),
    ensures
        precedes_from(a, c, i),
    decreases a.len() - i,
{
    if 0 <= i < a.len() && a[i] == b[i] && b[i] == c[i] {
        lemma_precedes_transitive(a, b, c, i + 1);
    }
}

/// The order of paths is total: reflexive, antisymmetric, transitive, and
/// it compares any two paths.
pub proof fn lemma_path_order_total()
    ensures
        vstd::relations::total_ordering(path_order()),
{
    let r = path_order();
    assert forall|x: Seq<char>| #[trigger] r(x, x) by {
        lemma_precedes_reflexive(x, 0);
    }
    assert forall|x: Seq<char>, y: Seq<char>| #[trigger] r(x, y) && #[trigger] r(y, x) implies x
        == y by {
        assert(x.subrange(0, 0) =~= y.subrange(0, 0));
        lemma_precedes_antisymmetric(x, y, 0);
    }
    assert forall|x: Seq<char>, y: Seq<char>, z: Seq<char>| #[trigger]
        r(x, y) && #[trigger] r(y, z) implies r(x, z) by {
        lemma_precedes_transitive(x, y, z, 0);
    }
    assert forall|x: Seq<char>, y: Seq<char>| #[trigger] r(x, y) || #[trigger] r(y, x) by {
        lemma_precedes_total(x, y, 0);
    }
}

/// The characters of a string, in order.
pub fn chars_of(s: &str) -> (v: Vec<char>)
    ensures
        v@ == s@,
{
    let mut v: Vec<char> = Vec::new();
    for c in it: s.chars()
        invariant
            v@ == it.seq().take(it.index() as int),
            it.seq() == s@,
    {
        v.push(c);
    }
    v
}

/// The place of a character in the order of paths.
fn rank_of(c: char) -> (r: u32)
    ensures
        r == rank(c),
{
    if c == '/' {
        0
    } else {
        let code: u32 = c as u32;
        code + 1
    }
}

/// The path without its final component, as `parent_of` defines it.
pub fn parent(path: &str) -> (r: Option<String>)
    ensures
        r is Some <==> parent_of(path@) is Some,
        r is Some ==> r->0@ == parent_of(path@)->0,
{
    let chars = chars_of(path);
    let n: usize = chars.len();
    if n == 0 {
        return None;
    }
    let mut i: usize = n;
    while i > 0 && chars[i - 1] != '/'
        invariant
            i <= n,
            n == chars@.len(),
            forall|j: int| i <= j < n ==> !is_sep(#[trigger] chars@[j]),
        decreases i,
    {
        i -= 1;
    }
    proof {
        lemma_last_sep(path@);
    }
    if i == 0 {
        Some(String::new())
    } else {
        Some(path.substring_char(0, i - 1).to_owned())
    }
}

/// The spelling of `rel` under `root`: the two joined by one separator, or
/// `root` alone where `rel` is empty.
pub fn resolve(root: &str, rel: &str) -> (full: String)
    ensures
        full@ == resolved(root@, rel@),
{
    let mut full = root.to_owned();
    if !rel.is_empty() {
        proof {
            reveal_strlit("/");
            assert("/"@ =~= seq!['/']);
        }
        full.append("/");
        full.append(rel);
    }
    full
}

/// Takes `root` and the separator after it from the front of `full`. Gives
/// `None` for `root` itself and for whatever does not lie below it.
pub fn strip_root(root: &str, full: &str) -> (r: Option<String>)
    ensures
        r is Some <==> relative_to(root@, full@) is Some,
        r is Some ==> r->0@ == relative_to(root@, full@)->0,
{
    let base = chars_of(root);
    let chars = chars_of(full);
    let n: usize = base.len();
    let m: usize = chars.len();
    if m <= n || m - n <= 1 {
        return None;
    }
    let mut i: usize = 0;
    while i < n
        invariant
            i <= n < m,
            n == base@.len(),
            m == chars@.len(),
            base@ == root@,
            chars@ == full@,
            forall|j: int| 0 <= j < i ==> base@[j] == chars@[j],
        decreases n - i,
    {
        if base[i] != chars[i] {
            assert(chars@.subrange(0, n as int)[i as int] != base@[i as int]);
            return None;
        }
        i += 1;
    }
    assert(chars@.subrange(0, n as int) =~= base@);
    if chars[n] != '/' {
        return None;
    }
    Some(full.substring_char(n + 1, m).to_owned())
}

/// Whether `a` comes no later than `b` in the order of a tree listing.
pub fn precedes(a: &str, b: &str) -> (r: bool)
    ensures
        r == path_le(a@, b@),
{
    let x = chars_of(a);
    let y = chars_of(b);
    let mut i: usize = 0;
    while i < x.len() && i < y.len() && x[i] == y[i]
        invariant
            i <= x@.len(),
            i <= y@.len(),
            x@ == a@,
            y@ == b@,
            path_le(a@, b@) == precedes_from(a@, b@, i as int),
        decreases x@.len() - i,
    {
        i += 1;
    }
    if i >= x.len() {
        true
    } else if i >= y.len() {
        false
    } else {
        rank_of(x[i]) < rank_of(y[i])
    }
}

/// Whether the characters from `start` up to `end` spell a normal name.
fn normal_name(chars: &Vec<char>, start: usize, end: usize) -> (r: bool)
    requires
        start <= end <= chars@.len(),
    ensures
        r == is_normal_name(chars@.subrange(start as int, end as int)),
{
    let ghost name = chars@.subrange(start as int, end as int);
    let len: usize = end - start;
    assert(name.len() == len);
    assert(seq!['.'].len() == 1 && seq!['.'][0] == '.');
    assert(seq!['.', '.'].len() == 2 && seq!['.', '.'][0] == '.' && seq!['.', '.'][1] == '.');
    if len == 0 {
        false
    } else if len == 1 {
        if chars[start] == '.' {
            assert(name =~= seq!['.']);
            false
        } else {
            assert(name[0] != '.');
            true
        }
    } else if len == 2 {
        if chars[start] == '.' && chars[start + 1] == '.' {
            assert(name =~= seq!['.', '.']);
            false
        } else {
            assert(name[0] != '.' || name[1] != '.');
            true
        }
    } else {
        true
    }
}

/// Whether `path` is plain, as `is_plain` defines it.
pub fn is_plain_path(path: &str) -> (r: bool)
    ensures
        r == is_plain(path@),
{
    let chars = chars_of(path);
    let n: usize = chars.len();
    if n == 0 {
        return false;
    }
    let mut start: usize = 0;
    let mut i: usize = 0;
    while i < n
        invariant
            start <= i <= n,
            n == chars@.len(),
            chars@ == path@,
            start == last_sep(chars@.subrange(0, i as int)) + 1,
            forall|end: int|
                0 <= end < i && is_sep(chars@[end]) ==> is_normal_name(
                    #[trigger] component_ending_at(chars@, end),
                ),
        decreases n - i,
    {
        proof {
            lemma_last_sep_step(chars@, i as int);
        }
        if chars[i] == '/' {
            if !normal_name(&chars, start, i) {
                assert(!is_normal_name(component_ending_at(chars@, i as int)));
                return false;
            }
            start = i + 1;
        }
        i += 1;
    }
    assert(chars@.subrange(0, n as int) =~= chars@);
    assert(component_ending_at(chars@, n as int) == chars@.subrange(start as int, n as int));
    normal_name(&chars, start, n)
}

} // verus!
