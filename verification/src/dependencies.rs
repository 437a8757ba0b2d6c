//! The dependency order: every entity that the roots refer to, each after the
//! entities whose complete definition it needs.
//!
//! An entity refers to another one either by value, and then it needs the complete
//! definition of the other, or through a pointer or a function signature, and then
//! it needs only the other's name. The search goes from an entity to what it needs by
//! value before it records the entity; what it refers to otherwise waits until the
//! search from the roots is over. Pointers may so form cycles; where containment by
//! value forms none, every entity comes after all that it contains.

use vstd::prelude::*;
use crate::item::{views, Item, ItemSpec};
use crate::item_map::{has_key, kept_under, lemma_has_key, lemma_matching, matching};
use crate::library::{lemma_find_keys, Library, LibrarySpec};
use crate::names::{contains_name, name_views};
use crate::ty::{use_views, PathUse, PathUseSpec, Type};

verus! {

/// The entities of a library in dependency order.
#[derive(Debug)]
pub struct Order {
    /// The entities.
    pub items: Vec<Item>,
    /// The paths under which they were found, each once, in the order of the entities.
    pub paths: Vec<String>,
}

/// The state of the search.
struct Dependencies {
    order: Vec<Item>,
    done: Vec<String>,
    visited: Vec<String>,
    pending: Vec<String>,
}

/// The mathematical model of the state of the search.
pub struct DepSpec {
    /// The entities recorded so far.
    pub order: Seq<ItemSpec>,
    /// The paths whose entities are recorded.
    pub done: Seq<Seq<char>>,
    /// The paths that the search has come to.
    pub visited: Seq<Seq<char>>,
    /// The paths that wait for the search from the roots to be over.
    pub pending: Seq<Seq<char>>,
}

impl View for Dependencies {
    type V = DepSpec;

    closed spec fn view(&self) -> DepSpec {
        DepSpec {
            order: views(self.order@),
            done: name_views(self.done@),
            visited: name_views(self.visited@),
            pending: name_views(self.pending@),
        }
    }
}

/// The path occurrences among `uses` that name no generic parameter.
pub open spec fn outside(uses: Seq<PathUseSpec>, params: Seq<Seq<char>>) -> Seq<PathUseSpec>
    decreases uses.len(),
{
    if uses.len() == 0 {
        Seq::empty()
    } else if params.contains(uses.last().name) {
        outside(uses.drop_last(), params)
    } else {
        outside(uses.drop_last(), params).push(uses.last())
    }
}

/// What an entity refers to: the path occurrences in its types, but for its own
/// generic parameters.
pub open spec fn item_targets(item: ItemSpec) -> Seq<PathUseSpec> {
    outside(item.uses(), item.generic_params)
}

/// What `items` refer to, in order.
pub open spec fn targets_all(items: Seq<ItemSpec>) -> Seq<PathUseSpec>
    decreases items.len(),
{
    if items.len() == 0 {
        Seq::empty()
    } else {
        targets_all(items.drop_last()) + item_targets(items.last())
    }
}

/// Whether `path` names an entity of the library.
pub open spec fn found(library: LibrarySpec, path: Seq<char>) -> bool {
    library.find(path) is Some
}

/// The entities that `path` names.
pub open spec fn entities(library: LibrarySpec, path: Seq<char>) -> Seq<ItemSpec> {
    match library.find(path) {
        Some(items) => items,
        None => Seq::empty(),
    }
}

/// What the entities that `path` names refer to.
pub open spec fn targets(library: LibrarySpec, path: Seq<char>) -> Seq<PathUseSpec> {
    targets_all(entities(library, path))
}

/// The entities that `paths` name, in the order of the paths.
pub open spec fn flatten(library: LibrarySpec, paths: Seq<Seq<char>>) -> Seq<ItemSpec>
    decreases paths.len(),
{
    if paths.len() == 0 {
        Seq::empty()
    } else {
        flatten(library, paths.drop_last()) + entities(library, paths.last())
    }
}

/// Whether what `u` needs by value stands among the first `k` of `done`.
pub open spec fn before(library: LibrarySpec, done: Seq<Seq<char>>, k: int, u: PathUseSpec) -> bool {
    (u.by_value && found(library, u.name)) ==> done.take(k).contains(u.name)
}

/// Every path of `done` stands after the paths of what its entities need by value.
pub open spec fn ordered(library: LibrarySpec, done: Seq<Seq<char>>) -> bool {
    forall|k: int, t: int|
        0 <= k < done.len() && 0 <= t < targets(library, done[k]).len() ==> before(
            library,
            done,
            k,
            #[trigger] targets(library, done[k])[t],
        )
}

/// Every path that the entities of `done` refer to, and that names an entity, is in `done`.
pub open spec fn complete(library: LibrarySpec, done: Seq<Seq<char>>) -> bool {
    forall|k: int, t: int|
        0 <= k < done.len() && 0 <= t < targets(library, done[k]).len() ==> (found(
            library,
            (#[trigger] targets(library, done[k])[t]).name,
        ) ==> done.contains(targets(library, done[k])[t].name))
}

/// `rank` goes down along every containment by value.
pub open spec fn ranked(library: LibrarySpec, rank: spec_fn(Seq<char>) -> nat) -> bool {
    forall|p: Seq<char>, t: int|
        found(library, p) && 0 <= t < targets(library, p).len() ==> ({
            let u = #[trigger] targets(library, p)[t];
            (u.by_value && found(library, u.name)) ==> rank(u.name) < rank(p)
        })
}

/// Containment by value forms no cycle.
pub open spec fn acyclic(library: LibrarySpec) -> bool {
    exists|rank: spec_fn(Seq<char>) -> nat| ranked(library, rank)
}

/// Whether an entity that `p` names refers to `q`.
pub open spec fn edge(library: LibrarySpec, p: Seq<char>, q: Seq<char>) -> bool {
    exists|t: int| 0 <= t < targets(library, p).len() && (#[trigger] targets(library, p)[t]).name == q
}

/// Whether `chain` leads from one of `roots` to `q`, each path named by an entity of
/// the path before it.
pub open spec fn leads(
    library: LibrarySpec,
    roots: Seq<Seq<char>>,
    chain: Seq<Seq<char>>,
    q: Seq<char>,
) -> bool {
    &&& chain.len() > 0
    &&& roots.contains(chain[0])
    &&& chain.last() == q
    &&& forall|i: int| 0 <= i < chain.len() - 1 ==> edge(library, #[trigger] chain[i], chain[i + 1])
}

/// Whether the roots refer to `q`, directly or through other entities.
pub open spec fn reachable(library: LibrarySpec, roots: Seq<Seq<char>>, q: Seq<char>) -> bool {
    exists|chain: Seq<Seq<char>>| leads(library, roots, chain, q)
}

/// How many paths a search can come to at most, and one more.
pub open spec fn budget(library: LibrarySpec) -> nat {
    library.key_list().to_set().len() + 1
}

/// The state of a search that has not begun.
pub open spec fn initial() -> DepSpec {
    DepSpec { order: Seq::empty(), done: Seq::empty(), visited: Seq::empty(), pending: Seq::empty() }
}

/// The state after the search from `path`, which may go `depth` entities deep: where
/// `path` is new and names entities, the search comes to it, goes through what the
/// entities refer to, and records them.
pub open spec fn searched(library: LibrarySpec, s: DepSpec, path: Seq<char>, depth: nat) -> DepSpec
    decreases depth, 0nat, 0nat,
{
    if depth == 0 || s.visited.contains(path) || !found(library, path) {
        s
    } else {
        let marked = DepSpec { visited: s.visited.push(path), ..s };
        let after = searched_targets(
            library,
            marked,
            targets(library, path),
            0,
            (depth - 1) as nat,
        );
        DepSpec {
            done: after.done.push(path),
            order: after.order + entities(library, path),
            ..after
        }
    }
}

/// The state after the search has gone through the references `wanted` from the
/// `i`-th on: it searches from what is needed by value and puts the rest off.
pub open spec fn searched_targets(
    library: LibrarySpec,
    s: DepSpec,
    wanted: Seq<PathUseSpec>,
    i: int,
    depth: nat,
) -> DepSpec
    decreases depth, 1nat, wanted.len() - i,
{
    if i < 0 || i >= wanted.len() {
        s
    } else if wanted[i].by_value {
        searched_targets(
            library,
            searched(library, s, wanted[i].name, depth),
            wanted,
            i + 1,
            depth,
        )
    } else {
        searched_targets(
            library,
            DepSpec { pending: s.pending.push(wanted[i].name), ..s },
            wanted,
            i + 1,
            depth,
        )
    }
}

/// The state after the searches from `roots`, one after the other.
pub open spec fn rooted(library: LibrarySpec, roots: Seq<Seq<char>>) -> DepSpec
    decreases roots.len(),
{
    if roots.len() == 0 {
        initial()
    } else {
        searched(library, rooted(library, roots.drop_last()), roots.last(), budget(library))
    }
}

/// The state after the searches from `roots` and from the first `n` paths that were put off.
pub open spec fn drained(library: LibrarySpec, roots: Seq<Seq<char>>, n: nat) -> DepSpec
    decreases n,
{
    if n == 0 {
        rooted(library, roots)
    } else {
        let s = drained(library, roots, (n - 1) as nat);
        searched(library, s, s.pending[n - 1], budget(library))
    }
}

/// Whether the search from `roots` is over after it has searched from `n` paths that
/// were put off: there are `n` of them then, and there were more before.
pub open spec fn finished(library: LibrarySpec, roots: Seq<Seq<char>>, n: nat) -> bool {
    &&& drained(library, roots, n).pending.len() == n
    &&& forall|m: nat| m < n ==> (#[trigger] drained(library, roots, m)).pending.len() > m
}

/// What `build` promises of its result for these roots.
pub open spec fn dependency_order(
    library: LibrarySpec,
    roots: Seq<Seq<char>>,
    paths: Seq<Seq<char>>,
    items: Seq<ItemSpec>,
) -> bool {
    &&& paths.no_duplicates()
    &&& forall|i: int| 0 <= i < paths.len() ==> found(library, #[trigger] paths[i])
    &&& items == flatten(library, paths)
    &&& forall|i: int|
        0 <= i < roots.len() && found(library, #[trigger] roots[i]) ==> paths.contains(roots[i])
    &&& forall|i: int| 0 <= i < paths.len() ==> reachable(library, roots, #[trigger] paths[i])
    &&& complete(library, paths)
    &&& acyclic(library) ==> ordered(library, paths)
    &&& exists|n: nat|
        finished(library, roots, n) && paths == (#[trigger] drained(library, roots, n)).done
}

impl DepSpec {
    /// Whether the search has taken care of the reference `u`.
    pub open spec fn satisfied(self, library: LibrarySpec, u: PathUseSpec) -> bool {
        found(library, u.name) ==> (if u.by_value {
            self.visited.contains(u.name)
        } else {
            self.pending.contains(u.name)
        })
    }

    /// The search has taken care of every reference of the recorded entities.
    pub open spec fn closed(self, library: LibrarySpec) -> bool {
        forall|k: int, t: int|
            0 <= k < self.done.len() && 0 <= t < targets(library, self.done[k]).len()
                ==> self.satisfied(library, #[trigger] targets(library, self.done[k])[t])
    }

    /// The state is one that the search can be in.
    pub open spec fn wf(self, library: LibrarySpec) -> bool {
        &&& self.visited.no_duplicates()
        &&& forall|i: int| 0 <= i < self.visited.len() ==> found(library, #[trigger] self.visited[i])
        &&& self.done.no_duplicates()
        &&& forall|i: int|
            0 <= i < self.done.len() ==> self.visited.contains(#[trigger] self.done[i])
        &&& self.order == flatten(library, self.done)
        &&& self.closed(library)
    }

    /// The search has come to, or put off, only paths that the roots refer to.
    pub open spec fn sound(self, library: LibrarySpec, roots: Seq<Seq<char>>) -> bool {
        &&& forall|i: int|
            0 <= i < self.visited.len() ==> reachable(library, roots, #[trigger] self.visited[i])
        &&& forall|i: int|
            0 <= i < self.pending.len() ==> reachable(library, roots, #[trigger] self.pending[i])
    }

    /// Every path that the search has come to is recorded or on `stack`.
    pub open spec fn stacked(self, stack: Seq<Seq<char>>) -> bool {
        forall|i: int|
            0 <= i < self.visited.len() ==> self.done.contains(#[trigger] self.visited[i])
                || stack.contains(self.visited[i])
    }

    /// The state has grown out of `old`.
    pub open spec fn extends(self, old: DepSpec) -> bool {
        &&& old.visited.len() <= self.visited.len()
        &&& forall|i: int| 0 <= i < old.visited.len() ==> self.visited[i] == old.visited[i]
        &&& old.done.len() <= self.done.len()
        &&& forall|i: int| 0 <= i < old.done.len() ==> self.done[i] == old.done[i]
        &&& old.pending.len() <= self.pending.len()
        &&& forall|i: int| 0 <= i < old.pending.len() ==> self.pending[i] == old.pending[i]
    }

    /// The paths recorded since `old` are paths that the search had not come to then.
    pub open spec fn fresh(self, old: DepSpec) -> bool {
        forall|i: int|
            old.done.len() <= i < self.done.len() ==> !old.visited.contains(#[trigger] self.done[i])
    }
}

/// A root is reachable.
proof fn lemma_reach_root(library: LibrarySpec, roots: Seq<Seq<char>>, i: int)
    requires
        0 <= i < roots.len(),
    ensures
        reachable(library, roots, roots[i]),
{
    assert(leads(library, roots, seq![roots[i]], roots[i]));
}

/// What a reachable path refers to is reachable.
proof fn lemma_reach_step(library: LibrarySpec, roots: Seq<Seq<char>>, p: Seq<char>, q: Seq<char>)
    requires
        reachable(library, roots, p),
        edge(library, p, q),
    ensures
        reachable(library, roots, q),
{
    let chain = choose|chain: Seq<Seq<char>>| leads(library, roots, chain, p);
    let longer = chain.push(q);
    assert forall|i: int| 0 <= i < longer.len() - 1 implies edge(
        library,
        #[trigger] longer[i],
        longer[i + 1],
    ) by {
        if i < chain.len() - 1 {
            assert(edge(library, chain[i], chain[i + 1]));
        }
    }
    assert(longer[0] == chain[0]);
    assert(leads(library, roots, longer, q));
}

proof fn lemma_extends_contains(old: DepSpec, new: DepSpec, x: Seq<char>)
    requires
        new.extends(old),
    ensures
        old.visited.contains(x) ==> new.visited.contains(x),
        old.done.contains(x) ==> new.done.contains(x),
        old.pending.contains(x) ==> new.pending.contains(x),
{
    if old.visited.contains(x) {
        let i = choose|i: int| 0 <= i < old.visited.len() && old.visited[i] == x;
        assert(new.visited[i] == x);
    }
    if old.done.contains(x) {
        let i = choose|i: int| 0 <= i < old.done.len() && old.done[i] == x;
        assert(new.done[i] == x);
    }
    if old.pending.contains(x) {
        let i = choose|i: int| 0 <= i < old.pending.len() && old.pending[i] == x;
        assert(new.pending[i] == x);
    }
}

proof fn lemma_satisfied_grows(library: LibrarySpec, old: DepSpec, new: DepSpec, u: PathUseSpec)
    requires
        new.extends(old),
        old.satisfied(library, u),
    ensures
        new.satisfied(library, u),
{
    lemma_extends_contains(old, new, u.name);
}

proof fn lemma_before_grows(
    library: LibrarySpec,
    old: Seq<Seq<char>>,
    new: Seq<Seq<char>>,
    k: int,
    u: PathUseSpec,
)
    requires
        0 <= k <= old.len() <= new.len(),
        forall|i: int| 0 <= i < old.len() ==> new[i] == old[i],
        before(library, old, k, u),
    ensures
        before(library, new, k, u),
{
    assert(new.take(k) =~= old.take(k));
}

/// The search has come to no more paths than the library has keys.
proof fn lemma_visited_bound(library: LibrarySpec, s: DepSpec)
    requires
        s.visited.no_duplicates(),
        forall|i: int| 0 <= i < s.visited.len() ==> found(library, #[trigger] s.visited[i]),
    ensures
        s.visited.len() <= library.key_list().to_set().len(),
{
    let keys = library.key_list();
    s.visited.unique_seq_to_set();
    vstd::seq_lib::seq_to_set_is_finite(keys);
    assert(s.visited.to_set().subset_of(keys.to_set())) by {
        assert forall|x: Seq<char>| s.visited.to_set().contains(x) implies keys.to_set().contains(
            x,
        ) by {
            let i = choose|i: int| 0 <= i < s.visited.len() && s.visited[i] == x;
            assert(found(library, s.visited[i]));
            lemma_find_keys(library, x);
        }
    }
    vstd::set_lib::lemma_len_subset(s.visited.to_set(), keys.to_set());
}

/// Coming to a new path that names an entity keeps the state well formed.
proof fn lemma_mark(library: LibrarySpec, s: DepSpec, p: Seq<char>)
    requires
        s.wf(library),
        !s.visited.contains(p),
        found(library, p),
    ensures
        (DepSpec { visited: s.visited.push(p), ..s }).wf(library),
        (DepSpec { visited: s.visited.push(p), ..s }).extends(s),
{
    let n = DepSpec { visited: s.visited.push(p), ..s };
    assert(n.extends(s));
    assert forall|i: int| 0 <= i < n.done.len() implies n.visited.contains(
        #[trigger] n.done[i],
    ) by {
        lemma_extends_contains(s, n, n.done[i]);
    }
    assert forall|k: int, t: int|
        0 <= k < n.done.len() && 0 <= t < targets(library, n.done[k]).len() implies n.satisfied(
        library,
        #[trigger] targets(library, n.done[k])[t],
    ) by {
        lemma_satisfied_grows(library, s, n, targets(library, s.done[k])[t]);
    }
}

/// Putting a path off keeps the state well formed.
proof fn lemma_defer(library: LibrarySpec, s: DepSpec, p: Seq<char>)
    requires
        s.wf(library),
    ensures
        (DepSpec { pending: s.pending.push(p), ..s }).wf(library),
        (DepSpec { pending: s.pending.push(p), ..s }).extends(s),
        (DepSpec { pending: s.pending.push(p), ..s }).pending.contains(p),
{
    let n = DepSpec { pending: s.pending.push(p), ..s };
    assert(n.extends(s));
    assert(n.pending[s.pending.len() as int] == p);
    assert forall|k: int, t: int|
        0 <= k < n.done.len() && 0 <= t < targets(library, n.done[k]).len() implies n.satisfied(
        library,
        #[trigger] targets(library, n.done[k])[t],
    ) by {
        lemma_satisfied_grows(library, s, n, targets(library, s.done[k])[t]);
    }
}

/// Recording the entities of a path, once the search has taken care of what they
/// refer to, keeps the state well formed.
proof fn lemma_record(library: LibrarySpec, s: DepSpec, p: Seq<char>)
    requires
        s.wf(library),
        s.visited.contains(p),
        !s.done.contains(p),
        forall|t: int|
            0 <= t < targets(library, p).len() ==> s.satisfied(
                library,
                #[trigger] targets(library, p)[t],
            ),
    ensures
        (DepSpec { done: s.done.push(p), order: s.order + entities(library, p), ..s }).wf(library),
        (DepSpec { done: s.done.push(p), order: s.order + entities(library, p), ..s }).extends(s),
{
    let n = DepSpec { done: s.done.push(p), order: s.order + entities(library, p), ..s };
    assert(n.extends(s));
    assert(n.done.drop_last() =~= s.done);
    assert(n.done.last() == p);
    assert(n.done.no_duplicates());
    assert forall|k: int, t: int|
        0 <= k < n.done.len() && 0 <= t < targets(library, n.done[k]).len() implies n.satisfied(
        library,
        #[trigger] targets(library, n.done[k])[t],
    ) by {
        if k < s.done.len() {
            assert(n.done[k] == s.done[k]);
            lemma_satisfied_grows(library, s, n, targets(library, s.done[k])[t]);
        } else {
            lemma_satisfied_grows(library, s, n, targets(library, p)[t]);
        }
    }
}

/// Recording a path after what its entities need by value keeps the order.
proof fn lemma_record_ordered(library: LibrarySpec, done: Seq<Seq<char>>, p: Seq<char>)
    requires
        ordered(library, done),
        forall|t: int|
            0 <= t < targets(library, p).len() ==> before(
                library,
                done,
                done.len() as int,
                #[trigger] targets(library, p)[t],
            ),
    ensures
        ordered(library, done.push(p)),
{
    let n = done.push(p);
    assert forall|k: int, t: int|
        0 <= k < n.len() && 0 <= t < targets(library, n[k]).len() implies before(
        library,
        n,
        k,
        #[trigger] targets(library, n[k])[t],
    ) by {
        if k < done.len() {
            assert(n[k] == done[k]);
            lemma_before_grows(library, done, n, k, targets(library, done[k])[t]);
        } else {
            lemma_before_grows(library, done, n, k, targets(library, p)[t]);
        }
    }
}

/// The entities that a path names have that path, in a library that keeps every
/// entity under its own path.
pub proof fn lemma_entities_path(library: LibrarySpec, path: Seq<char>, j: int)
    requires
        library.indexed(),
        0 <= j < entities(library, path).len(),
    ensures
        entities(library, path)[j].path == path,
{
    let table = if has_key(library.enums, path) {
        library.enums
    } else if has_key(library.structs, path) {
        library.structs
    } else if has_key(library.unions, path) {
        library.unions
    } else if has_key(library.opaque_items, path) {
        library.opaque_items
    } else {
        library.typedefs
    };
    assert(entities(library, path) == matching(table, path));
    lemma_matching(table, path);
    let e = matching(table, path)[j];
    assert(kept_under(table, path, e));
    let i = choose|i: int|
        0 <= i < table.len() && (#[trigger] table[i]).key == path && table[i].item == e;
    assert(table[i].key == table[i].item.path);
}

/// The entities of the first paths of a list are the first entities of the list.
pub proof fn lemma_flatten_prefix(library: LibrarySpec, paths: Seq<Seq<char>>, i: int, j: int)
    requires
        0 <= i <= j <= paths.len(),
    ensures
        flatten(library, paths.take(i)).len() <= flatten(library, paths.take(j)).len(),
    decreases j - i,
{
    if i < j {
        lemma_flatten_prefix(library, paths, i, j - 1);
        assert(paths.take(j).drop_last() =~= paths.take(j - 1));
    }
}

/// Each entity of a flattened list stands in the block of one of the paths.
pub proof fn lemma_flatten_blocks(library: LibrarySpec, paths: Seq<Seq<char>>, a: int) -> (k: int)
    requires
        0 <= a < flatten(library, paths).len(),
    ensures
        0 <= k < paths.len(),
        flatten(library, paths.take(k)).len() <= a < flatten(library, paths.take(k + 1)).len(),
        a - flatten(library, paths.take(k)).len() < entities(library, paths[k]).len(),
        flatten(library, paths)[a] == entities(library, paths[k])[a - flatten(
            library,
            paths.take(k),
        ).len()],
    decreases paths.len(),
{
    let front = paths.drop_last();
    if a < flatten(library, front).len() {
        let k = lemma_flatten_blocks(library, front, a);
        assert(front.take(k) =~= paths.take(k));
        assert(front.take(k + 1) =~= paths.take(k + 1));
        assert(front[k] == paths[k]);
        k
    } else {
        let k = paths.len() - 1;
        assert(paths.take(k) =~= front);
        assert(paths.take(k + 1) =~= paths);
        k
    }
}

/// What one of several entities refers to is among what they all refer to.
pub proof fn lemma_targets_member(items: Seq<ItemSpec>, j: int, t: int) -> (at: int)
    requires
        0 <= j < items.len(),
        0 <= t < item_targets(items[j]).len(),
    ensures
        0 <= at < targets_all(items).len(),
        targets_all(items)[at] == item_targets(items[j])[t],
    decreases items.len(),
{
    let front = items.drop_last();
    if j < front.len() {
        let at = lemma_targets_member(front, j, t);
        assert(front[j] == items[j]);
        at
    } else {
        targets_all(front).len() + t
    }
}

/// Topological validity: in a dependency order of a library in which containment by
/// value forms no cycle, an entity that contains another one by value stands after it.
pub proof fn lemma_contained_comes_first(
    library: LibrarySpec,
    roots: Seq<Seq<char>>,
    paths: Seq<Seq<char>>,
    items: Seq<ItemSpec>,
    a: int,
    b: int,
    t: int,
)
    requires
        dependency_order(library, roots, paths, items),
        acyclic(library),
        library.indexed(),
        0 <= a < items.len(),
        0 <= b < items.len(),
        0 <= t < item_targets(items[a]).len(),
        item_targets(items[a])[t].by_value,
        item_targets(items[a])[t].name == items[b].path,
    ensures
        b < a,
{
    let ka = lemma_flatten_blocks(library, paths, a);
    let kb = lemma_flatten_blocks(library, paths, b);
    let ja = a - flatten(library, paths.take(ka)).len();
    let jb = b - flatten(library, paths.take(kb)).len();
    let u = item_targets(items[a])[t];
    let at = lemma_targets_member(entities(library, paths[ka]), ja, t);
    assert(targets(library, paths[ka])[at] == u);
    assert(before(library, paths, ka, targets(library, paths[ka])[at]));
    lemma_entities_path(library, paths[kb], jb);
    assert(found(library, paths[kb]));
    assert(paths.take(ka).contains(paths[kb]));
    let k = choose|k: int| 0 <= k < paths.take(ka).len() && paths.take(ka)[k] == paths[kb];
    assert(paths[k] == paths[kb]);
    assert(k == kb);
    lemma_flatten_prefix(library, paths, kb + 1, ka);
}

/// Every path of a chain that leads from the roots to an entity is in the order.
proof fn lemma_chain_in_order(
    library: LibrarySpec,
    roots: Seq<Seq<char>>,
    paths: Seq<Seq<char>>,
    items: Seq<ItemSpec>,
    chain: Seq<Seq<char>>,
    n: int,
)
    requires
        dependency_order(library, roots, paths, items),
        leads(library, roots, chain, chain.last()),
        found(library, chain.last()),
        0 <= n < chain.len(),
    ensures
        paths.contains(chain[n]),
    decreases n,
{
    if n < chain.len() - 1 {
        assert(edge(library, chain[n], chain[n + 1]));
        assert(found(library, chain[n])) by {
            if !found(library, chain[n]) {
                assert(targets(library, chain[n]).len() == 0);
            }
        }
    }
    if n == 0 {
        let i = choose|i: int| 0 <= i < roots.len() && roots[i] == chain[0];
        assert(found(library, roots[i]));
    } else {
        lemma_chain_in_order(library, roots, paths, items, chain, n - 1);
        let k = choose|k: int| 0 <= k < paths.len() && paths[k] == chain[n - 1];
        assert(edge(library, chain[n - 1], chain[n]));
        let t = choose|t: int|
            0 <= t < targets(library, chain[n - 1]).len() && (#[trigger] targets(
                library,
                chain[n - 1],
            )[t]).name == chain[n];
        assert(targets(library, paths[k])[t].name == chain[n]);
    }
}

/// The dependency order holds just the paths that name an entity and that the roots
/// refer to, directly or through other entities.
pub proof fn lemma_order_exact(
    library: LibrarySpec,
    roots: Seq<Seq<char>>,
    paths: Seq<Seq<char>>,
    items: Seq<ItemSpec>,
    q: Seq<char>,
)
    requires
        dependency_order(library, roots, paths, items),
    ensures
        paths.contains(q) <==> found(library, q) && reachable(library, roots, q),
{
    if paths.contains(q) {
        let k = choose|k: int| 0 <= k < paths.len() && paths[k] == q;
        assert(found(library, paths[k]) && reachable(library, roots, paths[k]));
    }
    if found(library, q) && reachable(library, roots, q) {
        let chain = choose|chain: Seq<Seq<char>>| leads(library, roots, chain, q);
        lemma_chain_in_order(library, roots, paths, items, chain, chain.len() - 1);
    }
}

/// The search is over at one point only, so the dependency order of a library for
/// given roots is one list.
pub proof fn lemma_finished_once(library: LibrarySpec, roots: Seq<Seq<char>>, n1: nat, n2: nat)
    requires
        finished(library, roots, n1),
        finished(library, roots, n2),
    ensures
        n1 == n2,
{
    if n1 < n2 {
        assert(drained(library, roots, n1).pending.len() > n1);
    }
    if n2 < n1 {
        assert(drained(library, roots, n2).pending.len() > n2);
    }
}

/// Whether an entity of `items` has the path `name`.
pub open spec fn listed(items: Seq<ItemSpec>, name: Seq<char>) -> bool {
    exists|a: int| 0 <= a < items.len() && (#[trigger] items[a]).path == name
}

/// A path that names an entity names at least one.
pub proof fn lemma_found_entities(library: LibrarySpec, path: Seq<char>)
    requires
        found(library, path),
    ensures
        entities(library, path).len() > 0,
{
    lemma_has_key(library.enums, path);
    lemma_has_key(library.structs, path);
    lemma_has_key(library.unions, path);
    lemma_has_key(library.opaque_items, path);
    lemma_has_key(library.typedefs, path);
}

/// Where the entities of one of the paths stand in the flattened list.
pub proof fn lemma_flatten_at(library: LibrarySpec, paths: Seq<Seq<char>>, k: int, j: int)
    requires
        0 <= k < paths.len(),
        0 <= j < entities(library, paths[k]).len(),
    ensures
        flatten(library, paths.take(k)).len() + j < flatten(library, paths).len(),
        flatten(library, paths)[flatten(library, paths.take(k)).len() + j] == entities(
            library,
            paths[k],
        )[j],
    decreases paths.len(),
{
    let front = paths.drop_last();
    if k < front.len() {
        lemma_flatten_at(library, front, k, j);
        assert(front.take(k) =~= paths.take(k));
        assert(front[k] == paths[k]);
    } else {
        assert(paths.take(k) =~= front);
    }
}

/// A path of the dependency order is the path of an entity of the list.
pub proof fn lemma_order_lists(
    library: LibrarySpec,
    roots: Seq<Seq<char>>,
    paths: Seq<Seq<char>>,
    items: Seq<ItemSpec>,
    name: Seq<char>,
)
    requires
        dependency_order(library, roots, paths, items),
        library.indexed(),
        paths.contains(name),
    ensures
        listed(items, name),
{
    let k = choose|k: int| 0 <= k < paths.len() && paths[k] == name;
    assert(found(library, paths[k]));
    lemma_found_entities(library, name);
    lemma_flatten_at(library, paths, k, 0);
    lemma_entities_path(library, name, 0);
    let a = flatten(library, paths.take(k)).len() as int;
    assert(items[a].path == name);
}

/// The dependency order is closed: a path that a root or an entity of the list
/// names, and that names an entity of the library, is the path of an entity of the list.
pub proof fn lemma_order_closed(
    library: LibrarySpec,
    roots: Seq<Seq<char>>,
    paths: Seq<Seq<char>>,
    items: Seq<ItemSpec>,
)
    requires
        dependency_order(library, roots, paths, items),
        library.indexed(),
    ensures
        forall|i: int|
            0 <= i < roots.len() && found(library, #[trigger] roots[i]) ==> listed(items, roots[i]),
        forall|a: int, t: int|
            0 <= a < items.len() && 0 <= t < item_targets(items[a]).len() && found(
                library,
                (#[trigger] item_targets(items[a])[t]).name,
            ) ==> listed(items, item_targets(items[a])[t].name),
{
    assert forall|i: int| 0 <= i < roots.len() && found(library, #[trigger] roots[i]) implies listed(
        items,
        roots[i],
    ) by {
        lemma_order_lists(library, roots, paths, items, roots[i]);
    }
    assert forall|a: int, t: int|
        0 <= a < items.len() && 0 <= t < item_targets(items[a]).len() && found(
            library,
            (#[trigger] item_targets(items[a])[t]).name,
        ) implies listed(items, item_targets(items[a])[t].name) by {
        let k = lemma_flatten_blocks(library, paths, a);
        let j = a - flatten(library, paths.take(k)).len();
        let at = lemma_targets_member(entities(library, paths[k]), j, t);
        let u = targets(library, paths[k])[at];
        assert(paths.contains(u.name));
        lemma_order_lists(library, roots, paths, items, u.name);
    }
}

/// A copy of a path occurrence.
fn copy_use(u: &PathUse) -> (r: PathUse)
    ensures
        r@ == u@,
{
    PathUse { name: u.name.clone(), arguments: Type::duplicate_all(&u.arguments), by_value: u.by_value }
}

/// What `items` refer to, in order.
pub fn targets_of(items: &Vec<Item>) -> (r: Vec<PathUse>)
    ensures
        use_views(r@) == targets_all(views(items@)),
{
    let mut out: Vec<PathUse> = Vec::new();
    let mut i: usize = 0;
    let ghost all = views(items@);
    assert(all.take(0) =~= Seq::<ItemSpec>::empty());
    assert(use_views(out@) =~= Seq::<PathUseSpec>::empty());
    while i < items.len()
        invariant
            i <= items.len(),
            all == views(items@),
            use_views(out@) == targets_all(all.take(i as int)),
        decreases items.len() - i,
    {
        let mut uses: Vec<PathUse> = Vec::new();
        assert(use_views(uses@) =~= Seq::<PathUseSpec>::empty());
        items[i].collect_uses(&mut uses);
        assert(use_views(uses@) =~= items[i as int]@.uses());
        let ghost found_uses = use_views(uses@);
        let ghost params = items[i as int]@.generic_params;
        let ghost start = use_views(out@);
        let mut k: usize = 0;
        assert(found_uses.take(0) =~= Seq::<PathUseSpec>::empty());
        assert(use_views(out@) =~= start + Seq::<PathUseSpec>::empty());
        while k < uses.len()
            invariant
                k <= uses.len(),
                i < items.len(),
                found_uses == use_views(uses@),
                params == items[i as int]@.generic_params,
                use_views(out@) == start + outside(found_uses.take(k as int), params),
            decreases uses.len() - k,
        {
            assert(found_uses.take(k + 1).drop_last() =~= found_uses.take(k as int));
            assert(found_uses.take(k + 1).last() == uses[k as int]@);
            if !contains_name(&items[i].generic_params, &uses[k].name) {
                let ghost mid = use_views(out@);
                let u = copy_use(&uses[k]);
                out.push(u);
                assert(use_views(out@) =~= mid.push(u@));
                assert(use_views(out@) =~= start + outside(found_uses.take(k + 1), params));
            }
            k += 1;
        }
        assert(found_uses.take(k as int) =~= found_uses);
        assert(all.take(i + 1).drop_last() =~= all.take(i as int));
        assert(all.take(i + 1).last() == items[i as int]@);
        i += 1;
    }
    assert(all.take(i as int) =~= all);
    out
}

impl Dependencies {
    fn new() -> (r: Dependencies)
        ensures
            r@.order.len() == 0,
            r@.done.len() == 0,
            r@.visited.len() == 0,
            r@.pending.len() == 0,
    {
        Dependencies {
            order: Vec::new(),
            done: Vec::new(),
            visited: Vec::new(),
            pending: Vec::new(),
        }
    }

    fn mark(&mut self, path: &String)
        ensures
            final(self)@ == (DepSpec { visited: old(self)@.visited.push(path@), ..old(self)@ }),
    {
        self.visited.push(path.clone());
        assert(self@.visited =~= old(self)@.visited.push(path@));
    }

    fn defer(&mut self, path: &String)
        ensures
            final(self)@ == (DepSpec { pending: old(self)@.pending.push(path@), ..old(self)@ }),
    {
        self.pending.push(path.clone());
        assert(self@.pending =~= old(self)@.pending.push(path@));
    }

    fn record(&mut self, path: &String, items: Vec<Item>)
        ensures
            final(self)@ == (DepSpec {
                done: old(self)@.done.push(path@),
                order: old(self)@.order + views(items@),
                ..old(self)@
            }),
    {
        let mut items = items;
        let ghost added = views(items@);
        self.order.append(&mut items);
        self.done.push(path.clone());
        assert(self@.done =~= old(self)@.done.push(path@));
        assert(self@.order =~= old(self)@.order + added);
    }
}

/// Searches from `path`: records what its entities need by value, then the entities,
/// and puts off what they refer to otherwise.
fn visit(
    library: &Library,
    path: &String,
    st: &mut Dependencies,
    Ghost(rank): Ghost<spec_fn(Seq<char>) -> nat>,
    Ghost(stack): Ghost<Seq<Seq<char>>>,
    Ghost(roots): Ghost<Seq<Seq<char>>>,
    Ghost(depth): Ghost<nat>,
)
    requires
        depth > library@.key_list().to_set().len() - old(st)@.visited.len(),
        old(st)@.wf(library@),
        old(st)@.sound(library@, roots),
        reachable(library@, roots, path@),
        old(st)@.stacked(stack),
        ranked(library@, rank) ==> ordered(library@, old(st)@.done),
        ranked(library@, rank) && found(library@, path@) ==> forall|i: int|
            0 <= i < stack.len() ==> rank(path@) < rank(#[trigger] stack[i]),
    ensures
        final(st)@ == searched(library@, old(st)@, path@, depth),
        final(st)@.wf(library@),
        final(st)@.sound(library@, roots),
        final(st)@.extends(old(st)@),
        final(st)@.stacked(stack),
        final(st)@.fresh(old(st)@),
        ranked(library@, rank) ==> ordered(library@, final(st)@.done),
        found(library@, path@) ==> final(st)@.visited.contains(path@),
        ranked(library@, rank) && found(library@, path@) ==> final(st)@.done.contains(path@),
        final(st)@.visited.len() == old(st)@.visited.len() ==> final(st)@.pending == old(
            st,
        )@.pending,
    decreases library@.key_list().to_set().len() - old(st)@.visited.len(),
{
    let ghost lib = library@;
    let ghost entry = st@;
    if contains_name(&st.visited, path) {
        proof {
            let i = choose|i: int| 0 <= i < entry.visited.len() && entry.visited[i] == path@;
            assert(found(lib, entry.visited[i]));
            if ranked(lib, rank) && stack.contains(path@) {
                let j = choose|j: int| 0 <= j < stack.len() && stack[j] == path@;
                assert(rank(path@) < rank(stack[j]));
            }
        }
        return ;
    }
    let items = match library.get_items(path) {
        None => {
            return ;
        },
        Some(items) => items,
    };
    assert(views(items@) == entities(lib, path@));
    let wanted = targets_of(&items);
    assert(use_views(wanted@) == targets(lib, path@));
    st.mark(path);
    let ghost marked = st@;
    let ghost inner = stack.push(path@);
    proof {
        lemma_mark(lib, entry, path@);
        lemma_visited_bound(lib, marked);
        assert(marked.sound(lib, roots)) by {
            assert forall|i: int| 0 <= i < marked.visited.len() implies reachable(
                lib,
                roots,
                #[trigger] marked.visited[i],
            ) by {
                if i < entry.visited.len() {
                    assert(marked.visited[i] == entry.visited[i]);
                }
            }
        }
        assert(marked.visited[entry.visited.len() as int] == path@);
        assert forall|i: int| 0 <= i < marked.visited.len() implies marked.done.contains(
            #[trigger] marked.visited[i],
        ) || inner.contains(marked.visited[i]) by {
            if i < entry.visited.len() {
                assert(marked.visited[i] == entry.visited[i]);
                if stack.contains(entry.visited[i]) {
                    let j = choose|j: int| 0 <= j < stack.len() && stack[j] == entry.visited[i];
                    assert(inner[j] == entry.visited[i]);
                }
            } else {
                assert(inner[stack.len() as int] == path@);
            }
        }
        if entry.done.contains(path@) {
            let i = choose|i: int| 0 <= i < entry.done.len() && entry.done[i] == path@;
            assert(entry.visited.contains(entry.done[i]));
        }
    }
    let mut i: usize = 0;
    while i < wanted.len()
        invariant
            i <= wanted.len(),
            lib == library@,
            entry == old(st)@,
            use_views(wanted@) == targets(lib, path@),
            found(lib, path@),
            inner == stack.push(path@),
            depth > lib.key_list().to_set().len() - entry.visited.len(),
            searched_targets(lib, marked, use_views(wanted@), 0, (depth - 1) as nat)
                == searched_targets(lib, st@, use_views(wanted@), i as int, (depth - 1) as nat),
            st@.wf(lib),
            st@.sound(lib, roots),
            reachable(lib, roots, path@),
            st@.extends(marked),
            st@.stacked(inner),
            st@.fresh(entry),
            marked.extends(entry),
            marked.visited.len() == entry.visited.len() + 1,
            marked.visited.contains(path@),
            !entry.visited.contains(path@),
            !st@.done.contains(path@),
            ranked(lib, rank) ==> ordered(lib, st@.done),
            ranked(lib, rank) ==> forall|j: int|
                0 <= j < stack.len() ==> rank(path@) < rank(#[trigger] stack[j]),
            forall|t: int| 0 <= t < i ==> st@.satisfied(lib, #[trigger] use_views(wanted@)[t]),
            ranked(lib, rank) ==> forall|t: int|
                0 <= t < i ==> before(
                    lib,
                    st@.done,
                    st@.done.len() as int,
                    #[trigger] use_views(wanted@)[t],
                ),
        decreases wanted.len() - i,
    {
        let ghost cur = st@;
        let ghost u = use_views(wanted@)[i as int];
        assert(u == wanted[i as int]@);
        proof {
            assert(targets(lib, path@)[i as int].name == u.name);
            lemma_reach_step(lib, roots, path@, u.name);
        }
        if wanted[i].by_value {
            proof {
                lemma_visited_bound(lib, cur);
                if ranked(lib, rank) && found(lib, u.name) {
                    assert(targets(lib, path@)[i as int] == u);
                    assert(rank(u.name) < rank(path@));
                    assert forall|j: int| 0 <= j < inner.len() implies rank(u.name) < rank(
                        #[trigger] inner[j],
                    ) by {
                        if j < stack.len() {
                            assert(inner[j] == stack[j]);
                        }
                    }
                }
            }
            visit(
                library,
                &wanted[i].name,
                st,
                Ghost(rank),
                Ghost(inner),
                Ghost(roots),
                Ghost((depth - 1) as nat),
            );
        } else {
            st.defer(&wanted[i].name);
            proof {
                lemma_defer(lib, cur, u.name);
                assert(st@.fresh(cur));
                assert(st@.stacked(inner));
                assert(st@.sound(lib, roots)) by {
                    assert forall|k: int| 0 <= k < st@.pending.len() implies reachable(
                        lib,
                        roots,
                        #[trigger] st@.pending[k],
                    ) by {
                        if k < cur.pending.len() {
                            assert(st@.pending[k] == cur.pending[k]);
                        }
                    }
                }
            }
        }
        proof {
            let now = st@;
            assert(now.extends(marked));
            assert(now.fresh(entry)) by {
                assert forall|k: int| entry.done.len() <= k < now.done.len() implies !entry.visited.contains(
                    #[trigger] now.done[k],
                ) by {
                    if k < cur.done.len() {
                        assert(now.done[k] == cur.done[k]);
                    } else {
                        if entry.visited.contains(now.done[k]) {
                            lemma_extends_contains(entry, marked, now.done[k]);
                            lemma_extends_contains(marked, cur, now.done[k]);
                        }
                    }
                }
            }
            assert(!now.done.contains(path@)) by {
                if now.done.contains(path@) {
                    let k = choose|k: int| 0 <= k < now.done.len() && now.done[k] == path@;
                    if k < cur.done.len() {
                        assert(cur.done[k] == path@);
                    } else {
                        lemma_extends_contains(marked, cur, path@);
                    }
                }
            }
            assert(now.satisfied(lib, u)) by {
                lemma_extends_contains(cur, now, u.name);
            }
            assert forall|t: int| 0 <= t < i + 1 implies now.satisfied(
                lib,
                #[trigger] use_views(wanted@)[t],
            ) by {
                if t < i {
                    lemma_satisfied_grows(lib, cur, now, use_views(wanted@)[t]);
                }
            }
            if ranked(lib, rank) {
                assert forall|t: int| 0 <= t < i + 1 implies before(
                    lib,
                    now.done,
                    now.done.len() as int,
                    #[trigger] use_views(wanted@)[t],
                ) by {
                    let w = use_views(wanted@)[t];
                    if w.by_value && found(lib, w.name) {
                        if t < i {
                            assert(before(lib, cur.done, cur.done.len() as int, w));
                            assert(cur.done.take(cur.done.len() as int) =~= cur.done);
                            lemma_extends_contains(cur, now, w.name);
                        }
                        assert(now.done.contains(w.name));
                        assert(now.done.take(now.done.len() as int) =~= now.done);
                    }
                }
            }
        }
        i += 1;
    }
    let ghost last = st@;
    st.record(path, items);
    proof {
        lemma_extends_contains(marked, last, path@);
        assert forall|t: int| 0 <= t < targets(lib, path@).len() implies last.satisfied(
            lib,
            #[trigger] targets(lib, path@)[t],
        ) by {
            assert(use_views(wanted@)[t] == targets(lib, path@)[t]);
        }
        lemma_record(lib, last, path@);
        let now = st@;
        assert(now.sound(lib, roots));
        assert(last == searched_targets(lib, marked, targets(lib, path@), 0, (depth - 1) as nat));
        assert(now == searched(lib, entry, path@, depth));
        assert(now.done[last.done.len() as int] == path@);
        assert(now.stacked(stack)) by {
            assert forall|k: int| 0 <= k < now.visited.len() implies now.done.contains(
                #[trigger] now.visited[k],
            ) || stack.contains(now.visited[k]) by {
                let v = now.visited[k];
                assert(v == last.visited[k]);
                if last.done.contains(v) {
                    lemma_extends_contains(last, now, v);
                } else {
                    assert(inner.contains(v));
                    let j = choose|j: int| 0 <= j < inner.len() && inner[j] == v;
                    if j < stack.len() {
                        assert(stack[j] == v);
                    }
                }
            }
        }
        assert(now.fresh(entry)) by {
            assert forall|k: int| entry.done.len() <= k < now.done.len() implies !entry.visited.contains(
                #[trigger] now.done[k],
            ) by {
                if k < last.done.len() {
                    assert(now.done[k] == last.done[k]);
                }
            }
        }
        if ranked(lib, rank) {
            assert forall|t: int| 0 <= t < targets(lib, path@).len() implies before(
                lib,
                last.done,
                last.done.len() as int,
                #[trigger] targets(lib, path@)[t],
            ) by {
                assert(use_views(wanted@)[t] == targets(lib, path@)[t]);
            }
            lemma_record_ordered(lib, last.done, path@);
        }
        lemma_extends_contains(last, now, path@);
    }
}

/// The entities that `roots` refer to, directly or through other entities, in
/// dependency order. A root that names no entity is passed over.
pub fn build(library: &Library, roots: &Vec<String>) -> (r: Order)
    ensures
        dependency_order(library@, name_views(roots@), name_views(r.paths@), views(r.items@)),
{
    let ghost lib = library@;
    let ghost rank = choose|rank: spec_fn(Seq<char>) -> nat| ranked(lib, rank);
    let ghost none = Seq::<Seq<char>>::empty();
    let ghost from = name_views(roots@);
    let ghost depth = budget(lib);
    let mut st = Dependencies::new();
    assert(st@.order =~= flatten(lib, st@.done));
    assert(st@.order =~= Seq::<ItemSpec>::empty());
    assert(st@.done =~= Seq::<Seq<char>>::empty());
    assert(st@.visited =~= Seq::<Seq<char>>::empty());
    assert(st@.pending =~= Seq::<Seq<char>>::empty());
    assert(st@ == initial());
    assert(from.take(0) =~= Seq::<Seq<char>>::empty());
    let mut i: usize = 0;
    while i < roots.len()
        invariant
            i <= roots.len(),
            lib == library@,
            none == Seq::<Seq<char>>::empty(),
            from == name_views(roots@),
            depth == budget(lib),
            st@ == rooted(lib, from.take(i as int)),
            st@.wf(lib),
            st@.sound(lib, from),
            st@.stacked(none),
            ranked(lib, rank) ==> ordered(lib, st@.done),
            forall|j: int| 0 <= j < i && found(lib, roots[j]@) ==> st@.visited.contains(roots[j]@),
        decreases roots.len() - i,
    {
        let ghost cur = st@;
        proof {
            lemma_reach_root(lib, from, i as int);
            assert(from.take(i + 1).drop_last() =~= from.take(i as int));
            assert(from.take(i + 1).last() == roots[i as int]@);
        }
        visit(library, &roots[i], &mut st, Ghost(rank), Ghost(none), Ghost(from), Ghost(depth));
        proof {
            assert forall|j: int| 0 <= j < i + 1 && found(lib, roots[j]@) implies st@.visited.contains(
                roots[j]@,
            ) by {
                lemma_extends_contains(cur, st@, roots[j]@);
            }
        }
        i += 1;
    }
    let ghost rooted = st@;
    assert(from.take(i as int) =~= from);
    let mut head: usize = 0;
    while head < st.pending.len()
        invariant
            head <= st.pending.len(),
            lib == library@,
            none == Seq::<Seq<char>>::empty(),
            from == name_views(roots@),
            depth == budget(lib),
            st@ == drained(lib, from, head as nat),
            forall|m: nat| m < head ==> (#[trigger] drained(lib, from, m)).pending.len() > m,
            st@.wf(lib),
            st@.sound(lib, from),
            st@.stacked(none),
            st@.extends(rooted),
            st@.pending == name_views(st.pending@),
            ranked(lib, rank) ==> ordered(lib, st@.done),
            forall|k: int|
                0 <= k < head && found(lib, st@.pending[k]) ==> st@.visited.contains(
                    st@.pending[k],
                ),
        decreases
                library@.key_list().to_set().len() - st@.visited.len(),
                st.pending.len() - head,
    {
        let ghost cur = st@;
        let next = st.pending[head].clone();
        assert(next@ == cur.pending[head as int]);
        proof {
            lemma_visited_bound(lib, cur);
        }
        visit(library, &next, &mut st, Ghost(rank), Ghost(none), Ghost(from), Ghost(depth));
        proof {
            lemma_visited_bound(lib, st@);
            assert forall|k: int|
                0 <= k < head + 1 && found(lib, st@.pending[k]) implies st@.visited.contains(
                st@.pending[k],
            ) by {
                assert(st@.pending[k] == cur.pending[k]);
                lemma_extends_contains(cur, st@, cur.pending[k]);
            }
        }
        head += 1;
    }
    proof {
        let s = st@;
        assert forall|x: Seq<char>| s.visited.contains(x) implies s.done.contains(x) by {
            let k = choose|k: int| 0 <= k < s.visited.len() && s.visited[k] == x;
            assert(s.done.contains(s.visited[k]) || none.contains(s.visited[k]));
        }
        assert forall|k: int| 0 <= k < s.done.len() implies found(lib, #[trigger] s.done[k])
            && reachable(lib, from, s.done[k]) by {
            assert(s.visited.contains(s.done[k]));
            let j = choose|j: int| 0 <= j < s.visited.len() && s.visited[j] == s.done[k];
            assert(found(lib, s.visited[j]));
            assert(reachable(lib, from, s.visited[j]));
        }
        assert forall|j: int|
            0 <= j < roots.len() && found(lib, #[trigger] name_views(roots@)[j]) implies s.done.contains(
            name_views(roots@)[j],
        ) by {
            lemma_extends_contains(rooted, s, roots[j]@);
        }
        assert(complete(lib, s.done)) by {
            assert forall|k: int, t: int|
                0 <= k < s.done.len() && 0 <= t < targets(lib, s.done[k]).len() && found(
                    lib,
                    (#[trigger] targets(lib, s.done[k])[t]).name,
                ) implies s.done.contains(targets(lib, s.done[k])[t].name) by {
                let u = targets(lib, s.done[k])[t];
                assert(s.satisfied(lib, u));
                if !u.by_value {
                    let j = choose|j: int| 0 <= j < s.pending.len() && s.pending[j] == u.name;
                    assert(s.visited.contains(s.pending[j]));
                }
            }
        }
        if acyclic(lib) {
            assert(ranked(lib, rank));
        }
        assert(finished(lib, from, head as nat));
        assert(s.done == drained(lib, from, head as nat).done);
    }
    Order { items: st.order, paths: st.done }
}

} // verus!
