//! The search for the instances of generic entities.
//!
//! Every reference that binds generic arguments asks for an instance of the generic
//! entity that it names: a copy with the arguments in place of the parameters, under
//! the mangled path. An instance may hold such references itself. The search takes
//! the references in the order in which it finds them and looks at each pair of a
//! path and arguments once.

use vstd::prelude::*;
use crate::dependencies::entities;
use crate::item::{views, Function, FunctionSpec, Item, ItemKind, ItemSpec};
use crate::item_map::items_of;
use crate::library::{Library, LibrarySpec};
use crate::mangle::{lemma_mangled_injective, mangle_path, mangled};
use crate::ty::{use_views, PathUse, PathUseSpec, Type, TypeSpec};

verus! {

/// The mathematical model of the state of the search.
pub struct MonoSpec {
    /// The instances made so far.
    pub instances: Seq<ItemSpec>,
    /// The pairs of a path and arguments that the search has looked at.
    pub seen: Seq<(Seq<char>, Seq<TypeSpec>)>,
}

/// A pair of a path and arguments that the search has looked at, with the mangled path.
struct Seen {
    name: String,
    arguments: Vec<Type>,
    code: String,
}

impl View for Seen {
    type V = (Seq<char>, Seq<TypeSpec>);

    closed spec fn view(&self) -> (Seq<char>, Seq<TypeSpec>) {
        (self.name@, Type::models(self.arguments@))
    }
}

/// Whether a generic entity can be instantiated with `arguments`: it is a struct, a
/// union, an opaque item or an alias, and has as many parameters as there are arguments.
pub open spec fn instantiable(def: ItemSpec, arguments: Seq<TypeSpec>) -> bool {
    &&& def.generic_params.len() > 0
    &&& def.generic_params.len() == arguments.len()
    &&& (def.body.kind() is Struct || def.body.kind() is Union || def.body.kind() is Opaque
        || def.body.kind() is Typedef)
}

/// The instances with `arguments` of those of `defs` that can be instantiated with them.
pub open spec fn instances_of(defs: Seq<ItemSpec>, arguments: Seq<TypeSpec>) -> Seq<ItemSpec>
    decreases defs.len(),
{
    if defs.len() == 0 {
        Seq::empty()
    } else if instantiable(defs.last(), arguments) {
        instances_of(defs.drop_last(), arguments).push(defs.last().instantiated(arguments))
    } else {
        instances_of(defs.drop_last(), arguments)
    }
}

/// The path occurrences in the types of `items`, in order.
pub open spec fn uses_of(items: Seq<ItemSpec>) -> Seq<PathUseSpec>
    decreases items.len(),
{
    if items.len() == 0 {
        Seq::empty()
    } else {
        uses_of(items.drop_last()) + items.last().uses()
    }
}

/// The path occurrences in the types of those of `items` that are not generic.
pub open spec fn plain_uses(items: Seq<ItemSpec>) -> Seq<PathUseSpec>
    decreases items.len(),
{
    if items.len() == 0 {
        Seq::empty()
    } else if items.last().generic_params.len() == 0 {
        plain_uses(items.drop_last()) + items.last().uses()
    } else {
        plain_uses(items.drop_last())
    }
}

/// The path occurrences in the signatures of `functions`, in order.
pub open spec fn function_uses(functions: Seq<FunctionSpec>) -> Seq<PathUseSpec>
    decreases functions.len(),
{
    if functions.len() == 0 {
        Seq::empty()
    } else {
        function_uses(functions.drop_last()) + functions.last().uses()
    }
}

/// Those of `uses` that bind generic arguments.
pub open spec fn requests(uses: Seq<PathUseSpec>) -> Seq<PathUseSpec>
    decreases uses.len(),
{
    if uses.len() == 0 {
        Seq::empty()
    } else if uses.last().arguments.len() > 0 {
        requests(uses.drop_last()).push(uses.last())
    } else {
        requests(uses.drop_last())
    }
}

/// The path occurrences from which the search starts: those in the structs, unions
/// and aliases that are not generic, and in the functions.
pub open spec fn root_uses(library: LibrarySpec) -> Seq<PathUseSpec> {
    plain_uses(items_of(library.structs)) + plain_uses(items_of(library.unions)) + plain_uses(
        items_of(library.typedefs),
    ) + function_uses(library.functions)
}

/// What the search makes of one reference: the state after it, and the references
/// that it has found in the instances that it made.
pub open spec fn step(library: LibrarySpec, state: MonoSpec, u: PathUseSpec) -> (
    MonoSpec,
    Seq<PathUseSpec>,
) {
    if u.arguments.len() == 0 || state.seen.contains((u.name, u.arguments)) {
        (state, Seq::empty())
    } else {
        let made = instances_of(entities(library, u.name), u.arguments);
        (
            MonoSpec {
                instances: state.instances + made,
                seen: state.seen.push((u.name, u.arguments)),
            },
            requests(uses_of(made)),
        )
    }
}

/// Whether the search has looked at what the reference `u` asks for.
pub open spec fn answered(state: MonoSpec, u: PathUseSpec) -> bool {
    u.arguments.len() == 0 || state.seen.contains((u.name, u.arguments))
}

/// The state in which the search ends when it starts in `state` with the references
/// `pending` and may look at `fuel` pairs of a path and arguments that it has not
/// seen before; `None` where that is not enough. A reference to a pair that the
/// search has seen costs nothing.
pub open spec fn run(
    library: LibrarySpec,
    state: MonoSpec,
    pending: Seq<PathUseSpec>,
    fuel: nat,
) -> Option<MonoSpec>
    decreases fuel, pending.len(),
{
    if pending.len() == 0 {
        Some(state)
    } else if answered(state, pending[0]) {
        run(library, state, pending.skip(1), fuel)
    } else if fuel == 0 {
        None
    } else {
        let (next, more) = step(library, state, pending[0]);
        run(library, next, pending.skip(1) + more, (fuel - 1) as nat)
    }
}

/// The number of pairs that a search can look at: as many as the machine can count.
pub open spec fn machine_limit() -> nat {
    usize::MAX as nat
}

/// The instances that the library needs; `None` where the search needs more pairs
/// than the machine can count.
pub open spec fn needed(library: LibrarySpec) -> Option<Seq<ItemSpec>> {
    match run(
        library,
        MonoSpec { instances: Seq::empty(), seen: Seq::empty() },
        requests(root_uses(library)),
        machine_limit(),
    ) {
        Some(state) => Some(state.instances),
        None => None,
    }
}

/// Whether a generic entity of this kind can be instantiated.
fn has_instances(kind: ItemKind) -> (r: bool)
    ensures
        r == (kind is Struct || kind is Union || kind is Opaque || kind is Typedef),
{
    match kind {
        ItemKind::Struct => true,
        ItemKind::Union => true,
        ItemKind::Opaque => true,
        ItemKind::Typedef => true,
        _ => false,
    }
}

/// The instances with `arguments` of those of `defs` that can be instantiated with them.
fn instantiate_all(defs: &Vec<Item>, arguments: &Vec<Type>) -> (r: Vec<Item>)
    ensures
        views(r@) == instances_of(views(defs@), Type::models(arguments@)),
{
    let mut out: Vec<Item> = Vec::new();
    let mut i: usize = 0;
    let ghost all = views(defs@);
    let ghost bound = Type::models(arguments@);
    assert(all.take(0) =~= Seq::<ItemSpec>::empty());
    assert(views(out@) =~= Seq::<ItemSpec>::empty());
    while i < defs.len()
        invariant
            i <= defs.len(),
            all == views(defs@),
            bound == Type::models(arguments@),
            views(out@) == instances_of(all.take(i as int), bound),
        decreases defs.len() - i,
    {
        assert(all.take(i + 1).drop_last() =~= all.take(i as int));
        assert(all.take(i + 1).last() == defs[i as int]@);
        let def = &defs[i];
        if def.generic_params.len() > 0 && def.generic_params.len() == arguments.len()
            && has_instances(def.kind()) {
            let ghost before = views(out@);
            let made = def.instantiate(arguments);
            out.push(made);
            assert(views(out@) =~= before.push(made@));
        }
        i += 1;
    }
    assert(all.take(i as int) =~= all);
    out
}

/// Appends to `out` those of `uses` that bind generic arguments.
fn push_requests(uses: &Vec<PathUse>, out: &mut Vec<PathUse>)
    ensures
        use_views(final(out)@) == use_views(old(out)@) + requests(use_views(uses@)),
{
    let mut i: usize = 0;
    let ghost all = use_views(uses@);
    assert(all.take(0) =~= Seq::<PathUseSpec>::empty());
    assert(use_views(out@) =~= use_views(old(out)@) + Seq::<PathUseSpec>::empty());
    while i < uses.len()
        invariant
            i <= uses.len(),
            all == use_views(uses@),
            use_views(out@) == use_views(old(out)@) + requests(all.take(i as int)),
        decreases uses.len() - i,
    {
        assert(all.take(i + 1).drop_last() =~= all.take(i as int));
        assert(all.take(i + 1).last() == uses[i as int]@);
        if uses[i].arguments.len() > 0 {
            let ghost mid = use_views(out@);
            let u = PathUse {
                name: uses[i].name.clone(),
                arguments: Type::duplicate_all(&uses[i].arguments),
                by_value: uses[i].by_value,
            };
            out.push(u);
            assert(use_views(out@) =~= mid.push(u@));
            assert(use_views(out@) =~= use_views(old(out)@) + requests(all.take(i + 1)));
        }
        i += 1;
    }
    assert(all.take(i as int) =~= all);
}

/// Appends to `out` the path occurrences in the types of `items`; with `plain`, of
/// those that are not generic only.
fn push_uses(items: &Vec<Item>, plain: bool, out: &mut Vec<PathUse>)
    ensures
        use_views(final(out)@) == use_views(old(out)@) + (if plain {
            plain_uses(views(items@))
        } else {
            uses_of(views(items@))
        }),
{
    let mut i: usize = 0;
    let ghost all = views(items@);
    assert(all.take(0) =~= Seq::<ItemSpec>::empty());
    assert(use_views(out@) =~= use_views(old(out)@) + Seq::<PathUseSpec>::empty());
    while i < items.len()
        invariant
            i <= items.len(),
            all == views(items@),
            use_views(out@) == use_views(old(out)@) + (if plain {
                plain_uses(all.take(i as int))
            } else {
                uses_of(all.take(i as int))
            }),
        decreases items.len() - i,
    {
        assert(all.take(i + 1).drop_last() =~= all.take(i as int));
        assert(all.take(i + 1).last() == items[i as int]@);
        if !plain || items[i].generic_params.len() == 0 {
            items[i].collect_uses(out);
            assert(use_views(out@) =~= use_views(old(out)@) + (if plain {
                plain_uses(all.take(i + 1))
            } else {
                uses_of(all.take(i + 1))
            }));
        }
        i += 1;
    }
    assert(all.take(i as int) =~= all);
}

/// Appends to `out` the path occurrences in the signatures of `functions`.
pub fn push_function_uses(functions: &Vec<Function>, out: &mut Vec<PathUse>)
    ensures
        use_views(final(out)@) == use_views(old(out)@) + function_uses(views(functions@)),
{
    let mut i: usize = 0;
    let ghost all = views(functions@);
    assert(all.take(0) =~= Seq::<FunctionSpec>::empty());
    assert(use_views(out@) =~= use_views(old(out)@) + Seq::<PathUseSpec>::empty());
    while i < functions.len()
        invariant
            i <= functions.len(),
            all == views(functions@),
            use_views(out@) == use_views(old(out)@) + function_uses(all.take(i as int)),
        decreases functions.len() - i,
    {
        assert(all.take(i + 1).drop_last() =~= all.take(i as int));
        assert(all.take(i + 1).last() == functions[i as int]@);
        functions[i].collect_uses(out);
        assert(use_views(out@) =~= use_views(old(out)@) + function_uses(all.take(i + 1)));
        i += 1;
    }
    assert(all.take(i as int) =~= all);
}

/// The path occurrences from which the search starts.
pub fn root_uses_of(
    structs: &Vec<Item>,
    unions: &Vec<Item>,
    typedefs: &Vec<Item>,
    functions: &Vec<Function>,
) -> (r: Vec<PathUse>)
    ensures
        use_views(r@) == plain_uses(views(structs@)) + plain_uses(views(unions@)) + plain_uses(
            views(typedefs@),
        ) + function_uses(views(functions@)),
{
    let mut out: Vec<PathUse> = Vec::new();
    assert(use_views(out@) =~= Seq::<PathUseSpec>::empty());
    push_uses(structs, true, &mut out);
    push_uses(unions, true, &mut out);
    push_uses(typedefs, true, &mut out);
    push_function_uses(functions, &mut out);
    assert(use_views(out@) =~= plain_uses(views(structs@)) + plain_uses(views(unions@))
        + plain_uses(views(typedefs@)) + function_uses(views(functions@)));
    out
}

/// The instances that the references `roots` need, where the search finds them
/// within `limit` pairs of a path and arguments.
pub fn collect(library: &Library, roots: &Vec<PathUse>, limit: usize) -> (r: Option<Vec<Item>>)
    ensures
        match r {
            Some(made) => run(
                library@,
                MonoSpec { instances: Seq::empty(), seen: Seq::empty() },
                requests(use_views(roots@)),
                limit as nat,
            ) matches Some(state) && state.instances == views(made@),
            None => run(
                library@,
                MonoSpec { instances: Seq::empty(), seen: Seq::empty() },
                requests(use_views(roots@)),
                limit as nat,
            ) is None,
        },
{
    let ghost lib = library@;
    let ghost start = MonoSpec { instances: Seq::empty(), seen: Seq::empty() };
    let ghost wanted = requests(use_views(roots@));
    let mut pending: Vec<PathUse> = Vec::new();
    assert(use_views(pending@) =~= Seq::<PathUseSpec>::empty());
    push_requests(roots, &mut pending);
    assert(use_views(pending@) =~= wanted);
    let mut instances: Vec<Item> = Vec::new();
    let mut seen: Vec<Seen> = Vec::new();
    let mut head: usize = 0;
    let mut fuel: usize = limit;
    assert(views(instances@) =~= Seq::<ItemSpec>::empty());
    assert(views(seen@) =~= Seq::<(Seq<char>, Seq<TypeSpec>)>::empty());
    assert(use_views(pending@).skip(0) =~= use_views(pending@));
    while head < pending.len()
        invariant
            head <= pending.len(),
            lib == library@,
            start == (MonoSpec { instances: Seq::empty(), seen: Seq::empty() }),
            wanted == requests(use_views(roots@)),
            forall|k: int|
                0 <= k < seen.len() ==> (#[trigger] seen[k]).code@ == mangled(
                    seen[k].name@,
                    Type::models(seen[k].arguments@),
                ),
            run(lib, start, wanted, limit as nat) == run(
                lib,
                MonoSpec { instances: views(instances@), seen: views(seen@) },
                use_views(pending@).skip(head as int),
                fuel as nat,
            ),
        decreases fuel, pending.len() - head,
    {
        let ghost state = MonoSpec { instances: views(instances@), seen: views(seen@) };
        let ghost queue = use_views(pending@).skip(head as int);
        let ghost fuel_before = fuel as nat;
        assert(queue[0] == pending[head as int]@);
        let name = pending[head].name.clone();
        let arguments = Type::duplicate_all(&pending[head].arguments);
        let ghost u = pending[head as int]@;
        let mut more: Vec<PathUse> = Vec::new();
        assert(use_views(more@) =~= Seq::<PathUseSpec>::empty());
        if arguments.len() > 0 {
            let code = mangle_path(&name, &arguments);
            let mut known = false;
            let mut k: usize = 0;
            while k < seen.len()
                invariant
                    k <= seen.len(),
                    code@ == mangled(name@, Type::models(arguments@)),
                    forall|c: int|
                        0 <= c < seen.len() ==> (#[trigger] seen[c]).code@ == mangled(
                            seen[c].name@,
                            Type::models(seen[c].arguments@),
                        ),
                    known == exists|c: int|
                        0 <= c < k && #[trigger] views(seen@)[c] == (
                            name@,
                            Type::models(arguments@),
                        ),
                decreases seen.len() - k,
            {
                let same = seen[k].name == name && seen[k].code == code;
                proof {
                    if same {
                        lemma_mangled_injective(
                            name@,
                            Type::models(seen[k as int].arguments@),
                            Type::models(arguments@),
                        );
                        assert(views(seen@)[k as int] == (name@, Type::models(arguments@)));
                    }
                }
                if same {
                    known = true;
                }
                k += 1;
            }
            assert(known == state.seen.contains((u.name, u.arguments)));
            if !known {
                if fuel == 0 {
                    return None;
                }
                fuel -= 1;
                let made = match library.get_items(&name) {
                    Some(defs) => instantiate_all(&defs, &arguments),
                    None => {
                        let none: Vec<Item> = Vec::new();
                        assert(views(none@) =~= Seq::<ItemSpec>::empty());
                        none
                    },
                };
                assert(views(made@) == instances_of(entities(lib, u.name), u.arguments));
                let mut found: Vec<PathUse> = Vec::new();
                assert(use_views(found@) =~= Seq::<PathUseSpec>::empty());
                push_uses(&made, false, &mut found);
                assert(use_views(found@) =~= uses_of(views(made@)));
                push_requests(&found, &mut more);
                assert(use_views(more@) =~= requests(uses_of(views(made@))));
                let ghost before = views(instances@);
                let ghost added = views(made@);
                let mut made = made;
                instances.append(&mut made);
                assert(views(instances@) =~= before + added);
                let ghost seen_before = views(seen@);
                let entry = Seen { name, arguments, code };
                seen.push(entry);
                assert(views(seen@) =~= seen_before.push((u.name, u.arguments)));
            }
        }
        assert(step(lib, state, u) == (
            MonoSpec { instances: views(instances@), seen: views(seen@) },
            use_views(more@),
        ));
        let ghost old_pending = use_views(pending@);
        let ghost extra = use_views(more@);
        proof {
            if answered(state, u) {
                assert(queue.skip(1) + extra =~= queue.skip(1));
            }
            assert(run(lib, state, queue, fuel_before) == run(
                lib,
                MonoSpec { instances: views(instances@), seen: views(seen@) },
                queue.skip(1) + extra,
                fuel as nat,
            ));
        }
        pending.append(&mut more);
        assert(use_views(pending@) =~= old_pending + extra);
        head += 1;
        assert(use_views(pending@).skip(head as int) =~= queue.skip(1) + extra);
    }
    assert(use_views(pending@).skip(head as int) =~= Seq::<PathUseSpec>::empty());
    Some(instances)
}

} // verus!

verus! {

/// Every pair that the search has looked at has its instances.
pub open spec fn all_made(library: LibrarySpec, state: MonoSpec) -> bool {
    forall|k: int, d: int|
        0 <= k < state.seen.len() && 0 <= d < instances_of(
            entities(library, state.seen[k].0),
            state.seen[k].1,
        ).len() ==> state.instances.contains(
            #[trigger] instances_of(entities(library, state.seen[k].0), state.seen[k].1)[d],
        )
}

/// Every reference in an instance is one that the search has looked at or will look at.
pub open spec fn followed(state: MonoSpec, pending: Seq<PathUseSpec>) -> bool {
    forall|i: int, t: int|
        0 <= i < state.instances.len() && 0 <= t < state.instances[i].uses().len() ==> answered(
            state,
            #[trigger] state.instances[i].uses()[t],
        ) || pending.contains(state.instances[i].uses()[t])
}

/// The state has grown out of `old`.
pub open spec fn grown(old: MonoSpec, state: MonoSpec) -> bool {
    &&& forall|x: (Seq<char>, Seq<TypeSpec>)| old.seen.contains(x) ==> state.seen.contains(x)
    &&& forall|x: ItemSpec| old.instances.contains(x) ==> state.instances.contains(x)
}

/// No instance is generic, and every instance is a struct, a union, an opaque item or an alias.
pub open spec fn concrete_instances(instances: Seq<ItemSpec>) -> bool {
    forall|i: int|
        0 <= i < instances.len() ==> (#[trigger] instances[i]).generic_params.len() == 0 && (
        instances[i].body.kind() is Struct || instances[i].body.kind() is Union
            || instances[i].body.kind() is Opaque || instances[i].body.kind() is Typedef)
}

/// Whether `instances` hold what the reference `u` asks for: the instance, with the
/// arguments of `u`, of every entity that `u` names and that can be instantiated with them.
pub open spec fn served(library: LibrarySpec, instances: Seq<ItemSpec>, u: PathUseSpec) -> bool {
    forall|d: int|
        0 <= d < entities(library, u.name).len() && instantiable(
            #[trigger] entities(library, u.name)[d],
            u.arguments,
        ) ==> instances.contains(entities(library, u.name)[d].instantiated(u.arguments))
}

/// A reference of one of several entities is among the references of them all.
pub proof fn lemma_uses_of_member(items: Seq<ItemSpec>, j: int, t: int) -> (at: int)
    requires
        0 <= j < items.len(),
        0 <= t < items[j].uses().len(),
    ensures
        0 <= at < uses_of(items).len(),
        uses_of(items)[at] == items[j].uses()[t],
    decreases items.len(),
{
    let front = items.drop_last();
    if j < front.len() {
        let at = lemma_uses_of_member(front, j, t);
        assert(front[j] == items[j]);
        at
    } else {
        uses_of(front).len() + t
    }
}

/// A reference that binds arguments is among the requests.
pub proof fn lemma_requests_member(uses: Seq<PathUseSpec>, at: int)
    requires
        0 <= at < uses.len(),
        uses[at].arguments.len() > 0,
    ensures
        requests(uses).contains(uses[at]),
    decreases uses.len(),
{
    let front = uses.drop_last();
    if at < front.len() {
        lemma_requests_member(front, at);
        assert(front[at] == uses[at]);
        let i = choose|i: int| 0 <= i < requests(front).len() && requests(front)[i] == uses[at];
        assert(requests(uses)[i] == uses[at]);
    } else {
        assert(requests(uses)[requests(uses).len() - 1] == uses[at]);
    }
}

/// The instance of an entity that can be instantiated is among the instances of the entities.
pub proof fn lemma_instances_of_member(defs: Seq<ItemSpec>, arguments: Seq<TypeSpec>, d: int) -> (at:
    int)
    requires
        0 <= d < defs.len(),
        instantiable(defs[d], arguments),
    ensures
        0 <= at < instances_of(defs, arguments).len(),
        instances_of(defs, arguments)[at] == defs[d].instantiated(arguments),
    decreases defs.len(),
{
    let front = defs.drop_last();
    if d < front.len() {
        let at = lemma_instances_of_member(front, arguments, d);
        assert(front[d] == defs[d]);
        at
    } else {
        instances_of(defs, arguments).len() - 1
    }
}

/// Every instance of a list of entities is concrete.
pub proof fn lemma_instances_of_concrete(defs: Seq<ItemSpec>, arguments: Seq<TypeSpec>)
    ensures
        concrete_instances(instances_of(defs, arguments)),
    decreases defs.len(),
{
    if defs.len() > 0 {
        let front = defs.drop_last();
        lemma_instances_of_concrete(front, arguments);
        let made = instances_of(defs, arguments);
        assert forall|i: int| 0 <= i < made.len() implies (#[trigger] made[i]).generic_params.len()
            == 0 && (made[i].body.kind() is Struct || made[i].body.kind() is Union
            || made[i].body.kind() is Opaque || made[i].body.kind() is Typedef) by {
            if i < instances_of(front, arguments).len() {
                assert(made[i] == instances_of(front, arguments)[i]);
            }
        }
    }
}

/// Where the search comes to an end, it has looked at every reference that was
/// pending and at every reference in an instance, and it has made the instances of
/// every pair that it has looked at.
pub proof fn lemma_run_closed(
    library: LibrarySpec,
    state: MonoSpec,
    pending: Seq<PathUseSpec>,
    fuel: nat,
)
    requires
        run(library, state, pending, fuel) is Some,
        all_made(library, state),
        followed(state, pending),
        concrete_instances(state.instances),
    ensures
        all_made(library, run(library, state, pending, fuel)->0),
        followed(run(library, state, pending, fuel)->0, Seq::empty()),
        concrete_instances(run(library, state, pending, fuel)->0.instances),
        grown(state, run(library, state, pending, fuel)->0),
        forall|i: int|
            0 <= i < pending.len() ==> answered(
                run(library, state, pending, fuel)->0,
                #[trigger] pending[i],
            ),
    decreases fuel, pending.len(),
{
    let r = run(library, state, pending, fuel)->0;
    if pending.len() == 0 {
        assert forall|i: int, t: int|
            0 <= i < r.instances.len() && 0 <= t < r.instances[i].uses().len() implies answered(
            r,
            #[trigger] r.instances[i].uses()[t],
        ) || Seq::<PathUseSpec>::empty().contains(r.instances[i].uses()[t]) by {
            assert(!pending.contains(state.instances[i].uses()[t]));
        }
    } else {
        let u = pending[0];
        let (next, more) = step(library, state, u);
        let rest = pending.skip(1) + more;
        let made = instances_of(entities(library, u.name), u.arguments);
        let key = (u.name, u.arguments);
        let fresh = !(u.arguments.len() == 0 || state.seen.contains(key));
        assert(grown(state, next)) by {
            if fresh {
                assert forall|x: (Seq<char>, Seq<TypeSpec>)| state.seen.contains(x) implies next.seen.contains(
                    x,
                ) by {
                    let i = choose|i: int| 0 <= i < state.seen.len() && state.seen[i] == x;
                    assert(next.seen[i] == x);
                }
                assert forall|x: ItemSpec| state.instances.contains(x) implies next.instances.contains(
                    x,
                ) by {
                    let i = choose|i: int| 0 <= i < state.instances.len() && state.instances[i] == x;
                    assert(next.instances[i] == x);
                }
            }
        }
        assert(answered(next, u)) by {
            if fresh {
                assert(next.seen[state.seen.len() as int] == key);
            }
        }
        assert(all_made(library, next)) by {
            if fresh {
                assert forall|k: int, d: int|
                    0 <= k < next.seen.len() && 0 <= d < instances_of(
                        entities(library, next.seen[k].0),
                        next.seen[k].1,
                    ).len() implies next.instances.contains(
                    #[trigger] instances_of(entities(library, next.seen[k].0), next.seen[k].1)[d],
                ) by {
                    if k < state.seen.len() {
                        assert(next.seen[k] == state.seen[k]);
                        let x = instances_of(
                            entities(library, state.seen[k].0),
                            state.seen[k].1,
                        )[d];
                        assert(state.instances.contains(x));
                    } else {
                        assert(next.seen[k] == key);
                        assert(next.instances[state.instances.len() + d] == made[d]);
                    }
                }
            }
        }
        assert(concrete_instances(next.instances)) by {
            if fresh {
                lemma_instances_of_concrete(entities(library, u.name), u.arguments);
                assert forall|i: int| 0 <= i < next.instances.len() implies (
                #[trigger] next.instances[i]).generic_params.len() == 0 && (
                next.instances[i].body.kind() is Struct || next.instances[i].body.kind() is Union
                    || next.instances[i].body.kind() is Opaque
                    || next.instances[i].body.kind() is Typedef) by {
                    if i < state.instances.len() {
                        assert(next.instances[i] == state.instances[i]);
                    } else {
                        assert(next.instances[i] == made[i - state.instances.len()]);
                    }
                }
            }
        }
        assert(followed(next, rest)) by {
            assert forall|i: int, t: int|
                0 <= i < next.instances.len() && 0 <= t < next.instances[i].uses().len() implies answered(
                next,
                #[trigger] next.instances[i].uses()[t],
            ) || rest.contains(next.instances[i].uses()[t]) by {
                let x = next.instances[i].uses()[t];
                if i < state.instances.len() {
                    assert(next.instances[i] == state.instances[i]);
                    if answered(state, state.instances[i].uses()[t]) {
                        if x.arguments.len() > 0 {
                            assert(next.seen.contains((x.name, x.arguments)));
                        }
                    } else {
                        let j = choose|j: int| 0 <= j < pending.len() && pending[j] == x;
                        if j > 0 {
                            assert(rest[j - 1] == x);
                        }
                    }
                } else {
                    let j = i - state.instances.len();
                    assert(next.instances[i] == made[j]);
                    if x.arguments.len() > 0 {
                        let at = lemma_uses_of_member(made, j, t);
                        lemma_requests_member(uses_of(made), at);
                        let p = choose|p: int| 0 <= p < more.len() && more[p] == x;
                        assert(rest[pending.len() - 1 + p] == x);
                    }
                }
            }
        }
        if fresh {
            lemma_run_closed(library, next, rest, (fuel - 1) as nat);
        } else {
            assert(rest =~= pending.skip(1));
            lemma_run_closed(library, next, rest, fuel);
        }
        assert forall|i: int| 0 <= i < pending.len() implies answered(r, #[trigger] pending[i]) by {
            if i == 0 {
                if u.arguments.len() > 0 {
                    assert(next.seen.contains(key));
                }
            } else {
                assert(rest[i - 1] == pending[i]);
            }
        }
    }
}

/// Soundness of the search: where it comes to an end, the instances that it has
/// made hold what every reference of the roots and of the instances themselves asks for,
/// and no instance is generic.
pub proof fn lemma_needed_sound(library: LibrarySpec)
    requires
        needed(library) is Some,
    ensures
        concrete_instances(needed(library)->0),
        forall|i: int|
            0 <= i < root_uses(library).len() ==> served(
                library,
                needed(library)->0,
                #[trigger] root_uses(library)[i],
            ),
        forall|j: int, t: int|
            0 <= j < needed(library)->0.len() && 0 <= t < needed(library)->0[j].uses().len() ==> served(
                library,
                needed(library)->0,
                #[trigger] needed(library)->0[j].uses()[t],
            ),
{
    let start = MonoSpec { instances: Seq::empty(), seen: Seq::empty() };
    let roots = requests(root_uses(library));
    lemma_run_closed(library, start, roots, machine_limit());
    let r = run(library, start, roots, machine_limit())->0;
    let instances = r.instances;
    assert forall|u: PathUseSpec| answered(r, u) && u.arguments.len() > 0 implies served(
        library,
        instances,
        u,
    ) by {
        let k = choose|k: int| 0 <= k < r.seen.len() && r.seen[k] == (u.name, u.arguments);
        assert forall|d: int|
            0 <= d < entities(library, u.name).len() && instantiable(
                #[trigger] entities(library, u.name)[d],
                u.arguments,
            ) implies instances.contains(
            entities(library, u.name)[d].instantiated(u.arguments),
        ) by {
            let at = lemma_instances_of_member(entities(library, u.name), u.arguments, d);
            assert(instances.contains(
                instances_of(entities(library, r.seen[k].0), r.seen[k].1)[at],
            ));
        }
    }
    assert forall|i: int| 0 <= i < root_uses(library).len() implies served(
        library,
        instances,
        #[trigger] root_uses(library)[i],
    ) by {
        let u = root_uses(library)[i];
        if u.arguments.len() > 0 {
            lemma_requests_member(root_uses(library), i);
            let p = choose|p: int| 0 <= p < roots.len() && roots[p] == u;
            assert(answered(r, roots[p]));
        }
    }
    assert forall|j: int, t: int|
        0 <= j < instances.len() && 0 <= t < instances[j].uses().len() implies served(
        library,
        instances,
        #[trigger] instances[j].uses()[t],
    ) by {
        let u = instances[j].uses()[t];
        assert(answered(r, u) || Seq::<PathUseSpec>::empty().contains(u));
    }
}

/// A reference of one of several functions is among the references of them all.
pub proof fn lemma_function_uses_member(functions: Seq<FunctionSpec>, k: int, t: int) -> (at: int)
    requires
        0 <= k < functions.len(),
        0 <= t < functions[k].uses().len(),
    ensures
        0 <= at < function_uses(functions).len(),
        function_uses(functions)[at] == functions[k].uses()[t],
    decreases functions.len(),
{
    let front = functions.drop_last();
    if k < front.len() {
        let at = lemma_function_uses_member(front, k, t);
        assert(front[k] == functions[k]);
        at
    } else {
        function_uses(front).len() + t
    }
}

/// A search that ends within some number of pairs ends the same way within any
/// greater number.
pub proof fn lemma_run_more_fuel(
    library: LibrarySpec,
    state: MonoSpec,
    pending: Seq<PathUseSpec>,
    fuel: nat,
    more: nat,
)
    requires
        run(library, state, pending, fuel) is Some,
        fuel <= more,
    ensures
        run(library, state, pending, more) == run(library, state, pending, fuel),
    decreases fuel, pending.len(),
{
    if pending.len() > 0 {
        if answered(state, pending[0]) {
            lemma_run_more_fuel(library, state, pending.skip(1), fuel, more);
        } else {
            let (next, found) = step(library, state, pending[0]);
            lemma_run_more_fuel(
                library,
                next,
                pending.skip(1) + found,
                (fuel - 1) as nat,
                (more - 1) as nat,
            );
        }
    }
}

} // verus!
