//! What holds of the stages: the laws of the library, each proved from the
//! definitions of the stages.

use vstd::prelude::*;
use crate::bindings::BindingsSpec;
use crate::config::Language;
use crate::dependencies::{
    acyclic, dependency_order, entities, flatten, found, item_targets,
    lemma_contained_comes_first, lemma_entities_path, lemma_flatten_blocks, lemma_order_closed,
    listed,
};
use crate::item::{
    lemma_function_binds_nothing, lemma_function_uses, lemma_item_binds_nothing, FunctionSpec,
    ItemKind, ItemOpSpec, ItemSpec,
};
use crate::item_map::{
    consistent, filtered, has_key, lemma_filtered, lemma_filtered_valid, lemma_has_key,
    lemma_inserted_keys, lemma_inserted_valid, lemma_lookup_after_rebuild,
    claimed, installed, items_of, kept_under, lemma_filtered_of_kind, lemma_inserted_of_kind,
    lemma_lookup_before_rebuild, lemma_mapped_consistent, lemma_mapped_of_kind,
    lemma_matching_conditional,
    lemma_mapped_valid, lemma_matching,
    lemma_rebuilt_of_kind, lemma_same_bodies_of_kind, lookup, mapped, matching, plain_under,
    released, sorted, valid, ClaimSpec, FilterSpec, SlotSpec,
};
use crate::library::{
    function_paths, kept_functions, slot_after, sorted_by_path, use_names, LibrarySpec,
};
use crate::mangle::mangled;
use crate::monomorph::{
    concrete_instances, function_uses, instantiable, lemma_function_uses_member,
    lemma_needed_sound, lemma_run_more_fuel, machine_limit, needed, plain_uses, requests,
    root_uses, run, served, MonoSpec,
};
use crate::names::{
    ascending, lemma_name_lt_asymmetric, lemma_name_lt_total, lemma_name_lt_transitive, name_le,
    name_lt,
};
use crate::ty::{from_uses, mangled_use, TypeSpec};

verus! {

/// Priority of the transfer of annotations: a claim goes to the first table, of
/// enums, structs, unions, opaque items and aliases, that holds its target. There
/// every entity under the target that has no annotations gets those of the claim,
/// and every other entity stays as it is; the tables after it are not touched, also
/// where every entity under the target has kept its own annotations.
pub proof fn lemma_delivered_first(library: LibrarySpec, claim: ClaimSpec, kind: ItemKind)
    requires
        kind is Enum || kind is Struct || kind is Union || kind is Opaque || kind is Typedef,
        has_key(library.table_of(kind), claim.target),
        kind is Struct ==> !has_key(library.enums, claim.target),
        kind is Union ==> !has_key(library.enums, claim.target) && !has_key(
            library.structs,
            claim.target,
        ),
        kind is Opaque ==> !has_key(library.enums, claim.target) && !has_key(
            library.structs,
            claim.target,
        ) && !has_key(library.unions, claim.target),
        kind is Typedef ==> !has_key(library.enums, claim.target) && !has_key(
            library.structs,
            claim.target,
        ) && !has_key(library.unions, claim.target) && !has_key(
            library.opaque_items,
            claim.target,
        ),
    ensures
        forall|other: ItemKind|
            other != kind ==> library.delivered(claim).table_of(other) == library.table_of(other),
        library.delivered(claim).table_of(kind).len() == library.table_of(kind).len(),
        forall|i: int|
            0 <= i < library.table_of(kind).len() ==> (#[trigger] library.delivered(
                claim,
            ).table_of(kind)[i]) == (if library.table_of(kind)[i].key == claim.target
                && library.table_of(kind)[i].item.annotations.len() == 0 {
                SlotSpec {
                    key: claim.target,
                    item: library.table_of(kind)[i].item.with_annotations(claim.annotations),
                }
            } else {
                library.table_of(kind)[i]
            }),
{
}

/// The functions that are kept have none of `names`.
pub proof fn lemma_kept_functions(functions: Seq<FunctionSpec>, names: Seq<Seq<char>>)
    ensures
        forall|j: int|
            0 <= j < kept_functions(functions, names).len() ==> !names.contains(
                (#[trigger] kept_functions(functions, names)[j]).path,
            ),
    decreases functions.len(),
{
    if functions.len() > 0 {
        lemma_kept_functions(functions.drop_last(), names);
        let kept = kept_functions(functions.drop_last(), names);
        let after = kept_functions(functions, names);
        assert forall|j: int| 0 <= j < after.len() implies !names.contains(
            (#[trigger] after[j]).path,
        ) by {
            if j < kept.len() {
                assert(after[j] == kept[j]);
            }
        }
    }
}

/// Exclusion is complete: once the excluded names are dropped, no entity of any kind
/// and no function has one of them.
pub proof fn lemma_excluded_complete(library: LibrarySpec, name: Seq<char>)
    requires
        library.config.exclude.contains(name),
    ensures
        forall|i: int|
            0 <= i < library.excluded().constants.len() ==> (
            #[trigger] library.excluded().constants[i]).item.path != name,
        forall|i: int|
            0 <= i < library.excluded().globals.len() ==> (
            #[trigger] library.excluded().globals[i]).item.path != name,
        forall|i: int|
            0 <= i < library.excluded().enums.len() ==> (
            #[trigger] library.excluded().enums[i]).item.path != name,
        forall|i: int|
            0 <= i < library.excluded().structs.len() ==> (
            #[trigger] library.excluded().structs[i]).item.path != name,
        forall|i: int|
            0 <= i < library.excluded().unions.len() ==> (
            #[trigger] library.excluded().unions[i]).item.path != name,
        forall|i: int|
            0 <= i < library.excluded().opaque_items.len() ==> (
            #[trigger] library.excluded().opaque_items[i]).item.path != name,
        forall|i: int|
            0 <= i < library.excluded().typedefs.len() ==> (
            #[trigger] library.excluded().typedefs[i]).item.path != name,
        forall|i: int|
            0 <= i < library.excluded().functions.len() ==> (
            #[trigger] library.excluded().functions[i]).path != name,
{
    let filter = FilterSpec::Named(library.config.exclude);
    lemma_filtered(library.constants, filter);
    lemma_filtered(library.globals, filter);
    lemma_filtered(library.enums, filter);
    lemma_filtered(library.structs, filter);
    lemma_filtered(library.unions, filter);
    lemma_filtered(library.opaque_items, filter);
    lemma_filtered(library.typedefs, filter);
    lemma_kept_functions(library.functions, library.config.exclude);
}

/// Placing entities leaves every entity under its own path.
pub proof fn lemma_placed_indexed(library: LibrarySpec, items: Seq<ItemSpec>)
    requires
        library.indexed(),
    ensures
        library.placed_all(items).indexed(),
    decreases items.len(),
{
    if items.len() > 0 {
        lemma_placed_indexed(library, items.drop_last());
        let before = library.placed_all(items.drop_last());
        let item = items.last();
        lemma_inserted_keys(before.structs, item, item.path);
        lemma_inserted_keys(before.unions, item, item.path);
        lemma_inserted_keys(before.opaque_items, item, item.path);
        lemma_inserted_keys(before.typedefs, item, item.path);
    }
}

/// After every stage but the last, every entity is kept under its own path.
pub proof fn lemma_staged_indexed(library: LibrarySpec)
    requires
        library.staged() is Some,
    ensures
        library.staged()->0.indexed(),
{
    let start = library.excluded().ordered().transferred();
    let op = ItemOpSpec::Rename(start.config.rename);
    let renamed = start.renamed();
    lemma_lookup_after_rebuild(mapped(start.enums, op), Seq::empty());
    lemma_lookup_after_rebuild(mapped(start.structs, op), Seq::empty());
    lemma_lookup_after_rebuild(mapped(start.unions, op), Seq::empty());
    lemma_lookup_after_rebuild(mapped(start.opaque_items, op), Seq::empty());
    lemma_lookup_after_rebuild(mapped(start.typedefs, op), Seq::empty());
    assert(renamed.indexed());
    let simple = renamed.simplified();
    lemma_mapped_consistent(renamed.structs, ItemOpSpec::Simplify);
    lemma_mapped_consistent(renamed.unions, ItemOpSpec::Simplify);
    lemma_mapped_consistent(renamed.typedefs, ItemOpSpec::Simplify);
    assert(simple.indexed());
    if simple.config.language == Language::C {
        let instances = needed(simple)->0;
        let placed = simple.placed_all(instances);
        lemma_placed_indexed(simple, instances);
        let generic = FilterSpec::Generic;
        lemma_filtered(placed.opaque_items, generic);
        lemma_filtered(placed.structs, generic);
        lemma_filtered(placed.unions, generic);
        lemma_filtered(placed.typedefs, generic);
        lemma_mapped_consistent(filtered(placed.structs, generic), ItemOpSpec::Mangle);
        lemma_mapped_consistent(filtered(placed.unions, generic), ItemOpSpec::Mangle);
        lemma_mapped_consistent(filtered(placed.typedefs, generic), ItemOpSpec::Mangle);
        let concrete = placed.concrete();
        assert(concrete.indexed());
        if !concrete.config.style.generate_typedef() {
            let resolve = ItemOpSpec::Resolve(concrete.registry());
            lemma_mapped_consistent(concrete.enums, resolve);
            lemma_mapped_consistent(concrete.structs, resolve);
            lemma_mapped_consistent(concrete.unions, resolve);
            lemma_mapped_consistent(concrete.typedefs, resolve);
        }
    }
}

/// Topological validity of the final form: where containment by value forms no
/// cycle, an entity of the final list that contains another one by value stands after it.
pub proof fn lemma_final_order(
    library: LibrarySpec,
    bindings: BindingsSpec,
    a: int,
    b: int,
    t: int,
)
    requires
        library.staged() is Some,
        library.staged()->0.bundled(bindings),
        acyclic(library.staged()->0),
        0 <= a < bindings.items.len(),
        0 <= b < bindings.items.len(),
        0 <= t < item_targets(bindings.items[a]).len(),
        item_targets(bindings.items[a])[t].by_value,
        item_targets(bindings.items[a])[t].name == bindings.items[b].path,
    ensures
        b < a,
{
    let staged = library.staged()->0;
    lemma_staged_indexed(library);
    let paths = choose|paths: Seq<Seq<char>>|
        dependency_order(staged, staged.roots(), paths, bindings.items);
    lemma_contained_comes_first(staged, staged.roots(), paths, bindings.items, a, b, t);
}

/// Whether instances of entities of `kind` are made.
pub open spec fn instance_kind(kind: ItemKind) -> bool {
    kind is Struct || kind is Union || kind is Opaque || kind is Typedef
}

/// Placing concrete entities puts no generic entity under a key.
pub proof fn lemma_placed_plain(
    library: LibrarySpec,
    items: Seq<ItemSpec>,
    kind: ItemKind,
    key: Seq<char>,
)
    requires
        concrete_instances(items),
        plain_under(library.table_of(kind), key),
    ensures
        plain_under(library.placed_all(items).table_of(kind), key),
    decreases items.len(),
{
    if items.len() > 0 {
        let front = items.drop_last();
        assert(concrete_instances(front)) by {
            assert forall|i: int| 0 <= i < front.len() implies (
            #[trigger] front[i]).generic_params.len() == 0 && instance_kind(
                front[i].body.kind(),
            ) by {
                assert(front[i] == items[i]);
            }
        }
        lemma_placed_plain(library, front, kind, key);
        let before = library.placed_all(front);
        let item = items.last();
        assert(item == items[items.len() - 1]);
        let old_table = before.table_of(kind);
        let new_table = before.placed(item).table_of(kind);
        if item.body.kind() == kind {
            lemma_inserted_keys(old_table, item, key);
            assert forall|i: int|
                0 <= i < new_table.len() && (#[trigger] new_table[i]).key
                    == key implies new_table[i].item.generic_params.len() == 0 by {
                if old_table.contains(new_table[i]) {
                    let j = choose|j: int| 0 <= j < old_table.len() && old_table[j] == new_table[i];
                    assert(old_table[j].key == key);
                }
            }
        }
    }
}

/// An entity that was placed has its path in the table of its kind.
pub proof fn lemma_placed_has_key(library: LibrarySpec, items: Seq<ItemSpec>, x: ItemSpec)
    requires
        items.contains(x),
        instance_kind(x.body.kind()),
    ensures
        has_key(library.placed_all(items).table_of(x.body.kind()), x.path),
    decreases items.len(),
{
    let front = items.drop_last();
    let before = library.placed_all(front);
    let item = items.last();
    let kind = x.body.kind();
    if item == x {
        lemma_inserted_keys(before.table_of(kind), item, x.path);
    } else {
        let i = choose|i: int| 0 <= i < items.len() && items[i] == x;
        assert(front[i] == x);
        lemma_placed_has_key(library, front, x);
        if item.body.kind() == kind {
            lemma_inserted_keys(before.table_of(kind), item, x.path);
        }
    }
}

/// What is left when the generic entities are gone has no generic parameters, and a
/// key under which no generic entity was kept is still there.
pub proof fn lemma_concrete(library: LibrarySpec, kind: ItemKind, key: Seq<char>)
    requires
        instance_kind(kind),
    ensures
        forall|i: int|
            0 <= i < library.concrete().table_of(kind).len() ==> (
            #[trigger] library.concrete().table_of(kind)[i]).item.generic_params.len() == 0,
        has_key(library.table_of(kind), key) && plain_under(library.table_of(kind), key)
            ==> has_key(library.concrete().table_of(kind), key),
{
    let table = library.table_of(kind);
    let generic = FilterSpec::Generic;
    let kept = filtered(table, generic);
    let after = library.concrete().table_of(kind);
    lemma_filtered(table, generic);
    assert(after.len() == kept.len());
    assert forall|i: int| 0 <= i < after.len() implies (
    #[trigger] after[i]).item.generic_params.len() == 0 by {
        assert(!generic.rejects(kept[i].item));
        assert(after[i].item.generic_params == kept[i].item.generic_params);
    }
    if has_key(table, key) && plain_under(table, key) {
        lemma_has_key(table, key);
        let i = choose|i: int| 0 <= i < table.len() && (#[trigger] table[i]).key == key;
        assert(!generic.rejects(table[i].item));
        assert(kept.contains(table[i]));
        let j = choose|j: int| 0 <= j < kept.len() && kept[j] == table[i];
        assert(after[j].key == key);
        lemma_has_key(after, key);
    }
}

/// Soundness of monomorphization. Where the library comes out of it, no struct,
/// union, opaque item or alias is generic. Every reference of a struct, union or alias
/// that was not generic, or of a function, that binds arguments to an entity that can
/// be instantiated with them, finds the instance under its mangled path, unless a
/// generic entity of the library has that very path.
pub proof fn lemma_monomorphized_sound(library: LibrarySpec, i: int, d: int)
    requires
        library.monomorphized() is Some,
        0 <= i < root_uses(library).len(),
        0 <= d < entities(library, root_uses(library)[i].name).len(),
        instantiable(
            entities(library, root_uses(library)[i].name)[d],
            root_uses(library)[i].arguments,
        ),
        plain_under(
            library.table_of(entities(library, root_uses(library)[i].name)[d].body.kind()),
            entities(library, root_uses(library)[i].name)[d].instantiated(
                root_uses(library)[i].arguments,
            ).path,
        ),
    ensures
        has_key(
            library.monomorphized()->0.table_of(
                entities(library, root_uses(library)[i].name)[d].body.kind(),
            ),
            entities(library, root_uses(library)[i].name)[d].instantiated(
                root_uses(library)[i].arguments,
            ).path,
        ),
        library.indexed() ==> entities(library, root_uses(library)[i].name)[d].instantiated(
            root_uses(library)[i].arguments,
        ).path == mangled(root_uses(library)[i].name, root_uses(library)[i].arguments),
        forall|kind: ItemKind, k: int|
            instance_kind(kind) && 0 <= k < library.monomorphized()->0.table_of(kind).len() ==> (
            #[trigger] library.monomorphized()->0.table_of(kind)[k]).item.generic_params.len()
                == 0,
{
    let u = root_uses(library)[i];
    let def = entities(library, u.name)[d];
    let instances = needed(library)->0;
    lemma_needed_sound(library);
    assert(served(library, instances, root_uses(library)[i]));
    lemma_instance_found(library, def, u.arguments);
    if library.indexed() {
        lemma_entities_path(library, u.name, d);
    }
    lemma_no_generics(library);
}

/// The same for a reference in an instance.
pub proof fn lemma_monomorphized_closed(library: LibrarySpec, j: int, t: int, d: int)
    requires
        library.monomorphized() is Some,
        0 <= j < needed(library)->0.len(),
        0 <= t < needed(library)->0[j].uses().len(),
        0 <= d < entities(
            library,
            needed(library)->0[j].uses()[t].name,
        ).len(),
        instantiable(
            entities(
                library,
                needed(library)->0[j].uses()[t].name,
            )[d],
            needed(library)->0[j].uses()[t].arguments,
        ),
        plain_under(
            library.table_of(
                entities(
                    library,
                    needed(library)->0[j].uses()[t].name,
                )[d].body.kind(),
            ),
            entities(
                library,
                needed(library)->0[j].uses()[t].name,
            )[d].instantiated(
                needed(library)->0[j].uses()[t].arguments,
            ).path,
        ),
    ensures
        has_key(
            library.monomorphized()->0.table_of(
                entities(
                    library,
                    needed(library)->0[j].uses()[t].name,
                )[d].body.kind(),
            ),
            entities(
                library,
                needed(library)->0[j].uses()[t].name,
            )[d].instantiated(
                needed(library)->0[j].uses()[t].arguments,
            ).path,
        ),
{
    let instances = needed(library)->0;
    let u = instances[j].uses()[t];
    let def = entities(library, u.name)[d];
    lemma_needed_sound(library);
    assert(served(library, instances, instances[j].uses()[t]));
    lemma_instance_found(library, def, u.arguments);
}

/// An instance that the search has made is in the table of its kind when the
/// generic entities are gone, unless a generic entity of the library has its path.
proof fn lemma_instance_found(library: LibrarySpec, def: ItemSpec, arguments: Seq<TypeSpec>)
    requires
        library.monomorphized() is Some,
        instantiable(def, arguments),
        needed(library)->0.contains(
            def.instantiated(arguments),
        ),
        plain_under(library.table_of(def.body.kind()), def.instantiated(arguments).path),
    ensures
        has_key(
            library.monomorphized()->0.table_of(def.body.kind()),
            def.instantiated(arguments).path,
        ),
{
    let instances = needed(library)->0;
    let x = def.instantiated(arguments);
    let kind = def.body.kind();
    assert(x.body.kind() == kind);
    lemma_needed_sound(library);
    lemma_placed_has_key(library, instances, x);
    lemma_placed_plain(library, instances, kind, x.path);
    lemma_concrete(library.placed_all(instances), kind, x.path);
}

/// Where the library comes out of monomorphization, no struct, union, opaque item
/// or alias is generic.
pub proof fn lemma_no_generics(library: LibrarySpec)
    requires
        library.monomorphized() is Some,
    ensures
        forall|kind: ItemKind, k: int|
            instance_kind(kind) && 0 <= k < library.monomorphized()->0.table_of(kind).len() ==> (
            #[trigger] library.monomorphized()->0.table_of(kind)[k]).item.generic_params.len()
                == 0,
{
    let instances = needed(library)->0;
    let placed = library.placed_all(instances);
    lemma_concrete(placed, ItemKind::Struct, Seq::empty());
    lemma_concrete(placed, ItemKind::Union, Seq::empty());
    lemma_concrete(placed, ItemKind::Opaque, Seq::empty());
    lemma_concrete(placed, ItemKind::Typedef, Seq::empty());
}

/// Where `slot_after` points: the names before it do not sort after `path`; in a
/// sorted list the names from it on do.
proof fn lemma_slot_after(functions: Seq<FunctionSpec>, path: Seq<char>)
    ensures
        0 <= slot_after(functions, path) <= functions.len(),
        forall|i: int|
            0 <= i < slot_after(functions, path) ==> name_le((#[trigger] functions[i]).path, path),
        ascending(function_paths(functions)) ==> forall|i: int|
            slot_after(functions, path) <= i < functions.len() ==> name_lt(
                path,
                (#[trigger] functions[i]).path,
            ),
    decreases functions.len(),
{
    let names = function_paths(functions);
    if functions.len() == 0 {
    } else if name_lt(path, functions[0].path) {
        if ascending(names) {
            assert forall|i: int| 0 <= i < functions.len() implies name_lt(
                path,
                (#[trigger] functions[i]).path,
            ) by {
                if i > 0 && !name_lt(path, functions[i].path) {
                    assert(name_le(names[0], names[i]));
                    if functions[i].path == path {
                    } else {
                        lemma_name_lt_total(functions[i].path, path);
                        lemma_name_lt_transitive(functions[i].path, path, functions[0].path);
                    }
                }
            }
        }
    } else {
        let rest = functions.skip(1);
        lemma_slot_after(rest, path);
        assert forall|i: int| 0 <= i < slot_after(functions, path) implies name_le(
            (#[trigger] functions[i]).path,
            path,
        ) by {
            if i > 0 {
                assert(rest[i - 1] == functions[i]);
            }
        }
        if ascending(names) {
            assert(ascending(function_paths(rest))) by {
                assert forall|i: int, j: int| 0 <= i < j < rest.len() implies name_le(
                    function_paths(rest)[i],
                    function_paths(rest)[j],
                ) by {
                    assert(name_le(names[i + 1], names[j + 1]));
                }
            }
            assert forall|i: int| slot_after(functions, path) <= i < functions.len() implies name_lt(
                path,
                (#[trigger] functions[i]).path,
            ) by {
                assert(rest[i - 1] == functions[i]);
            }
        }
    }
}

/// Sorting gives the same functions, with their names in order.
pub proof fn lemma_sorted_by_path(functions: Seq<FunctionSpec>)
    ensures
        ascending(function_paths(sorted_by_path(functions))),
        sorted_by_path(functions).len() == functions.len(),
        forall|i: int|
            0 <= i < functions.len() ==> sorted_by_path(functions).contains(
                #[trigger] functions[i],
            ),
        forall|j: int|
            0 <= j < functions.len() ==> functions.contains(
                #[trigger] sorted_by_path(functions)[j],
            ),
    decreases functions.len(),
{
    if functions.len() > 0 {
        let front = functions.drop_last();
        let f = functions.last();
        let sorted = sorted_by_path(front);
        lemma_sorted_by_path(front);
        lemma_slot_after(sorted, f.path);
        let pos = slot_after(sorted, f.path);
        let after = sorted.insert(pos, f);
        let names = function_paths(after);
        let old_names = function_paths(sorted);
        assert forall|i: int, j: int| 0 <= i < j < names.len() implies name_le(
            names[i],
            names[j],
        ) by {
            if j < pos {
                assert(after[i] == sorted[i] && after[j] == sorted[j]);
                assert(name_le(old_names[i], old_names[j]));
            } else if j == pos {
                assert(after[i] == sorted[i]);
            } else if i < pos {
                assert(after[i] == sorted[i] && after[j] == sorted[j - 1]);
                assert(name_le(old_names[i], old_names[j - 1]));
            } else if i == pos {
                assert(after[j] == sorted[j - 1]);
                lemma_name_lt_asymmetric(f.path, sorted[j - 1].path);
            } else {
                assert(after[i] == sorted[i - 1] && after[j] == sorted[j - 1]);
                assert(name_le(old_names[i - 1], old_names[j - 1]));
            }
        }
        assert forall|i: int| 0 <= i < functions.len() implies after.contains(
            #[trigger] functions[i],
        ) by {
            if i < front.len() {
                assert(front[i] == functions[i]);
                let k = choose|k: int| 0 <= k < sorted.len() && sorted[k] == front[i];
                if k < pos {
                    assert(after[k] == functions[i]);
                } else {
                    assert(after[k + 1] == functions[i]);
                }
            } else {
                assert(after[pos] == functions[i]);
            }
        }
        assert forall|j: int| 0 <= j < functions.len() implies functions.contains(
            #[trigger] after[j],
        ) by {
            if j == pos {
                assert(functions[functions.len() - 1] == after[j]);
            } else {
                let k = if j < pos {
                    j
                } else {
                    j - 1
                };
                assert(after[j] == sorted[k]);
                assert(front.contains(sorted[k]));
                let m = choose|m: int| 0 <= m < front.len() && front[m] == sorted[k];
                assert(functions[m] == after[j]);
            }
        }
    }
}

/// Placing entities changes the tables of structs, unions, opaque items and aliases only.
pub proof fn lemma_placed_rest(library: LibrarySpec, items: Seq<ItemSpec>)
    ensures
        library.placed_all(items).config == library.config,
        library.placed_all(items).constants == library.constants,
        library.placed_all(items).globals == library.globals,
        library.placed_all(items).enums == library.enums,
        library.placed_all(items).functions == library.functions,
        library.placed_all(items).conflicts == library.conflicts,
    decreases items.len(),
{
    if items.len() > 0 {
        lemma_placed_rest(library, items.drop_last());
    }
}

/// Placing entities leaves every table valid.
pub proof fn lemma_placed_valid(library: LibrarySpec, items: Seq<ItemSpec>, kind: ItemKind)
    requires
        valid(library.table_of(kind)),
    ensures
        valid(library.placed_all(items).table_of(kind)),
    decreases items.len(),
{
    if items.len() > 0 {
        lemma_placed_valid(library, items.drop_last(), kind);
        let before = library.placed_all(items.drop_last());
        lemma_inserted_valid(before.table_of(kind), items.last());
    }
}

/// After every stage but the last, every table is valid: its keys are in order, and
/// entities share a key only where all of them are conditional.
pub proof fn lemma_staged_valid(library: LibrarySpec, kind: ItemKind)
    requires
        library.staged() is Some,
    ensures
        valid(library.staged()->0.table_of(kind)),
{
    let start = library.excluded().ordered().transferred();
    let op = ItemOpSpec::Rename(start.config.rename);
    let renamed = start.renamed();
    lemma_lookup_after_rebuild(mapped(start.table_of(kind), op), Seq::empty());
    assert(valid(renamed.table_of(kind)));
    let simple = renamed.simplified();
    lemma_mapped_valid(renamed.table_of(kind), ItemOpSpec::Simplify);
    assert(valid(simple.table_of(kind)));
    if simple.config.language == Language::C {
        let instances = needed(simple)->0;
        let placed = simple.placed_all(instances);
        lemma_placed_valid(simple, instances, kind);
        let generic = FilterSpec::Generic;
        lemma_filtered_valid(placed.table_of(kind), generic);
        lemma_mapped_valid(filtered(placed.table_of(kind), generic), ItemOpSpec::Mangle);
        let concrete = placed.concrete();
        assert(valid(concrete.table_of(kind)));
        if !concrete.config.style.generate_typedef() {
            lemma_mapped_valid(concrete.table_of(kind), ItemOpSpec::Resolve(concrete.registry()));
        }
    }
}

/// After every stage but the last, an unconditional entity is the only one under its path.
pub proof fn lemma_staged_alone(library: LibrarySpec, kind: ItemKind, i: int, j: int)
    requires
        library.staged() is Some,
        0 <= i < library.staged()->0.table_of(kind).len(),
        0 <= j < library.staged()->0.table_of(kind).len(),
        library.staged()->0.table_of(kind)[i].key == library.staged()->0.table_of(kind)[j].key,
        library.staged()->0.table_of(kind)[i].item.cfg is None,
    ensures
        i == j,
{
    lemma_staged_valid(library, kind);
}

/// After every stage but the last, the constants and the globals are sorted by
/// path, each under its own path.
pub proof fn lemma_staged_sorted(library: LibrarySpec)
    requires
        library.staged() is Some,
    ensures
        sorted(library.staged()->0.constants),
        consistent(library.staged()->0.constants),
        sorted(library.staged()->0.globals),
        consistent(library.staged()->0.globals),
{
    let start = library.excluded().ordered().transferred();
    let op = ItemOpSpec::Rename(start.config.rename);
    let renamed = start.renamed();
    lemma_lookup_after_rebuild(mapped(start.constants, op), Seq::empty());
    lemma_lookup_after_rebuild(mapped(start.globals, op), Seq::empty());
    let simple = renamed.simplified();
    lemma_mapped_consistent(renamed.globals, ItemOpSpec::Simplify);
    assert(sorted(simple.globals)) by {
        assert forall|i: int, j: int| 0 <= i < j < simple.globals.len() implies name_le(
            simple.globals[i].key,
            simple.globals[j].key,
        ) by {
            assert(name_le(renamed.globals[i].key, renamed.globals[j].key));
        }
    }
    if simple.config.language == Language::C {
        let concrete = simple.monomorphized()->0;
        lemma_placed_rest(simple, needed(simple)->0);
        assert(concrete.globals == simple.globals);
        assert(concrete.constants == simple.constants);
        if !concrete.config.style.generate_typedef() {
            let resolve = ItemOpSpec::Resolve(concrete.registry());
            lemma_mapped_consistent(concrete.globals, resolve);
            let last = concrete.resolved();
            assert forall|i: int, j: int| 0 <= i < j < last.globals.len() implies name_le(
                last.globals[i].key,
                last.globals[j].key,
            ) by {
                assert(name_le(concrete.globals[i].key, concrete.globals[j].key));
            }
        }
    }
}

/// Delivering claims changes tables and conflicts only.
pub proof fn lemma_delivered_rest(library: LibrarySpec, claims: Seq<ClaimSpec>)
    ensures
        library.delivered_all(claims).config == library.config,
        library.delivered_all(claims).functions == library.functions,
        library.delivered_all(claims).constants == library.constants,
        library.delivered_all(claims).globals == library.globals,
    decreases claims.len(),
{
    if claims.len() > 0 {
        lemma_delivered_rest(library, claims.drop_last());
    }
}

/// The stages leave the configuration as it is.
pub proof fn lemma_staged_config(library: LibrarySpec)
    ensures
        library.prepared().config == library.config,
        library.staged() is Some ==> library.staged()->0.config == library.config,
{
    let sorted = library.excluded().ordered();
    lemma_delivered_rest(
        LibrarySpec { typedefs: released(sorted.typedefs), ..sorted },
        claimed(items_of(sorted.typedefs)),
    );
    let simple = sorted.transferred().renamed().simplified();
    if simple.config.language == Language::C && library.staged() is Some {
        lemma_placed_rest(simple, needed(simple)->0);
    }
}

/// For a target without generics, the final form holds no generics: no struct,
/// union, opaque item or alias declares generic parameters, and no path in the types
/// of a struct, a union or an alias, or in the signature of a function, binds
/// generic arguments.
pub proof fn lemma_staged_concrete(library: LibrarySpec)
    requires
        library.staged() is Some,
        library.config.language == Language::C,
    ensures
        forall|kind: ItemKind, k: int|
            instance_kind(kind) && 0 <= k < library.staged()->0.table_of(kind).len() ==> (
            #[trigger] library.staged()->0.table_of(kind)[k]).item.generic_params.len() == 0,
        forall|kind: ItemKind, k: int|
            (kind is Struct || kind is Union || kind is Typedef) && 0 <= k < library.staged()->0.table_of(
                kind,
            ).len() ==> (#[trigger] library.staged()->0.table_of(kind)[k]).item.binds_nothing(),
        forall|k: int|
            0 <= k < library.staged()->0.functions.len() ==> (
            #[trigger] library.staged()->0.functions[k]).binds_nothing(),
{
    let simple = library.excluded().ordered().transferred().renamed().simplified();
    lemma_staged_config(library);
    let instances = needed(simple)->0;
    let placed = simple.placed_all(instances);
    lemma_placed_rest(simple, instances);
    let concrete = placed.concrete();
    let last = concrete.resolved();
    let registry = concrete.registry();
    let generic = FilterSpec::Generic;
    lemma_no_generics(simple);
    assert forall|kind: ItemKind, k: int|
        (kind is Struct || kind is Union || kind is Typedef) && 0 <= k < concrete.table_of(
            kind,
        ).len() implies (#[trigger] concrete.table_of(kind)[k]).item.binds_nothing() by {
        lemma_item_binds_nothing(filtered(placed.table_of(kind), generic)[k].item, registry);
    }
    assert forall|k: int| 0 <= k < concrete.functions.len() implies (
    #[trigger] concrete.functions[k]).binds_nothing() by {
        lemma_function_binds_nothing(placed.functions[k], registry);
    }
    if !concrete.config.style.generate_typedef() {
        assert forall|kind: ItemKind, k: int|
            (kind is Struct || kind is Union || kind is Typedef) && 0 <= k < last.table_of(
                kind,
            ).len() implies (#[trigger] last.table_of(kind)[k]).item.binds_nothing() by {
            assert(concrete.table_of(kind)[k].item.binds_nothing());
            lemma_item_binds_nothing(concrete.table_of(kind)[k].item, registry);
        }
        assert forall|k: int| 0 <= k < last.functions.len() implies (
        #[trigger] last.functions[k]).binds_nothing() by {
            assert(concrete.functions[k].binds_nothing());
            lemma_function_binds_nothing(concrete.functions[k], registry);
        }
        assert forall|kind: ItemKind, k: int|
            instance_kind(kind) && 0 <= k < last.table_of(kind).len() implies (
            #[trigger] last.table_of(kind)[k]).item.generic_params.len() == 0 by {
            assert(concrete.table_of(kind)[k].item.generic_params.len() == 0);
        }
    }
}

/// In a library whose tables hold entities of their own kind, what a path names are
/// the entities under it in the table of the first kind, of enum, struct, union,
/// opaque item and alias, that holds the path, and they are of that kind.
pub proof fn lemma_find_kind(library: LibrarySpec, path: Seq<char>, j: int)
    requires
        library.typed(),
        0 <= j < entities(library, path).len(),
    ensures
        library.find(path) == lookup(library.table_of(library.first_kind(path)), path),
        has_key(library.table_of(library.first_kind(path)), path),
        entities(library, path)[j].body.kind() == library.first_kind(path),
{
    let kind = library.first_kind(path);
    let table = library.table_of(kind);
    assert(library.find(path) == lookup(table, path));
    assert(entities(library, path) == matching(table, path));
    lemma_matching(table, path);
    let e = matching(table, path)[j];
    assert(kept_under(table, path, e));
    let i = choose|i: int|
        0 <= i < table.len() && (#[trigger] table[i]).key == path && table[i].item == e;
    assert(table[i].item.body.kind() == kind);
}

/// Delivering claims leaves the kind of the entities of every table.
pub proof fn lemma_delivered_typed(library: LibrarySpec, claims: Seq<ClaimSpec>)
    requires
        library.typed(),
    ensures
        library.delivered_all(claims).typed(),
    decreases claims.len(),
{
    if claims.len() > 0 {
        lemma_delivered_typed(library, claims.drop_last());
        let before = library.delivered_all(claims.drop_last());
        let claim = claims.last();
        let key = claim.target;
        lemma_same_bodies_of_kind(
            before.enums,
            installed(before.enums, key, claim.annotations),
            ItemKind::Enum,
        );
        lemma_same_bodies_of_kind(
            before.structs,
            installed(before.structs, key, claim.annotations),
            ItemKind::Struct,
        );
        lemma_same_bodies_of_kind(
            before.unions,
            installed(before.unions, key, claim.annotations),
            ItemKind::Union,
        );
        lemma_same_bodies_of_kind(
            before.opaque_items,
            installed(before.opaque_items, key, claim.annotations),
            ItemKind::Opaque,
        );
        lemma_same_bodies_of_kind(
            before.typedefs,
            installed(before.typedefs, key, claim.annotations),
            ItemKind::Typedef,
        );
    }
}

/// Placing concrete instances leaves the kind of the entities of every table.
pub proof fn lemma_placed_typed(library: LibrarySpec, items: Seq<ItemSpec>)
    requires
        library.typed(),
    ensures
        library.placed_all(items).typed(),
    decreases items.len(),
{
    if items.len() > 0 {
        lemma_placed_typed(library, items.drop_last());
        let before = library.placed_all(items.drop_last());
        let item = items.last();
        let kind = item.body.kind();
        if instance_kind(kind) {
            lemma_inserted_of_kind(before.table_of(kind), item, kind);
        }
    }
}

/// Every stage keeps the entities of every table of their own kind.
pub proof fn lemma_staged_typed(library: LibrarySpec)
    requires
        library.typed(),
        library.staged() is Some,
    ensures
        library.staged()->0.typed(),
{
    let named = FilterSpec::Named(library.config.exclude);
    lemma_filtered_of_kind(library.constants, named, ItemKind::Constant);
    lemma_filtered_of_kind(library.globals, named, ItemKind::Static);
    lemma_filtered_of_kind(library.enums, named, ItemKind::Enum);
    lemma_filtered_of_kind(library.structs, named, ItemKind::Struct);
    lemma_filtered_of_kind(library.unions, named, ItemKind::Union);
    lemma_filtered_of_kind(library.opaque_items, named, ItemKind::Opaque);
    lemma_filtered_of_kind(library.typedefs, named, ItemKind::Typedef);
    let sorted = library.excluded().ordered();
    assert(sorted.typed());
    let given = LibrarySpec { typedefs: released(sorted.typedefs), ..sorted };
    lemma_same_bodies_of_kind(sorted.typedefs, released(sorted.typedefs), ItemKind::Typedef);
    lemma_delivered_typed(given, claimed(items_of(sorted.typedefs)));
    let start = sorted.transferred();
    assert(start.typed());
    let op = ItemOpSpec::Rename(start.config.rename);
    lemma_mapped_of_kind(start.constants, op, ItemKind::Constant);
    lemma_mapped_of_kind(start.globals, op, ItemKind::Static);
    lemma_mapped_of_kind(start.enums, op, ItemKind::Enum);
    lemma_mapped_of_kind(start.structs, op, ItemKind::Struct);
    lemma_mapped_of_kind(start.unions, op, ItemKind::Union);
    lemma_mapped_of_kind(start.opaque_items, op, ItemKind::Opaque);
    lemma_mapped_of_kind(start.typedefs, op, ItemKind::Typedef);
    lemma_rebuilt_of_kind(mapped(start.constants, op), ItemKind::Constant);
    lemma_rebuilt_of_kind(mapped(start.globals, op), ItemKind::Static);
    lemma_rebuilt_of_kind(mapped(start.enums, op), ItemKind::Enum);
    lemma_rebuilt_of_kind(mapped(start.structs, op), ItemKind::Struct);
    lemma_rebuilt_of_kind(mapped(start.unions, op), ItemKind::Union);
    lemma_rebuilt_of_kind(mapped(start.opaque_items, op), ItemKind::Opaque);
    lemma_rebuilt_of_kind(mapped(start.typedefs, op), ItemKind::Typedef);
    let renamed = start.renamed();
    assert(renamed.typed());
    let simplify = ItemOpSpec::Simplify;
    lemma_mapped_of_kind(renamed.globals, simplify, ItemKind::Static);
    lemma_mapped_of_kind(renamed.structs, simplify, ItemKind::Struct);
    lemma_mapped_of_kind(renamed.unions, simplify, ItemKind::Union);
    lemma_mapped_of_kind(renamed.typedefs, simplify, ItemKind::Typedef);
    let simple = renamed.simplified();
    assert(simple.typed());
    if simple.config.language == Language::C {
        let instances = needed(simple)->0;
        lemma_placed_typed(simple, instances);
        let placed = simple.placed_all(instances);
        let generic = FilterSpec::Generic;
        let mangle = ItemOpSpec::Mangle;
        lemma_filtered_of_kind(placed.opaque_items, generic, ItemKind::Opaque);
        lemma_filtered_of_kind(placed.structs, generic, ItemKind::Struct);
        lemma_filtered_of_kind(placed.unions, generic, ItemKind::Union);
        lemma_filtered_of_kind(placed.typedefs, generic, ItemKind::Typedef);
        lemma_mapped_of_kind(filtered(placed.structs, generic), mangle, ItemKind::Struct);
        lemma_mapped_of_kind(filtered(placed.unions, generic), mangle, ItemKind::Union);
        lemma_mapped_of_kind(filtered(placed.typedefs, generic), mangle, ItemKind::Typedef);
        let concrete = placed.concrete();
        assert(concrete.typed());
        if !concrete.config.style.generate_typedef() {
            let resolve = ItemOpSpec::Resolve(concrete.registry());
            lemma_mapped_of_kind(concrete.enums, resolve, ItemKind::Enum);
            lemma_mapped_of_kind(concrete.structs, resolve, ItemKind::Struct);
            lemma_mapped_of_kind(concrete.unions, resolve, ItemKind::Union);
            lemma_mapped_of_kind(concrete.typedefs, resolve, ItemKind::Typedef);
            lemma_mapped_of_kind(concrete.globals, resolve, ItemKind::Static);
        }
    }
}

/// The final form is closed: a path that a function of the bundle or an entity of
/// its list names, and that names an entity of the library, is the path of an entity
/// of the list.
pub proof fn lemma_bundle_closed(library: LibrarySpec, bindings: BindingsSpec)
    requires
        library.staged() is Some,
        library.staged()->0.bundled(bindings),
    ensures
        forall|k: int, t: int|
            0 <= k < bindings.functions.len() && 0 <= t < bindings.functions[k].uses().len()
                && found(library.staged()->0, (#[trigger] bindings.functions[k].uses()[t]).name)
                ==> listed(bindings.items, bindings.functions[k].uses()[t].name),
        forall|a: int, t: int|
            0 <= a < bindings.items.len() && 0 <= t < item_targets(bindings.items[a]).len()
                && found(
                library.staged()->0,
                (#[trigger] item_targets(bindings.items[a])[t]).name,
            ) ==> listed(bindings.items, item_targets(bindings.items[a])[t].name),
{
    let staged = library.staged()->0;
    lemma_staged_indexed(library);
    let paths = choose|paths: Seq<Seq<char>>|
        dependency_order(staged, staged.roots(), paths, bindings.items);
    let roots = staged.roots();
    lemma_order_closed(staged, roots, paths, bindings.items);
    assert forall|k: int, t: int|
        0 <= k < bindings.functions.len() && 0 <= t < bindings.functions[k].uses().len() && found(
            staged,
            (#[trigger] bindings.functions[k].uses()[t]).name,
        ) implies listed(bindings.items, bindings.functions[k].uses()[t].name) by {
        let at = lemma_function_uses_member(staged.functions, k, t);
        let names = use_names(function_uses(staged.functions));
        assert(names[at] == bindings.functions[k].uses()[t].name);
        assert(roots[at] == names[at]);
    }
}

/// For a target without generics, the instance that a reference of the prepared
/// library asks for is under its mangled path in the final tables, and the path
/// names it, unless a generic entity of the library has that very path.
pub proof fn lemma_staged_holds_instance(library: LibrarySpec, i: int, d: int)
    requires
        library.staged() is Some,
        library.config.language == Language::C,
        0 <= i < root_uses(library.prepared()).len(),
        0 <= d < entities(library.prepared(), root_uses(library.prepared())[i].name).len(),
        instantiable(
            entities(library.prepared(), root_uses(library.prepared())[i].name)[d],
            root_uses(library.prepared())[i].arguments,
        ),
        plain_under(
            library.prepared().table_of(
                entities(library.prepared(), root_uses(library.prepared())[i].name)[d].body.kind(),
            ),
            mangled(
                root_uses(library.prepared())[i].name,
                root_uses(library.prepared())[i].arguments,
            ),
        ),
    ensures
        has_key(
            library.staged()->0.table_of(
                entities(library.prepared(), root_uses(library.prepared())[i].name)[d].body.kind(),
            ),
            mangled(
                root_uses(library.prepared())[i].name,
                root_uses(library.prepared())[i].arguments,
            ),
        ),
        found(
            library.staged()->0,
            mangled(
                root_uses(library.prepared())[i].name,
                root_uses(library.prepared())[i].arguments,
            ),
        ),
{
    let simple = library.prepared();
    lemma_staged_config(library);
    let u = root_uses(simple)[i];
    let def = entities(simple, u.name)[d];
    let kind = def.body.kind();
    let path = mangled(u.name, u.arguments);
    assert(simple.indexed()) by {
        let start = library.excluded().ordered().transferred();
        let op = ItemOpSpec::Rename(start.config.rename);
        lemma_lookup_after_rebuild(mapped(start.enums, op), Seq::empty());
        lemma_lookup_after_rebuild(mapped(start.structs, op), Seq::empty());
        lemma_lookup_after_rebuild(mapped(start.unions, op), Seq::empty());
        lemma_lookup_after_rebuild(mapped(start.opaque_items, op), Seq::empty());
        lemma_lookup_after_rebuild(mapped(start.typedefs, op), Seq::empty());
        let renamed = start.renamed();
        lemma_mapped_consistent(renamed.structs, ItemOpSpec::Simplify);
        lemma_mapped_consistent(renamed.unions, ItemOpSpec::Simplify);
        lemma_mapped_consistent(renamed.typedefs, ItemOpSpec::Simplify);
    }
    lemma_entities_path(simple, u.name, d);
    assert(def.instantiated(u.arguments).path == path);
    lemma_monomorphized_sound(simple, i, d);
    let concrete = simple.monomorphized()->0;
    let staged = library.staged()->0;
    assert(has_key(concrete.table_of(kind), path));
    if !concrete.config.style.generate_typedef() {
        lemma_lookup_before_rebuild(
            concrete.table_of(kind),
            ItemOpSpec::Resolve(concrete.registry()),
            path,
        );
    }
    assert(has_key(staged.table_of(kind), path));
}

/// For a target without generics: where a function of the bundle names the mangled
/// path of an instance that a reference of the prepared library asks for, an entity
/// of the list has that path.
pub proof fn lemma_bundle_holds_instance(
    library: LibrarySpec,
    bindings: BindingsSpec,
    i: int,
    d: int,
    k: int,
    t: int,
)
    requires
        library.staged() is Some,
        library.staged()->0.bundled(bindings),
        library.config.language == Language::C,
        0 <= i < root_uses(library.prepared()).len(),
        0 <= d < entities(library.prepared(), root_uses(library.prepared())[i].name).len(),
        instantiable(
            entities(library.prepared(), root_uses(library.prepared())[i].name)[d],
            root_uses(library.prepared())[i].arguments,
        ),
        plain_under(
            library.prepared().table_of(
                entities(library.prepared(), root_uses(library.prepared())[i].name)[d].body.kind(),
            ),
            mangled(
                root_uses(library.prepared())[i].name,
                root_uses(library.prepared())[i].arguments,
            ),
        ),
        0 <= k < bindings.functions.len(),
        0 <= t < bindings.functions[k].uses().len(),
        bindings.functions[k].uses()[t].name == mangled(
            root_uses(library.prepared())[i].name,
            root_uses(library.prepared())[i].arguments,
        ),
    ensures
        listed(
            bindings.items,
            mangled(
                root_uses(library.prepared())[i].name,
                root_uses(library.prepared())[i].arguments,
            ),
        ),
{
    lemma_staged_holds_instance(library, i, d);
    lemma_bundle_closed(library, bindings);
}

/// For a target without generics, the references of the functions of the bundle are
/// those of the prepared library after mangling: each names what a reference of the
/// same function named before, or, where that one bound arguments, its mangled path.
pub proof fn lemma_bundle_function_reference(
    library: LibrarySpec,
    bindings: BindingsSpec,
    k: int,
    t: int,
) -> (j: int)
    requires
        library.staged() is Some,
        library.staged()->0.bundled(bindings),
        library.config.language == Language::C,
        0 <= k < bindings.functions.len(),
        0 <= t < bindings.functions[k].uses().len(),
    ensures
        k < library.prepared().functions.len(),
        0 <= j < library.prepared().functions[k].uses().len(),
        bindings.functions[k].uses()[t].name == mangled_use(
            library.prepared().functions[k].uses()[j],
        ).name,
        bindings.functions[k].uses()[t].by_value
            == library.prepared().functions[k].uses()[j].by_value,
{
    let simple = library.prepared();
    lemma_staged_config(library);
    let instances = needed(simple)->0;
    let placed = simple.placed_all(instances);
    lemma_placed_rest(simple, instances);
    let concrete = placed.concrete();
    let registry = concrete.registry();
    let before = simple.functions[k];
    let mangled_function = before.applied(ItemOpSpec::Mangle);
    assert(concrete.functions[k] == mangled_function);
    lemma_function_uses(before, registry);
    lemma_function_uses(mangled_function, registry);
    let w = if concrete.config.style.generate_typedef() {
        bindings.functions[k].uses()[t]
    } else {
        assert(bindings.functions[k] == mangled_function.applied(ItemOpSpec::Resolve(registry)));
        mangled_function.uses()[t]
    };
    assert(w == mangled_function.uses()[t]);
    assert(from_uses(before.uses(), mangled_function.uses()[t]));
    let j = choose|j: int|
        0 <= j < before.uses().len() && w == mangled_use(#[trigger] before.uses()[j]);
    j
}

/// For a target without generics: a reference of a function of the bundle that comes
/// from a reference that bound arguments to an entity that can be instantiated with
/// them names an entity of the list, unless a generic entity of the library has the
/// mangled path.
pub proof fn lemma_bundle_reference_listed(
    library: LibrarySpec,
    bindings: BindingsSpec,
    k: int,
    t: int,
    j: int,
    d: int,
)
    requires
        library.staged() is Some,
        library.staged()->0.bundled(bindings),
        library.config.language == Language::C,
        0 <= k < bindings.functions.len(),
        0 <= t < bindings.functions[k].uses().len(),
        k < library.prepared().functions.len(),
        0 <= j < library.prepared().functions[k].uses().len(),
        library.prepared().functions[k].uses()[j].arguments.len() > 0,
        bindings.functions[k].uses()[t].name == mangled_use(
            library.prepared().functions[k].uses()[j],
        ).name,
        0 <= d < entities(
            library.prepared(),
            library.prepared().functions[k].uses()[j].name,
        ).len(),
        instantiable(
            entities(library.prepared(), library.prepared().functions[k].uses()[j].name)[d],
            library.prepared().functions[k].uses()[j].arguments,
        ),
        plain_under(
            library.prepared().table_of(
                entities(
                    library.prepared(),
                    library.prepared().functions[k].uses()[j].name,
                )[d].body.kind(),
            ),
            bindings.functions[k].uses()[t].name,
        ),
    ensures
        listed(bindings.items, bindings.functions[k].uses()[t].name),
{
    let simple = library.prepared();
    let at = lemma_function_uses_member(simple.functions, k, j);
    let a = plain_uses(items_of(simple.structs));
    let b = plain_uses(items_of(simple.unions));
    let c = plain_uses(items_of(simple.typedefs));
    let i = a.len() + b.len() + c.len() + at;
    assert(root_uses(simple)[i] == simple.functions[k].uses()[j]);
    lemma_bundle_holds_instance(library, bindings, i, d, k, t);
}

/// Every entity of the final list stands there once: two entities of the list have
/// one path only where both are conditional. However the entities refer to each other,
/// through pointers or by value, the search comes to each path once.
pub proof fn lemma_bundle_once(library: LibrarySpec, bindings: BindingsSpec, a: int, b: int)
    requires
        library.staged() is Some,
        library.staged()->0.bundled(bindings),
        0 <= a < bindings.items.len(),
        0 <= b < bindings.items.len(),
        a != b,
        bindings.items[a].path == bindings.items[b].path,
    ensures
        bindings.items[a].cfg is Some,
        bindings.items[b].cfg is Some,
{
    let staged = library.staged()->0;
    lemma_staged_indexed(library);
    let paths = choose|paths: Seq<Seq<char>>|
        dependency_order(staged, staged.roots(), paths, bindings.items);
    let ka = lemma_flatten_blocks(staged, paths, a);
    let kb = lemma_flatten_blocks(staged, paths, b);
    let ja = a - flatten(staged, paths.take(ka)).len();
    let jb = b - flatten(staged, paths.take(kb)).len();
    lemma_entities_path(staged, paths[ka], ja);
    lemma_entities_path(staged, paths[kb], jb);
    assert(paths[ka] == paths[kb]);
    assert(ka == kb);
    let path = paths[ka];
    let kind = staged.first_kind(path);
    let table = staged.table_of(kind);
    lemma_staged_valid(library, kind);
    assert(entities(staged, path) == matching(table, path));
    lemma_matching_conditional(table, path, ja, jb);
}

/// When the stages succeed: for a target with generics always, and for a target
/// without them wherever the search for the instances of the prepared library ends
/// within some number of pairs that the machine can count.
pub proof fn lemma_staged_succeeds(library: LibrarySpec, fuel: nat)
    requires
        library.config.language == Language::C ==> fuel <= machine_limit() && run(
            library.prepared(),
            MonoSpec { instances: Seq::empty(), seen: Seq::empty() },
            requests(root_uses(library.prepared())),
            fuel,
        ) is Some,
    ensures
        library.staged() is Some,
        library.staged()->0.config == library.config,
{
    lemma_staged_config(library);
    if library.config.language == Language::C {
        lemma_run_more_fuel(
            library.prepared(),
            MonoSpec { instances: Seq::empty(), seen: Seq::empty() },
            requests(root_uses(library.prepared())),
            fuel,
            machine_limit(),
        );
    }
}

} // verus!
