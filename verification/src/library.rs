//! The library: every symbol table of a run, and the stages that bring it into its final form.
//!
//! The stages run once each, in this order: drop what is excluded, sort the functions,
//! hand the annotations of aliases on, rename, make optional pointers nullable; for a
//! target without generics, instantiate the generic entities and give every reference
//! to an aggregate its keyword; then put the entities in dependency order.

use vstd::prelude::*;
use crate::bindings::{Bindings, BindingsSpec};
use crate::config::{Config, ConfigSpec, Language};
use crate::dependencies::{build, dependency_order, targets_all, targets_of};
use crate::error::Error;
use crate::item::{views, Function, FunctionSpec, Item, ItemKind, ItemOp, ItemOpSpec, ItemSpec};
use crate::item_map::{
    annotated, claimed, consistent, filtered, has_key, inserted, installed, items_of,
    lemma_filtered, lemma_has_key, lookup, mapped, of_kind, rebuilt, released, Claim, ClaimSpec,
    Filter, FilterSpec, ItemMap, SlotSpec,
};
use crate::laws::{lemma_kept_functions, lemma_staged_config};
use crate::monomorph::{
    collect, function_uses, machine_limit, needed, push_function_uses, requests, root_uses,
    root_uses_of, run, MonoSpec,
};
use crate::names::{contains_name, copy_names, name_before, name_lt, name_views, Path};
use crate::resolver::CTypeResolver;
use crate::ty::{use_views, PathUse, PathUseSpec, Tag};

verus! {

/// All declarations of a run: one symbol table for each kind of entity, and the functions.
#[derive(Debug)]
pub struct Library {
    config: Config,
    constants: ItemMap,
    globals: ItemMap,
    enums: ItemMap,
    structs: ItemMap,
    unions: ItemMap,
    opaque_items: ItemMap,
    typedefs: ItemMap,
    functions: Vec<Function>,
    conflicts: Vec<String>,
}

/// The mathematical model of `Library`.
pub struct LibrarySpec {
    pub config: ConfigSpec,
    pub constants: Seq<SlotSpec>,
    pub globals: Seq<SlotSpec>,
    pub enums: Seq<SlotSpec>,
    pub structs: Seq<SlotSpec>,
    pub unions: Seq<SlotSpec>,
    pub opaque_items: Seq<SlotSpec>,
    pub typedefs: Seq<SlotSpec>,
    pub functions: Seq<FunctionSpec>,
    /// The paths of the entities that kept their own annotations when an alias
    /// had annotations to hand on to them.
    pub conflicts: Seq<Seq<char>>,
}

impl View for Library {
    type V = LibrarySpec;

    closed spec fn view(&self) -> LibrarySpec {
        LibrarySpec {
            config: self.config@,
            constants: self.constants@,
            globals: self.globals@,
            enums: self.enums@,
            structs: self.structs@,
            unions: self.unions@,
            opaque_items: self.opaque_items@,
            typedefs: self.typedefs@,
            functions: views(self.functions@),
            conflicts: name_views(self.conflicts@),
        }
    }
}

/// The keys of a table, in order.
pub open spec fn keys_of(table: Seq<SlotSpec>) -> Seq<Seq<char>> {
    Seq::new(table.len(), |i: int| table[i].key)
}

/// The functions whose name is none of `names`.
pub open spec fn kept_functions(functions: Seq<FunctionSpec>, names: Seq<Seq<char>>) -> Seq<
    FunctionSpec,
>
    decreases functions.len(),
{
    if functions.len() == 0 {
        Seq::empty()
    } else if names.contains(functions.last().path) {
        kept_functions(functions.drop_last(), names)
    } else {
        kept_functions(functions.drop_last(), names).push(functions.last())
    }
}

/// How many functions at the start of `functions` have a name that does not sort after `path`.
pub open spec fn slot_after(functions: Seq<FunctionSpec>, path: Seq<char>) -> int
    decreases functions.len(),
{
    if functions.len() == 0 || name_lt(path, functions[0].path) {
        0
    } else {
        1 + slot_after(functions.skip(1), path)
    }
}

/// The functions sorted by name; functions of one name stay in their order.
pub open spec fn sorted_by_path(functions: Seq<FunctionSpec>) -> Seq<FunctionSpec>
    decreases functions.len(),
{
    if functions.len() == 0 {
        Seq::empty()
    } else {
        let sorted = sorted_by_path(functions.drop_last());
        sorted.insert(slot_after(sorted, functions.last().path), functions.last())
    }
}

/// The names of `functions`, in order.
pub open spec fn function_paths(functions: Seq<FunctionSpec>) -> Seq<Seq<char>> {
    Seq::new(functions.len(), |i: int| functions[i].path)
}

/// Each of `functions` after the rewrite `op`.
pub open spec fn applied_functions(functions: Seq<FunctionSpec>, op: ItemOpSpec) -> Seq<
    FunctionSpec,
> {
    Seq::new(functions.len(), |i: int| functions[i].applied(op))
}

/// The conflicts, with `key` added where the installation was refused.
pub open spec fn noted(conflicts: Seq<Seq<char>>, refused: bool, key: Seq<char>) -> Seq<Seq<char>> {
    if refused {
        conflicts.push(key)
    } else {
        conflicts
    }
}

/// The paths of the entities of a table, each with `tag`.
pub open spec fn tagged(table: Seq<SlotSpec>, tag: Tag) -> Seq<(Seq<char>, Tag)> {
    Seq::new(table.len(), |i: int| (table[i].item.path, tag))
}

/// The names of `uses`, in order.
pub open spec fn use_names(uses: Seq<PathUseSpec>) -> Seq<Seq<char>> {
    Seq::new(uses.len(), |i: int| uses[i].name)
}

impl LibrarySpec {
    /// The entities that `path` names: those of the first kind, of enum, struct, union,
    /// opaque item and alias, whose table holds the path.
    pub open spec fn find(self, path: Seq<char>) -> Option<Seq<ItemSpec>> {
        if has_key(self.enums, path) {
            lookup(self.enums, path)
        } else if has_key(self.structs, path) {
            lookup(self.structs, path)
        } else if has_key(self.unions, path) {
            lookup(self.unions, path)
        } else if has_key(self.opaque_items, path) {
            lookup(self.opaque_items, path)
        } else {
            lookup(self.typedefs, path)
        }
    }

    /// The keys of the tables of the five kinds that a path can name.
    pub open spec fn key_list(self) -> Seq<Seq<char>> {
        keys_of(self.enums) + keys_of(self.structs) + keys_of(self.unions) + keys_of(
            self.opaque_items,
        ) + keys_of(self.typedefs)
    }

    /// Every entity that a path can name is kept under its own path.
    pub open spec fn indexed(self) -> bool {
        &&& consistent(self.enums)
        &&& consistent(self.structs)
        &&& consistent(self.unions)
        &&& consistent(self.opaque_items)
        &&& consistent(self.typedefs)
    }

    /// Every table holds entities of its own kind only.
    pub open spec fn typed(self) -> bool {
        &&& of_kind(self.constants, ItemKind::Constant)
        &&& of_kind(self.globals, ItemKind::Static)
        &&& of_kind(self.enums, ItemKind::Enum)
        &&& of_kind(self.structs, ItemKind::Struct)
        &&& of_kind(self.unions, ItemKind::Union)
        &&& of_kind(self.opaque_items, ItemKind::Opaque)
        &&& of_kind(self.typedefs, ItemKind::Typedef)
    }

    /// The first kind, of enum, struct, union, opaque item and alias, whose table
    /// holds `path`; the last of them where none does.
    pub open spec fn first_kind(self, path: Seq<char>) -> ItemKind {
        if has_key(self.enums, path) {
            ItemKind::Enum
        } else if has_key(self.structs, path) {
            ItemKind::Struct
        } else if has_key(self.unions, path) {
            ItemKind::Union
        } else if has_key(self.opaque_items, path) {
            ItemKind::Opaque
        } else {
            ItemKind::Typedef
        }
    }

    /// The table for entities of `kind`.
    pub open spec fn table_of(self, kind: ItemKind) -> Seq<SlotSpec> {
        match kind {
            ItemKind::Constant => self.constants,
            ItemKind::Static => self.globals,
            ItemKind::Enum => self.enums,
            ItemKind::Struct => self.structs,
            ItemKind::Union => self.unions,
            ItemKind::Opaque => self.opaque_items,
            ItemKind::Typedef => self.typedefs,
        }
    }

    /// The library without the entities and functions whose name is excluded.
    pub open spec fn excluded(self) -> LibrarySpec {
        let filter = FilterSpec::Named(self.config.exclude);
        LibrarySpec {
            constants: filtered(self.constants, filter),
            globals: filtered(self.globals, filter),
            enums: filtered(self.enums, filter),
            structs: filtered(self.structs, filter),
            unions: filtered(self.unions, filter),
            opaque_items: filtered(self.opaque_items, filter),
            typedefs: filtered(self.typedefs, filter),
            functions: kept_functions(self.functions, self.config.exclude),
            ..self
        }
    }

    /// The library with its functions sorted by name.
    pub open spec fn ordered(self) -> LibrarySpec {
        LibrarySpec { functions: sorted_by_path(self.functions), ..self }
    }

    /// The library after one claim was delivered: the annotations go to the entities
    /// under the target in the first table, of enums, structs, unions, opaque items and
    /// aliases, that holds it; those that have annotations of their own keep them.
    pub open spec fn delivered(self, claim: ClaimSpec) -> LibrarySpec {
        let key = claim.target;
        if has_key(self.enums, key) {
            LibrarySpec {
                enums: installed(self.enums, key, claim.annotations),
                conflicts: noted(self.conflicts, annotated(self.enums, key), key),
                ..self
            }
        } else if has_key(self.structs, key) {
            LibrarySpec {
                structs: installed(self.structs, key, claim.annotations),
                conflicts: noted(self.conflicts, annotated(self.structs, key), key),
                ..self
            }
        } else if has_key(self.unions, key) {
            LibrarySpec {
                unions: installed(self.unions, key, claim.annotations),
                conflicts: noted(self.conflicts, annotated(self.unions, key), key),
                ..self
            }
        } else if has_key(self.opaque_items, key) {
            LibrarySpec {
                opaque_items: installed(self.opaque_items, key, claim.annotations),
                conflicts: noted(self.conflicts, annotated(self.opaque_items, key), key),
                ..self
            }
        } else {
            LibrarySpec {
                typedefs: installed(self.typedefs, key, claim.annotations),
                conflicts: noted(self.conflicts, annotated(self.typedefs, key), key),
                ..self
            }
        }
    }

    /// The library after `claims` were delivered, one after the other.
    pub open spec fn delivered_all(self, claims: Seq<ClaimSpec>) -> LibrarySpec
        decreases claims.len(),
    {
        if claims.len() == 0 {
            self
        } else {
            self.delivered_all(claims.drop_last()).delivered(claims.last())
        }
    }

    /// The library after every alias with annotations has handed them on to the
    /// entity that it names.
    pub open spec fn transferred(self) -> LibrarySpec {
        (LibrarySpec { typedefs: released(self.typedefs), ..self }).delivered_all(
            claimed(items_of(self.typedefs)),
        )
    }

    /// The library with every entity under its exposed name, and every table indexed anew.
    pub open spec fn renamed(self) -> LibrarySpec {
        let op = ItemOpSpec::Rename(self.config.rename);
        LibrarySpec {
            constants: rebuilt(mapped(self.constants, op)),
            globals: rebuilt(mapped(self.globals, op)),
            enums: rebuilt(mapped(self.enums, op)),
            structs: rebuilt(mapped(self.structs, op)),
            unions: rebuilt(mapped(self.unions, op)),
            opaque_items: rebuilt(mapped(self.opaque_items, op)),
            typedefs: rebuilt(mapped(self.typedefs, op)),
            functions: applied_functions(self.functions, op),
            ..self
        }
    }

    /// The library with every optional pointer made a nullable pointer.
    pub open spec fn simplified(self) -> LibrarySpec {
        let op = ItemOpSpec::Simplify;
        LibrarySpec {
            globals: mapped(self.globals, op),
            structs: mapped(self.structs, op),
            unions: mapped(self.unions, op),
            typedefs: mapped(self.typedefs, op),
            functions: applied_functions(self.functions, op),
            ..self
        }
    }

    /// The library with `item` inserted into the table of its kind, where it is a
    /// struct, a union, an opaque item or an alias.
    pub open spec fn placed(self, item: ItemSpec) -> LibrarySpec {
        match item.body.kind() {
            ItemKind::Struct => LibrarySpec { structs: inserted(self.structs, item), ..self },
            ItemKind::Union => LibrarySpec { unions: inserted(self.unions, item), ..self },
            ItemKind::Opaque => LibrarySpec {
                opaque_items: inserted(self.opaque_items, item),
                ..self
            },
            ItemKind::Typedef => LibrarySpec { typedefs: inserted(self.typedefs, item), ..self },
            _ => self,
        }
    }

    /// The library with `items` placed, one after the other.
    pub open spec fn placed_all(self, items: Seq<ItemSpec>) -> LibrarySpec
        decreases items.len(),
    {
        if items.len() == 0 {
            self
        } else {
            self.placed_all(items.drop_last()).placed(items.last())
        }
    }

    /// The library without its generic entities and with every reference that binds
    /// generic arguments turned into the mangled path.
    pub open spec fn concrete(self) -> LibrarySpec {
        let generic = FilterSpec::Generic;
        let op = ItemOpSpec::Mangle;
        LibrarySpec {
            opaque_items: filtered(self.opaque_items, generic),
            structs: mapped(filtered(self.structs, generic), op),
            unions: mapped(filtered(self.unions, generic), op),
            typedefs: mapped(filtered(self.typedefs, generic), op),
            functions: applied_functions(self.functions, op),
            ..self
        }
    }

    /// The library with every generic entity replaced by its instances; `None` where
    /// the search for them needs more pairs than the machine can count.
    pub open spec fn monomorphized(self) -> Option<LibrarySpec> {
        match needed(self) {
            Some(instances) => Some(self.placed_all(instances).concrete()),
            None => None,
        }
    }

    /// The registry of aggregates: structs and opaque items, then enums, then unions.
    pub open spec fn registry(self) -> Seq<(Seq<char>, Tag)> {
        tagged(self.structs, Tag::Struct) + tagged(self.opaque_items, Tag::Struct) + tagged(
            self.enums,
            Tag::Enum,
        ) + tagged(self.unions, Tag::Union)
    }

    /// The library with the keyword of its aggregate on every reference, unless every
    /// aggregate gets a generated alias.
    pub open spec fn resolved(self) -> LibrarySpec {
        if self.config.style.generate_typedef() {
            self
        } else {
            let op = ItemOpSpec::Resolve(self.registry());
            LibrarySpec {
                enums: mapped(self.enums, op),
                structs: mapped(self.structs, op),
                unions: mapped(self.unions, op),
                typedefs: mapped(self.typedefs, op),
                globals: mapped(self.globals, op),
                functions: applied_functions(self.functions, op),
                ..self
            }
        }
    }

    /// The library after the stages that every target needs: what is excluded is
    /// dropped, the functions are sorted, the annotations of aliases are handed on,
    /// every entity has its exposed name, and optional pointers are nullable.
    pub open spec fn prepared(self) -> LibrarySpec {
        self.excluded().ordered().transferred().renamed().simplified()
    }

    /// The library after every stage but the last; `None` where the search for the
    /// instances of generic entities needs more pairs than the machine can count.
    pub open spec fn staged(self) -> Option<LibrarySpec> {
        let simple = self.prepared();
        if simple.config.language == Language::C {
            match simple.monomorphized() {
                Some(concrete) => Some(concrete.resolved()),
                None => None,
            }
        } else {
            Some(simple)
        }
    }

    /// The paths from which the dependency order starts: those in the signatures of the
    /// functions, those in the types of the globals, and those that are always kept.
    pub open spec fn roots(self) -> Seq<Seq<char>> {
        use_names(function_uses(self.functions)) + use_names(targets_all(items_of(self.globals)))
            + self.config.retain
    }

    /// Whether `bindings` is a final form of this library, which has gone through
    /// every stage but the last.
    pub open spec fn bundled(self, bindings: BindingsSpec) -> bool {
        &&& bindings.config == self.config
        &&& bindings.constants == items_of(self.constants)
        &&& bindings.globals == items_of(self.globals)
        &&& bindings.functions == self.functions
        &&& bindings.conflicts == self.conflicts
        &&& exists|paths: Seq<Seq<char>>|
            dependency_order(self, self.roots(), paths, bindings.items)
    }
}

/// A table holds a key just when the list of its keys does.
pub proof fn lemma_keys_of(table: Seq<SlotSpec>, key: Seq<char>)
    ensures
        has_key(table, key) <==> keys_of(table).contains(key),
{
    lemma_has_key(table, key);
    if has_key(table, key) {
        let i = choose|i: int| 0 <= i < table.len() && (#[trigger] table[i]).key == key;
        assert(keys_of(table)[i] == key);
    }
    if keys_of(table).contains(key) {
        let i = choose|i: int| 0 <= i < keys_of(table).len() && keys_of(table)[i] == key;
        assert(table[i].key == key);
    }
}

/// A path names something just when it is one of the keys.
pub proof fn lemma_find_keys(library: LibrarySpec, path: Seq<char>)
    ensures
        library.find(path) is Some <==> library.key_list().contains(path),
{
    lemma_keys_of(library.enums, path);
    lemma_keys_of(library.structs, path);
    lemma_keys_of(library.unions, path);
    lemma_keys_of(library.opaque_items, path);
    lemma_keys_of(library.typedefs, path);
    let a = keys_of(library.enums);
    let b = keys_of(library.structs);
    let c = keys_of(library.unions);
    let d = keys_of(library.opaque_items);
    let e = keys_of(library.typedefs);
    let all = library.key_list();
    if all.contains(path) {
        let i = choose|i: int| 0 <= i < all.len() && all[i] == path;
        if i < a.len() {
            assert(a[i] == path);
        } else if i < a.len() + b.len() {
            assert(b[i - a.len()] == path);
        } else if i < a.len() + b.len() + c.len() {
            assert(c[i - a.len() - b.len()] == path);
        } else if i < a.len() + b.len() + c.len() + d.len() {
            assert(d[i - a.len() - b.len() - c.len()] == path);
        } else {
            assert(e[i - a.len() - b.len() - c.len() - d.len()] == path);
        }
    }
    if a.contains(path) {
        let i = choose|i: int| 0 <= i < a.len() && a[i] == path;
        assert(all[i] == path);
    }
    if b.contains(path) {
        let i = choose|i: int| 0 <= i < b.len() && b[i] == path;
        assert(all[a.len() + i] == path);
    }
    if c.contains(path) {
        let i = choose|i: int| 0 <= i < c.len() && c[i] == path;
        assert(all[a.len() + b.len() + i] == path);
    }
    if d.contains(path) {
        let i = choose|i: int| 0 <= i < d.len() && d[i] == path;
        assert(all[a.len() + b.len() + c.len() + i] == path);
    }
    if e.contains(path) {
        let i = choose|i: int| 0 <= i < e.len() && e[i] == path;
        assert(all[a.len() + b.len() + c.len() + d.len() + i] == path);
    }
}

/// Each of `functions` after the rewrite `op`.
fn map_functions(functions: &Vec<Function>, op: &ItemOp) -> (r: Vec<Function>)
    ensures
        views(r@) == applied_functions(views(functions@), op@),
{
    let mut out: Vec<Function> = Vec::new();
    let mut i: usize = 0;
    while i < functions.len()
        invariant
            i <= functions.len(),
            out.len() == i,
            forall|j: int| 0 <= j < i ==> out[j]@ == functions[j]@.applied(op@),
        decreases functions.len() - i,
    {
        out.push(functions[i].apply(op));
        i += 1;
    }
    assert(views(out@) =~= applied_functions(views(functions@), op@));
    out
}

/// Registers the entities of `table` with `tag`.
fn register(resolver: &mut CTypeResolver, table: &ItemMap, tag: Tag)
    ensures
        final(resolver)@ == old(resolver)@ + tagged(table@, tag),
{
    let items = table.to_vec();
    let mut i: usize = 0;
    let ghost all = tagged(table@, tag);
    assert(views(items@).len() == items.len());
    assert(resolver@ =~= old(resolver)@ + all.take(0));
    while i < items.len()
        invariant
            i <= items.len(),
            items.len() == table@.len(),
            views(items@) == items_of(table@),
            all == tagged(table@, tag),
            resolver@ == old(resolver)@ + all.take(i as int),
        decreases items.len() - i,
    {
        assert(views(items@)[i as int] == table@[i as int].item);
        assert(all[i as int] == (items[i as int].path@, tag));
        resolver.add(items[i].path.clone(), tag);
        assert(all.take(i + 1) =~= all.take(i as int).push(all[i as int]));
        assert(resolver@ =~= old(resolver)@ + all.take(i + 1));
        i += 1;
    }
    assert(all.take(i as int) =~= all);
}

/// Appends to `out` the names of `uses`.
fn push_names(uses: &Vec<PathUse>, out: &mut Vec<String>)
    ensures
        name_views(final(out)@) == name_views(old(out)@) + use_names(use_views(uses@)),
{
    let mut i: usize = 0;
    let ghost all = use_names(use_views(uses@));
    assert(name_views(out@) =~= name_views(old(out)@) + all.take(0));
    while i < uses.len()
        invariant
            i <= uses.len(),
            all == use_names(use_views(uses@)),
            name_views(out@) == name_views(old(out)@) + all.take(i as int),
        decreases uses.len() - i,
    {
        let ghost mid = name_views(out@);
        assert(all[i as int] == uses[i as int].name@);
        out.push(uses[i].name.clone());
        assert(name_views(out@) =~= mid.push(all[i as int]));
        assert(all.take(i + 1) =~= all.take(i as int).push(all[i as int]));
        assert(name_views(out@) =~= name_views(old(out)@) + all.take(i + 1));
        i += 1;
    }
    assert(all.take(i as int) =~= all);
}

impl Library {
    /// The library of these tables and functions.
    pub fn new(
        config: Config,
        constants: ItemMap,
        globals: ItemMap,
        enums: ItemMap,
        structs: ItemMap,
        unions: ItemMap,
        opaque_items: ItemMap,
        typedefs: ItemMap,
        functions: Vec<Function>,
    ) -> (r: Library)
        ensures
            r@ == (LibrarySpec {
                config: config@,
                constants: constants@,
                globals: globals@,
                enums: enums@,
                structs: structs@,
                unions: unions@,
                opaque_items: opaque_items@,
                typedefs: typedefs@,
                functions: views(functions@),
                conflicts: Seq::empty(),
            }),
    {
        let r = Library {
            config,
            constants,
            globals,
            enums,
            structs,
            unions,
            opaque_items,
            typedefs,
            functions,
            conflicts: Vec::new(),
        };
        assert(r@.conflicts =~= Seq::<Seq<char>>::empty());
        r
    }

    /// Brings the library into its final form: runs every stage, in order, and
    /// bundles what is left. This succeeds for every target with generics, and for a
    /// target without them wherever the search for the instances of the generic
    /// entities ends within as many pairs as the machine can count.
    pub fn generate(self) -> (r: Result<Bindings, Error>)
        ensures
            match r {
                Ok(bindings) => self@.staged() matches Some(library) && library.bundled(bindings@)
                    && bindings@.config == self@.config,
                Err(e) => self@.staged() is None && e == Error::InstantiationLimit,
            },
            self@.config.language != Language::C ==> r is Ok,
            run(
                self@.prepared(),
                MonoSpec { instances: Seq::empty(), seen: Seq::empty() },
                requests(root_uses(self@.prepared())),
                machine_limit(),
            ) is Some ==> r is Ok,
    {
        proof {
            lemma_staged_config(self@);
        }
        let mut library = self;
        library.remove_excluded();
        library.sort_functions();
        library.transfer_annotations();
        library.rename_items();
        library.simplify_option_to_ptr();
        if library.config.language == Language::C {
            if !library.instantiate_monomorphs() {
                return Err(Error::InstantiationLimit);
            }
            library.set_ctype();
        }
        let ghost staged = library@;
        let roots = library.dependency_roots();
        let order = build(&library, &roots);
        let constants = library.constants.to_vec();
        let globals = library.globals.to_vec();
        let bindings = Bindings::new(
            library.config,
            constants,
            globals,
            order.items,
            library.functions,
            library.conflicts,
        );
        assert(dependency_order(staged, staged.roots(), name_views(order.paths@), bindings@.items));
        Ok(bindings)
    }

    /// A copy of this library.
    pub fn duplicate(&self) -> (r: Library)
        ensures
            r@ == self@,
    {
        let mut functions: Vec<Function> = Vec::new();
        let mut i: usize = 0;
        while i < self.functions.len()
            invariant
                i <= self.functions.len(),
                functions.len() == i,
                forall|j: int| 0 <= j < i ==> functions[j]@ == self.functions[j]@,
            decreases self.functions.len() - i,
        {
            functions.push(self.functions[i].duplicate());
            i += 1;
        }
        assert(views(functions@) =~= views(self.functions@));
        Library {
            config: self.config.duplicate(),
            constants: self.constants.duplicate(),
            globals: self.globals.duplicate(),
            enums: self.enums.duplicate(),
            structs: self.structs.duplicate(),
            unions: self.unions.duplicate(),
            opaque_items: self.opaque_items.duplicate(),
            typedefs: self.typedefs.duplicate(),
            functions,
            conflicts: copy_names(&self.conflicts),
        }
    }

    /// The entities that `p` names: those of the first kind, of enum, struct, union,
    /// opaque item and alias, whose table holds the path.
    pub fn get_items(&self, p: &Path) -> (r: Option<Vec<Item>>)
        ensures
            match r {
                Some(items) => self@.find(p@) == Some(views(items@)),
                None => self@.find(p@) is None,
            },
    {
        if let Some(x) = self.enums.get_items(p) {
            return Some(x);
        }
        if let Some(x) = self.structs.get_items(p) {
            return Some(x);
        }
        if let Some(x) = self.unions.get_items(p) {
            return Some(x);
        }
        if let Some(x) = self.opaque_items.get_items(p) {
            return Some(x);
        }
        if let Some(x) = self.typedefs.get_items(p) {
            return Some(x);
        }
        None
    }

    /// Drops every entity and every function whose name is excluded.
    fn remove_excluded(&mut self)
        ensures
            final(self)@ == old(self)@.excluded(),
            forall|i: int|
                0 <= i < final(self)@.functions.len() ==> !old(self)@.config.exclude.contains(
                    (#[trigger] final(self)@.functions[i]).path,
                ),
            forall|kind: ItemKind, i: int|
                0 <= i < final(self)@.table_of(kind).len() ==> !old(self)@.config.exclude.contains(
                    (#[trigger] final(self)@.table_of(kind)[i]).item.path,
                ),
    {
        proof {
            let filter = FilterSpec::Named(self@.config.exclude);
            lemma_kept_functions(self@.functions, self@.config.exclude);
            lemma_filtered(self@.constants, filter);
            lemma_filtered(self@.globals, filter);
            lemma_filtered(self@.enums, filter);
            lemma_filtered(self@.structs, filter);
            lemma_filtered(self@.unions, filter);
            lemma_filtered(self@.opaque_items, filter);
            lemma_filtered(self@.typedefs, filter);
        }
        let mut kept: Vec<Function> = Vec::new();
        let mut i: usize = 0;
        let ghost all = views(self.functions@);
        let ghost names = name_views(self.config.export.exclude@);
        assert(all.take(0) =~= Seq::<FunctionSpec>::empty());
        assert(views(kept@) =~= Seq::<FunctionSpec>::empty());
        while i < self.functions.len()
            invariant
                i <= self.functions.len(),
                *self == *old(self),
                all == views(self.functions@),
                names == name_views(self.config.export.exclude@),
                views(kept@) == kept_functions(all.take(i as int), names),
            decreases self.functions.len() - i,
        {
            assert(all.take(i + 1).drop_last() =~= all.take(i as int));
            assert(all.take(i + 1).last() == self.functions[i as int]@);
            if !contains_name(&self.config.export.exclude, &self.functions[i].path) {
                let ghost before = views(kept@);
                kept.push(self.functions[i].duplicate());
                assert(views(kept@) =~= before.push(self.functions[i as int]@));
            }
            i += 1;
        }
        assert(all.take(i as int) =~= all);
        self.functions = kept;
        let filter = Filter::Named(&self.config.export.exclude);
        self.enums.filter(&filter);
        self.structs.filter(&filter);
        self.unions.filter(&filter);
        self.opaque_items.filter(&filter);
        self.typedefs.filter(&filter);
        self.globals.filter(&filter);
        self.constants.filter(&filter);
    }

    /// Sorts the functions by name.
    fn sort_functions(&mut self)
        ensures
            final(self)@ == old(self)@.ordered(),
    {
        let mut sorted: Vec<Function> = Vec::new();
        let mut i: usize = 0;
        let ghost all = views(self.functions@);
        assert(all.take(0) =~= Seq::<FunctionSpec>::empty());
        assert(views(sorted@) =~= Seq::<FunctionSpec>::empty());
        while i < self.functions.len()
            invariant
                i <= self.functions.len(),
                *self == *old(self),
                all == views(self.functions@),
                views(sorted@) == sorted_by_path(all.take(i as int)),
            decreases self.functions.len() - i,
        {
            assert(all.take(i + 1).drop_last() =~= all.take(i as int));
            assert(all.take(i + 1).last() == self.functions[i as int]@);
            let ghost so_far = views(sorted@);
            let ghost path = self.functions[i as int]@.path;
            let n = sorted.len();
            let mut pos: usize = 0;
            assert(so_far.skip(0) =~= so_far);
            while pos < n && !name_before(&self.functions[i].path, &sorted[pos].path)
                invariant
                    pos <= n,
                    n == sorted.len(),
                    i < self.functions.len(),
                    so_far == views(sorted@),
                    path == self.functions[i as int]@.path,
                    slot_after(so_far, path) == pos + slot_after(so_far.skip(pos as int), path),
                decreases n - pos,
            {
                assert(so_far.skip(pos as int)[0] == so_far[pos as int]);
                assert(so_far.skip(pos as int).skip(1) =~= so_far.skip(pos + 1));
                pos += 1;
            }
            proof {
                if pos < n {
                    assert(so_far.skip(pos as int)[0] == so_far[pos as int]);
                }
            }
            let f = self.functions[i].duplicate();
            assert(views(sorted@.insert(pos as int, f)) =~= so_far.insert(pos as int, f@));
            sorted.insert(pos, f);
            i += 1;
        }
        assert(all.take(i as int) =~= all);
        self.functions = sorted;
    }

    /// Delivers one claim.
    fn deliver(&mut self, claim: &Claim)
        ensures
            final(self)@ == old(self)@.delivered(claim@),
    {
        let key = &claim.target;
        let outcome = if self.enums.contains_key(key) {
            self.enums.install(key, &claim.annotations)
        } else if self.structs.contains_key(key) {
            self.structs.install(key, &claim.annotations)
        } else if self.unions.contains_key(key) {
            self.unions.install(key, &claim.annotations)
        } else if self.opaque_items.contains_key(key) {
            self.opaque_items.install(key, &claim.annotations)
        } else {
            self.typedefs.install(key, &claim.annotations)
        };
        if outcome.refused {
            self.conflicts.push(key.clone());
            assert(name_views(self.conflicts@) =~= name_views(old(self).conflicts@).push(key@));
        }
    }

    /// Hands the annotations of every alias on to the entity that it names.
    fn transfer_annotations(&mut self)
        ensures
            final(self)@ == old(self)@.transferred(),
    {
        let claims = self.typedefs.release_claims();
        let ghost start = self@;
        let ghost all = views(claims@);
        let mut i: usize = 0;
        assert(all.take(0) =~= Seq::<ClaimSpec>::empty());
        while i < claims.len()
            invariant
                i <= claims.len(),
                all == views(claims@),
                self@ == start.delivered_all(all.take(i as int)),
            decreases claims.len() - i,
        {
            assert(all.take(i + 1).drop_last() =~= all.take(i as int));
            assert(all.take(i + 1).last() == claims[i as int]@);
            self.deliver(&claims[i]);
            i += 1;
        }
        assert(all.take(i as int) =~= all);
    }

    /// Gives every entity its exposed name and indexes every table anew.
    fn rename_items(&mut self)
        ensures
            final(self)@ == old(self)@.renamed(),
    {
        let functions = map_functions(&self.functions, &ItemOp::Rename(&self.config.export.rename));
        self.functions = functions;
        let op = ItemOp::Rename(&self.config.export.rename);
        self.globals.map_items(&op);
        self.globals.rebuild();
        self.constants.map_items(&op);
        self.constants.rebuild();
        self.structs.map_items(&op);
        self.structs.rebuild();
        self.unions.map_items(&op);
        self.unions.rebuild();
        self.enums.map_items(&op);
        self.enums.rebuild();
        self.opaque_items.map_items(&op);
        self.opaque_items.rebuild();
        self.typedefs.map_items(&op);
        self.typedefs.rebuild();
    }

    /// Makes every optional pointer a nullable pointer.
    fn simplify_option_to_ptr(&mut self)
        ensures
            final(self)@ == old(self)@.simplified(),
    {
        let op = ItemOp::Simplify;
        self.structs.map_items(&op);
        self.unions.map_items(&op);
        self.globals.map_items(&op);
        self.typedefs.map_items(&op);
        let functions = map_functions(&self.functions, &op);
        self.functions = functions;
    }

    /// Inserts `item` into the table of its kind.
    fn place(&mut self, item: Item)
        ensures
            final(self)@ == old(self)@.placed(item@),
    {
        match item.kind() {
            ItemKind::Struct => {
                self.structs.try_insert(item);
            },
            ItemKind::Union => {
                self.unions.try_insert(item);
            },
            ItemKind::Opaque => {
                self.opaque_items.try_insert(item);
            },
            ItemKind::Typedef => {
                self.typedefs.try_insert(item);
            },
            _ => {},
        }
    }

    /// Replaces every generic entity by its instances. Says `false`, and leaves the
    /// library as it is, where the search needs more pairs than the machine can count.
    fn instantiate_monomorphs(&mut self) -> (r: bool)
        ensures
            r ==> old(self)@.monomorphized() == Some(final(self)@),
            !r ==> old(self)@.monomorphized() is None && final(self)@ == old(self)@,
    {
        let structs = self.structs.to_vec();
        let unions = self.unions.to_vec();
        let typedefs = self.typedefs.to_vec();
        let roots = root_uses_of(&structs, &unions, &typedefs, &self.functions);
        let made = match collect(&*self, &roots, usize::MAX) {
            None => {
                return false;
            },
            Some(made) => made,
        };
        let ghost start = self@;
        let ghost all = views(made@);
        let mut i: usize = 0;
        assert(all.take(0) =~= Seq::<ItemSpec>::empty());
        while i < made.len()
            invariant
                i <= made.len(),
                all == views(made@),
                self@ == start.placed_all(all.take(i as int)),
            decreases made.len() - i,
        {
            assert(all.take(i + 1).drop_last() =~= all.take(i as int));
            assert(all.take(i + 1).last() == made[i as int]@);
            self.place(made[i].duplicate());
            i += 1;
        }
        assert(all.take(i as int) =~= all);
        let generic = Filter::Generic;
        self.opaque_items.filter(&generic);
        self.structs.filter(&generic);
        self.unions.filter(&generic);
        self.typedefs.filter(&generic);
        let op = ItemOp::Mangle;
        self.unions.map_items(&op);
        self.structs.map_items(&op);
        self.typedefs.map_items(&op);
        let functions = map_functions(&self.functions, &op);
        self.functions = functions;
        true
    }

    /// Gives every reference to an aggregate its keyword, unless every aggregate
    /// gets a generated alias.
    fn set_ctype(&mut self)
        ensures
            final(self)@ == old(self)@.resolved(),
    {
        if self.config.style.generate_typedef() {
            return ;
        }
        let mut resolver = CTypeResolver::new();
        register(&mut resolver, &self.structs, Tag::Struct);
        register(&mut resolver, &self.opaque_items, Tag::Struct);
        register(&mut resolver, &self.enums, Tag::Enum);
        register(&mut resolver, &self.unions, Tag::Union);
        assert(resolver@ =~= self@.registry());
        let op = ItemOp::Resolve(&resolver);
        self.enums.map_items(&op);
        self.structs.map_items(&op);
        self.unions.map_items(&op);
        self.typedefs.map_items(&op);
        self.globals.map_items(&op);
        let functions = map_functions(&self.functions, &op);
        self.functions = functions;
    }

    /// The paths from which the dependency order starts.
    fn dependency_roots(&self) -> (r: Vec<String>)
        ensures
            name_views(r@) == self@.roots(),
    {
        let mut uses: Vec<PathUse> = Vec::new();
        assert(use_views(uses@) =~= Seq::<PathUseSpec>::empty());
        push_function_uses(&self.functions, &mut uses);
        assert(use_views(uses@) =~= function_uses(views(self.functions@)));
        let mut roots: Vec<String> = Vec::new();
        assert(name_views(roots@) =~= Seq::<Seq<char>>::empty());
        push_names(&uses, &mut roots);
        let globals = self.globals.to_vec();
        let wanted = targets_of(&globals);
        push_names(&wanted, &mut roots);
        let mut i: usize = 0;
        let ghost before = name_views(roots@);
        let ghost kept = name_views(self.config.export.retain@);
        assert(name_views(roots@) =~= before + kept.take(0));
        while i < self.config.export.retain.len()
            invariant
                i <= self.config.export.retain.len(),
                kept == name_views(self.config.export.retain@),
                name_views(roots@) == before + kept.take(i as int),
            decreases self.config.export.retain.len() - i,
        {
            let ghost mid = name_views(roots@);
            assert(kept[i as int] == self.config.export.retain[i as int]@);
            roots.push(self.config.export.retain[i].clone());
            assert(name_views(roots@) =~= mid.push(kept[i as int]));
            assert(kept.take(i + 1) =~= kept.take(i as int).push(kept[i as int]));
            assert(name_views(roots@) =~= before + kept.take(i + 1));
            i += 1;
        }
        assert(kept.take(i as int) =~= kept);
        assert(name_views(roots@) =~= self@.roots());
        roots
    }
}

} // verus!
