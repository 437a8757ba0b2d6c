//! The symbol table: an ordered container of entities, indexed by path.
//!
//! A table keeps each entity under a key, the path that the entity had when it was
//! inserted, and keeps its entities sorted by key. Several conditional entities may
//! share one key. Renaming entities in place leaves the keys as they were, until
//! `rebuild` indexes the table anew.

use vstd::prelude::*;
use crate::item::{
    copy_annotations, views, Annotation, Item, ItemKind, ItemOp, ItemOpSpec, ItemSpec,
};
use crate::names::{
    contains_name, lemma_name_lt_transitive, name_before, name_le, name_lt, name_views,
};

verus! {

/// An entity under its key.
#[derive(Debug)]
pub struct Slot {
    key: String,
    item: Item,
}

/// The mathematical model of a slot of a table.
pub struct SlotSpec {
    pub key: Seq<char>,
    pub item: ItemSpec,
}

impl View for Slot {
    type V = SlotSpec;

    closed spec fn view(&self) -> SlotSpec {
        SlotSpec { key: self.key@, item: self.item@ }
    }
}

/// A symbol table for one kind of entity.
#[derive(Debug)]
pub struct ItemMap {
    slots: Vec<Slot>,
}

impl View for ItemMap {
    type V = Seq<SlotSpec>;

    closed spec fn view(&self) -> Seq<SlotSpec> {
        views(self.slots@)
    }
}

/// Which entities a filter removes.
pub enum Filter<'a> {
    /// Those whose name is one of these.
    Named(&'a Vec<String>),
    /// Those that declare generic parameters.
    Generic,
}

/// The mathematical model of `Filter`.
pub enum FilterSpec {
    Named(Seq<Seq<char>>),
    Generic,
}

impl<'a> View for Filter<'a> {
    type V = FilterSpec;

    open spec fn view(&self) -> FilterSpec {
        match self {
            Filter::Named(names) => FilterSpec::Named(name_views(names@)),
            Filter::Generic => FilterSpec::Generic,
        }
    }
}

impl FilterSpec {
    /// Whether the filter removes `item`.
    pub open spec fn rejects(self, item: ItemSpec) -> bool {
        match self {
            FilterSpec::Named(names) => names.contains(item.path),
            FilterSpec::Generic => item.generic_params.len() > 0,
        }
    }
}

/// The annotations that an alias hands on to the entity that it names.
#[derive(Debug)]
pub struct Claim {
    pub target: String,
    pub annotations: Vec<Annotation>,
}

/// The mathematical model of `Claim`.
pub struct ClaimSpec {
    pub target: Seq<char>,
    pub annotations: Seq<(Seq<char>, Seq<char>)>,
}

impl View for Claim {
    type V = ClaimSpec;

    open spec fn view(&self) -> ClaimSpec {
        ClaimSpec { target: self.target@, annotations: views(self.annotations@) }
    }
}

/// What became of an attempt to install annotations under a key.
#[derive(Clone, Copy, PartialEq, Eq, Structural, Debug)]
pub struct Installed {
    /// The table holds the key.
    pub matched: bool,
    /// An entity under the key had annotations of its own and kept them.
    pub refused: bool,
}

/// The keys are in order.
pub open spec fn sorted(table: Seq<SlotSpec>) -> bool {
    forall|i: int, j: int| 0 <= i < j < table.len() ==> name_le(table[i].key, table[j].key)
}

/// Entities share a key only where all of them are conditional.
pub open spec fn distinct(table: Seq<SlotSpec>) -> bool {
    forall|i: int, j: int|
        0 <= i < table.len() && 0 <= j < table.len() && i != j && (#[trigger] table[i]).key == (
        #[trigger] table[j]).key ==> table[i].item.cfg is Some && table[j].item.cfg is Some
}

/// What holds of every table: its keys are in order, and entities share a key only
/// where all of them are conditional.
pub open spec fn valid(table: Seq<SlotSpec>) -> bool {
    sorted(table) && distinct(table)
}

/// Every entity is kept under its own path.
pub open spec fn consistent(table: Seq<SlotSpec>) -> bool {
    forall|i: int| 0 <= i < table.len() ==> (#[trigger] table[i]).key == table[i].item.path
}

/// The entities of a table, in order.
pub open spec fn items_of(table: Seq<SlotSpec>) -> Seq<ItemSpec> {
    Seq::new(table.len(), |i: int| table[i].item)
}

/// The first entity kept under `key`, if there is one.
pub open spec fn first_item(table: Seq<SlotSpec>, key: Seq<char>) -> Option<ItemSpec>
    decreases table.len(),
{
    if table.len() == 0 {
        None
    } else if table[0].key == key {
        Some(table[0].item)
    } else {
        first_item(table.skip(1), key)
    }
}

/// Whether the table keeps an entity under `key`.
pub open spec fn has_key(table: Seq<SlotSpec>, key: Seq<char>) -> bool {
    first_item(table, key) is Some
}

/// The entities kept under `key`, in order.
pub open spec fn matching(table: Seq<SlotSpec>, key: Seq<char>) -> Seq<ItemSpec>
    decreases table.len(),
{
    if table.len() == 0 {
        Seq::empty()
    } else if table.last().key == key {
        matching(table.drop_last(), key).push(table.last().item)
    } else {
        matching(table.drop_last(), key)
    }
}

/// What a lookup of `key` gives: the entities kept under it, where there are any.
pub open spec fn lookup(table: Seq<SlotSpec>, key: Seq<char>) -> Option<Seq<ItemSpec>> {
    if has_key(table, key) {
        Some(matching(table, key))
    } else {
        None
    }
}

/// How many slots at the start of the table have a key that does not sort after `key`.
pub open spec fn position(table: Seq<SlotSpec>, key: Seq<char>) -> int
    decreases table.len(),
{
    if table.len() == 0 || name_lt(key, table[0].key) {
        0
    } else {
        1 + position(table.skip(1), key)
    }
}

/// Whether the table takes `item`: it does where its path is a new key, and where
/// both the entity and the first one under that key are conditional.
pub open spec fn accepts(table: Seq<SlotSpec>, item: ItemSpec) -> bool {
    match first_item(table, item.path) {
        None => true,
        Some(first) => item.cfg is Some && first.cfg is Some,
    }
}

/// The table after an attempt to insert `item` under its path.
pub open spec fn inserted(table: Seq<SlotSpec>, item: ItemSpec) -> Seq<SlotSpec> {
    if accepts(table, item) {
        table.insert(position(table, item.path), SlotSpec { key: item.path, item })
    } else {
        table
    }
}

/// The table that inserting `items` one after the other into an empty table gives.
pub open spec fn built(items: Seq<ItemSpec>) -> Seq<SlotSpec>
    decreases items.len(),
{
    if items.len() == 0 {
        Seq::empty()
    } else {
        inserted(built(items.drop_last()), items.last())
    }
}

/// The table indexed anew by the paths that its entities have now.
pub open spec fn rebuilt(table: Seq<SlotSpec>) -> Seq<SlotSpec> {
    built(items_of(table))
}

/// The table without the entities that `filter` removes.
pub open spec fn filtered(table: Seq<SlotSpec>, filter: FilterSpec) -> Seq<SlotSpec>
    decreases table.len(),
{
    if table.len() == 0 {
        Seq::empty()
    } else if filter.rejects(table.last().item) {
        filtered(table.drop_last(), filter)
    } else {
        filtered(table.drop_last(), filter).push(table.last())
    }
}

/// The table with `op` applied to every entity; the keys stay.
pub open spec fn mapped(table: Seq<SlotSpec>, op: ItemOpSpec) -> Seq<SlotSpec> {
    Seq::new(
        table.len(),
        |i: int| SlotSpec { key: table[i].key, item: table[i].item.applied(op) },
    )
}

/// Whether one of `claims` is for `target`.
pub open spec fn claims_target(claims: Seq<ClaimSpec>, target: Seq<char>) -> bool {
    exists|i: int| 0 <= i < claims.len() && (#[trigger] claims[i]).target == target
}

/// Whether `item` makes a claim, given the claims made before it: it does where it has
/// annotations and names an entity that no earlier claim is for.
pub open spec fn gives(earlier: Seq<ClaimSpec>, item: ItemSpec) -> bool {
    item.annotations.len() > 0 && item.alias_target() is Some && !claims_target(
        earlier,
        item.alias_target()->0,
    )
}

/// The claims that `items` make, in order.
pub open spec fn claimed(items: Seq<ItemSpec>) -> Seq<ClaimSpec>
    decreases items.len(),
{
    if items.len() == 0 {
        Seq::empty()
    } else {
        let earlier = claimed(items.drop_last());
        if gives(earlier, items.last()) {
            earlier.push(
                ClaimSpec {
                    target: items.last().alias_target()->0,
                    annotations: items.last().annotations,
                },
            )
        } else {
            earlier
        }
    }
}

/// The table after each entity that makes a claim has given its annotations away.
pub open spec fn released(table: Seq<SlotSpec>) -> Seq<SlotSpec> {
    Seq::new(
        table.len(),
        |i: int|
            if gives(claimed(items_of(table).take(i)), table[i].item) {
                SlotSpec { key: table[i].key, item: table[i].item.with_annotations(Seq::empty()) }
            } else {
                table[i]
            },
    )
}

/// The table after `annotations` were installed on the entities under `key` that had none.
pub open spec fn installed(
    table: Seq<SlotSpec>,
    key: Seq<char>,
    annotations: Seq<(Seq<char>, Seq<char>)>,
) -> Seq<SlotSpec> {
    Seq::new(
        table.len(),
        |i: int|
            if table[i].key == key && table[i].item.annotations.len() == 0 {
                SlotSpec { key: table[i].key, item: table[i].item.with_annotations(annotations) }
            } else {
                table[i]
            },
    )
}

/// Whether an entity under `key` has annotations of its own.
pub open spec fn annotated(table: Seq<SlotSpec>, key: Seq<char>) -> bool {
    exists|i: int|
        0 <= i < table.len() && (#[trigger] table[i]).key == key && table[i].item.annotations.len()
            > 0
}

/// A key is in the table just when some slot has it.
pub proof fn lemma_has_key(table: Seq<SlotSpec>, key: Seq<char>)
    ensures
        has_key(table, key) <==> exists|i: int| 0 <= i < table.len() && (#[trigger] table[i]).key == key,
        has_key(table, key) <==> matching(table, key).len() > 0,
    decreases table.len(),
{
    if table.len() > 0 {
        lemma_has_key(table.skip(1), key);
        lemma_has_key(table.drop_last(), key);
        let rest = table.skip(1);
        let front = table.drop_last();
        if exists|i: int| 0 <= i < table.len() && (#[trigger] table[i]).key == key {
            let i = choose|i: int| 0 <= i < table.len() && (#[trigger] table[i]).key == key;
            if i > 0 {
                assert(rest[i - 1].key == key);
            }
            if i < table.len() - 1 {
                assert(front[i].key == key);
            }
        }
        if exists|i: int| 0 <= i < rest.len() && (#[trigger] rest[i]).key == key {
            let i = choose|i: int| 0 <= i < rest.len() && (#[trigger] rest[i]).key == key;
            assert(table[i + 1].key == key);
        }
        if exists|i: int| 0 <= i < front.len() && (#[trigger] front[i]).key == key {
            let i = choose|i: int| 0 <= i < front.len() && (#[trigger] front[i]).key == key;
            assert(table[i].key == key);
        }
    }
}

/// Where `position` points: the keys before it do not sort after `key`; in a sorted
/// table the keys from it on do.
pub proof fn lemma_position(table: Seq<SlotSpec>, key: Seq<char>)
    ensures
        0 <= position(table, key) <= table.len(),
        forall|i: int| 0 <= i < position(table, key) ==> name_le(#[trigger] table[i].key, key),
        sorted(table) ==> forall|i: int|
            position(table, key) <= i < table.len() ==> name_lt(key, #[trigger] table[i].key),
    decreases table.len(),
{
    if table.len() == 0 {
    } else if name_lt(key, table[0].key) {
        if sorted(table) {
            assert forall|i: int| 0 <= i < table.len() implies name_lt(
                key,
                #[trigger] table[i].key,
            ) by {
                if i > 0 && !name_lt(key, table[i].key) {
                    assert(name_le(table[0].key, table[i].key));
                    if table[i].key == key {
                    } else {
                        crate::names::lemma_name_lt_total(table[i].key, key);
                        lemma_name_lt_transitive(table[i].key, key, table[0].key);
                    }
                }
            }
        }
    } else {
        let rest = table.skip(1);
        lemma_position(rest, key);
        assert forall|i: int| 0 <= i < position(table, key) implies name_le(
            #[trigger] table[i].key,
            key,
        ) by {
            if i > 0 {
                assert(rest[i - 1] == table[i]);
            }
        }
        if sorted(table) {
            assert(sorted(rest)) by {
                assert forall|i: int, j: int| 0 <= i < j < rest.len() implies name_le(
                    rest[i].key,
                    rest[j].key,
                ) by {
                    assert(rest[i] == table[i + 1]);
                    assert(rest[j] == table[j + 1]);
                }
            }
            assert forall|i: int| position(table, key) <= i < table.len() implies name_lt(
                key,
                #[trigger] table[i].key,
            ) by {
                assert(rest[i - 1] == table[i]);
            }
        }
    }
}

/// Inserting into a sorted table leaves it sorted.
pub proof fn lemma_inserted_sorted(table: Seq<SlotSpec>, item: ItemSpec)
    requires
        sorted(table),
    ensures
        sorted(inserted(table, item)),
{
    if accepts(table, item) {
        lemma_position(table, item.path);
        let pos = position(table, item.path);
        let slot = SlotSpec { key: item.path, item };
        let after = table.insert(pos, slot);
        assert forall|i: int, j: int| 0 <= i < j < after.len() implies name_le(
            after[i].key,
            after[j].key,
        ) by {
            if j < pos {
                assert(after[i] == table[i] && after[j] == table[j]);
            } else if j == pos {
                assert(after[i] == table[i]);
            } else if i < pos {
                assert(after[i] == table[i] && after[j] == table[j - 1]);
            } else if i == pos {
                assert(after[j] == table[j - 1]);
                crate::names::lemma_name_lt_asymmetric(item.path, table[j - 1].key);
            } else {
                assert(after[i] == table[i - 1] && after[j] == table[j - 1]);
            }
        }
    }
}

/// What a filter leaves: slots of the table that the filter does not remove, and all of them.
pub proof fn lemma_filtered(table: Seq<SlotSpec>, filter: FilterSpec)
    ensures
        forall|j: int|
            0 <= j < filtered(table, filter).len() ==> !filter.rejects(
                (#[trigger] filtered(table, filter)[j]).item,
            ) && table.contains(filtered(table, filter)[j]),
        forall|i: int|
            0 <= i < table.len() && !filter.rejects((#[trigger] table[i]).item) ==> filtered(
                table,
                filter,
            ).contains(table[i]),
        consistent(table) ==> consistent(filtered(table, filter)),
    decreases table.len(),
{
    if table.len() > 0 {
        let front = table.drop_last();
        let kept = filtered(front, filter);
        let after = filtered(table, filter);
        lemma_filtered(front, filter);
        assert forall|j: int| 0 <= j < after.len() implies !filter.rejects(
            (#[trigger] after[j]).item,
        ) && table.contains(after[j]) by {
            if j < kept.len() {
                assert(after[j] == kept[j]);
                let i = choose|i: int| 0 <= i < front.len() && front[i] == kept[j];
                assert(table[i] == after[j]);
            } else {
                assert(table[table.len() - 1] == after[j]);
            }
        }
        assert forall|i: int|
            0 <= i < table.len() && !filter.rejects((#[trigger] table[i]).item) implies after.contains(
            table[i],
        ) by {
            if i < front.len() {
                assert(front[i] == table[i]);
                let j = choose|j: int| 0 <= j < kept.len() && kept[j] == front[i];
                assert(after[j] == table[i]);
            } else {
                assert(after[after.len() - 1] == table[i]);
            }
        }
        if consistent(table) {
            assert(consistent(front)) by {
                assert forall|i: int| 0 <= i < front.len() implies (#[trigger] front[i]).key
                    == front[i].item.path by {
                    assert(front[i] == table[i]);
                }
            }
            assert forall|j: int| 0 <= j < after.len() implies (#[trigger] after[j]).key
                == after[j].item.path by {
                if j < kept.len() {
                    assert(after[j] == kept[j]);
                } else {
                    assert(after[j] == table[table.len() - 1]);
                }
            }
        }
    }
}

/// The keys after an insertion: those before it, and the path of the entity.
pub proof fn lemma_inserted_keys(table: Seq<SlotSpec>, item: ItemSpec, key: Seq<char>)
    ensures
        has_key(inserted(table, item), key) <==> has_key(table, key) || key == item.path,
        consistent(table) ==> consistent(inserted(table, item)),
        forall|i: int| 0 <= i < table.len() ==> inserted(table, item).contains(#[trigger] table[i]),
        forall|j: int|
            0 <= j < inserted(table, item).len() ==> table.contains(
                #[trigger] inserted(table, item)[j],
            ) || inserted(table, item)[j] == (SlotSpec { key: item.path, item }),
{
    let after = inserted(table, item);
    lemma_has_key(table, key);
    lemma_has_key(after, key);
    lemma_has_key(table, item.path);
    lemma_position(table, item.path);
    let pos = position(table, item.path);
    let slot = SlotSpec { key: item.path, item };
    if accepts(table, item) {
        assert(after[pos] == slot);
        assert forall|i: int| 0 <= i < table.len() implies after.contains(#[trigger] table[i]) by {
            if i < pos {
                assert(after[i] == table[i]);
            } else {
                assert(after[i + 1] == table[i]);
            }
        }
        assert forall|j: int| 0 <= j < after.len() implies table.contains(#[trigger] after[j])
            || after[j] == slot by {
            if j < pos {
                assert(table[j] == after[j]);
            } else if j > pos {
                assert(table[j - 1] == after[j]);
            }
        }
        if has_key(table, key) {
            let i = choose|i: int| 0 <= i < table.len() && (#[trigger] table[i]).key == key;
            assert(after.contains(table[i]));
            let j = choose|j: int| 0 <= j < after.len() && after[j] == table[i];
            assert(after[j].key == key);
        }
        if has_key(after, key) {
            let j = choose|j: int| 0 <= j < after.len() && (#[trigger] after[j]).key == key;
            if after[j] != slot {
                let i = choose|i: int| 0 <= i < table.len() && table[i] == after[j];
                assert(table[i].key == key);
            }
        }
        if consistent(table) {
            assert forall|j: int| 0 <= j < after.len() implies (#[trigger] after[j]).key
                == after[j].item.path by {
                if after[j] != slot {
                    let i = choose|i: int| 0 <= i < table.len() && table[i] == after[j];
                    assert(table[i].key == table[i].item.path);
                }
            }
        }
    } else {
        assert forall|i: int| 0 <= i < table.len() implies after.contains(#[trigger] table[i]) by {
            assert(after[i] == table[i]);
        }
        assert forall|j: int| 0 <= j < after.len() implies table.contains(#[trigger] after[j])
            || after[j] == slot by {
            assert(table[j] == after[j]);
        }
    }
}

/// A table that was built from a list of entities is sorted, keeps every entity
/// under its own path, and holds a key just when one of the entities has that path.
pub proof fn lemma_built(items: Seq<ItemSpec>)
    ensures
        valid(built(items)),
        consistent(built(items)),
        forall|key: Seq<char>|
            has_key(built(items), key) <==> exists|i: int|
                0 <= i < items.len() && (#[trigger] items[i]).path == key,
    decreases items.len(),
{
    if items.len() > 0 {
        let front = items.drop_last();
        lemma_built(front);
        lemma_inserted_valid(built(front), items.last());
        assert forall|key: Seq<char>|
            has_key(built(items), key) <==> exists|i: int|
                0 <= i < items.len() && (#[trigger] items[i]).path == key by {
            lemma_inserted_keys(built(front), items.last(), key);
            if has_key(built(front), key) {
                let i = choose|i: int| 0 <= i < front.len() && (#[trigger] front[i]).path == key;
                assert(items[i].path == key);
            }
            if key == items.last().path {
                assert(items[items.len() - 1].path == key);
            }
            if exists|i: int| 0 <= i < items.len() && (#[trigger] items[i]).path == key {
                let i = choose|i: int| 0 <= i < items.len() && (#[trigger] items[i]).path == key;
                if i < front.len() {
                    assert(front[i].path == key);
                }
            }
        }
        lemma_inserted_keys(built(front), items.last(), items.last().path);
    } else {
        assert forall|key: Seq<char>|
            has_key(built(items), key) <==> exists|i: int|
                0 <= i < items.len() && (#[trigger] items[i]).path == key by {}
    }
}

/// After `rebuild`, a lookup finds a path just when an entity of the table has it,
/// and every entity is kept under its own path.
pub proof fn lemma_lookup_after_rebuild(table: Seq<SlotSpec>, path: Seq<char>)
    ensures
        lookup(rebuilt(table), path) is Some <==> exists|i: int|
            0 <= i < table.len() && (#[trigger] table[i]).item.path == path,
        consistent(rebuilt(table)),
        valid(rebuilt(table)),
{
    let items = items_of(table);
    lemma_built(items);
    if exists|i: int| 0 <= i < table.len() && (#[trigger] table[i]).item.path == path {
        let i = choose|i: int| 0 <= i < table.len() && (#[trigger] table[i]).item.path == path;
        assert(items[i].path == path);
    }
    if has_key(built(items), path) {
        let i = choose|i: int| 0 <= i < items.len() && (#[trigger] items[i]).path == path;
        assert(table[i].item.path == path);
    }
}

/// A rewrite of the entities leaves the keys: until `rebuild`, a lookup goes by the
/// paths that the entities had when they were inserted.
pub proof fn lemma_lookup_before_rebuild(table: Seq<SlotSpec>, op: ItemOpSpec, path: Seq<char>)
    ensures
        lookup(mapped(table, op), path) is Some <==> lookup(table, path) is Some,
{
    let after = mapped(table, op);
    lemma_has_key(table, path);
    lemma_has_key(after, path);
    if has_key(table, path) {
        let i = choose|i: int| 0 <= i < table.len() && (#[trigger] table[i]).key == path;
        assert(after[i].key == path);
    }
    if has_key(after, path) {
        let i = choose|i: int| 0 <= i < after.len() && (#[trigger] after[i]).key == path;
        assert(table[i].key == path);
    }
}

/// A lookup of the new path of a renamed entity succeeds once `rebuild` has run;
/// before that it succeeds only where the new path is one of the old keys.
pub proof fn lemma_renamed_needs_rebuild(table: Seq<SlotSpec>, op: ItemOpSpec, i: int)
    requires
        0 <= i < table.len(),
    ensures
        lookup(rebuilt(mapped(table, op)), mapped(table, op)[i].item.path) is Some,
        lookup(mapped(table, op), mapped(table, op)[i].item.path) is Some <==> has_key(
            table,
            mapped(table, op)[i].item.path,
        ),
{
    let renamed = mapped(table, op);
    let path = renamed[i].item.path;
    lemma_lookup_after_rebuild(renamed, path);
    lemma_lookup_before_rebuild(table, op, path);
}

/// No entity under `key` is generic.
pub open spec fn plain_under(table: Seq<SlotSpec>, key: Seq<char>) -> bool {
    forall|i: int|
        0 <= i < table.len() && (#[trigger] table[i]).key == key
            ==> table[i].item.generic_params.len() == 0
}

/// Whether the table keeps `item` under `key`.
pub open spec fn kept_under(table: Seq<SlotSpec>, key: Seq<char>, item: ItemSpec) -> bool {
    exists|i: int| 0 <= i < table.len() && (#[trigger] table[i]).key == key && table[i].item == item
}

/// What a lookup gives are entities that the table keeps under the key.
pub proof fn lemma_matching(table: Seq<SlotSpec>, key: Seq<char>)
    ensures
        forall|j: int|
            0 <= j < matching(table, key).len() ==> kept_under(
                table,
                key,
                #[trigger] matching(table, key)[j],
            ),
    decreases table.len(),
{
    if table.len() > 0 {
        let front = table.drop_last();
        lemma_matching(front, key);
        assert forall|j: int| 0 <= j < matching(table, key).len() implies kept_under(
            table,
            key,
            #[trigger] matching(table, key)[j],
        ) by {
            if j < matching(front, key).len() {
                assert(matching(table, key)[j] == matching(front, key)[j]);
                assert(kept_under(front, key, matching(front, key)[j]));
                let i = choose|i: int|
                    0 <= i < front.len() && (#[trigger] front[i]).key == key && front[i].item
                        == matching(front, key)[j];
                assert(table[i].key == key);
            } else {
                assert(table[table.len() - 1].key == key);
            }
        }
    }
}

/// A rewrite that renames nothing leaves every entity under its own path.
pub proof fn lemma_mapped_consistent(table: Seq<SlotSpec>, op: ItemOpSpec)
    requires
        consistent(table),
        !(op is Rename),
    ensures
        consistent(mapped(table, op)),
{
    assert forall|i: int| 0 <= i < mapped(table, op).len() implies (#[trigger] mapped(
        table,
        op,
    )[i]).key == mapped(table, op)[i].item.path by {
        assert(table[i].key == table[i].item.path);
    }
}

/// The first entity under a key is an entity that the table keeps under the key.
pub proof fn lemma_first_item(table: Seq<SlotSpec>, key: Seq<char>)
    ensures
        first_item(table, key) is Some ==> kept_under(table, key, first_item(table, key)->0),
    decreases table.len(),
{
    if table.len() > 0 {
        if table[0].key == key {
        } else {
            let rest = table.skip(1);
            lemma_first_item(rest, key);
            if first_item(rest, key) is Some {
                let x = first_item(rest, key)->0;
                let i = choose|i: int|
                    0 <= i < rest.len() && (#[trigger] rest[i]).key == key && rest[i].item == x;
                assert(table[i + 1].key == key);
            }
        }
    }
}

/// An insertion leaves a table valid.
pub proof fn lemma_inserted_valid(table: Seq<SlotSpec>, item: ItemSpec)
    requires
        valid(table),
    ensures
        valid(inserted(table, item)),
{
    lemma_inserted_sorted(table, item);
    if accepts(table, item) {
        lemma_position(table, item.path);
        lemma_first_item(table, item.path);
        lemma_has_key(table, item.path);
        let pos = position(table, item.path);
        let slot = SlotSpec { key: item.path, item };
        let after = table.insert(pos, slot);
        assert forall|i: int, j: int|
            0 <= i < after.len() && 0 <= j < after.len() && i != j && (#[trigger] after[i]).key == (
            #[trigger] after[j]).key implies after[i].item.cfg is Some
            && after[j].item.cfg is Some by {
            let a = if i < pos {
                i
            } else {
                i - 1
            };
            let b = if j < pos {
                j
            } else {
                j - 1
            };
            if i != pos && j != pos {
                assert(after[i] == table[a] && after[j] == table[b]);
            } else {
                let other = if i == pos {
                    b
                } else {
                    a
                };
                assert(table[other].key == item.path);
                let first = first_item(table, item.path)->0;
                let f = choose|f: int|
                    0 <= f < table.len() && (#[trigger] table[f]).key == item.path && table[f].item
                        == first;
                if other != f {
                    assert(table[other].item.cfg is Some);
                }
                if i == pos {
                    assert(after[j] == table[b]);
                } else {
                    assert(after[i] == table[a]);
                }
            }
        }
    }
}

/// A filter leaves a table valid.
pub proof fn lemma_filtered_valid(table: Seq<SlotSpec>, filter: FilterSpec)
    requires
        valid(table),
    ensures
        valid(filtered(table, filter)),
    decreases table.len(),
{
    if table.len() > 0 {
        let front = table.drop_last();
        let last = table.last();
        let kept = filtered(front, filter);
        let after = filtered(table, filter);
        assert(valid(front)) by {
            assert forall|i: int, j: int| 0 <= i < j < front.len() implies name_le(
                front[i].key,
                front[j].key,
            ) by {
                assert(name_le(table[i].key, table[j].key));
            }
            assert forall|i: int, j: int|
                0 <= i < front.len() && 0 <= j < front.len() && i != j && (
                #[trigger] front[i]).key == (#[trigger] front[j]).key implies front[i].item.cfg is Some
                && front[j].item.cfg is Some by {
                assert(table[i].key == table[j].key);
            }
        }
        lemma_filtered_valid(front, filter);
        lemma_filtered(front, filter);
        if !filter.rejects(last.item) {
            assert forall|i: int, j: int| 0 <= i < j < after.len() implies name_le(
                after[i].key,
                after[j].key,
            ) by {
                if j < kept.len() {
                    assert(name_le(kept[i].key, kept[j].key));
                } else {
                    assert(front.contains(kept[i]));
                    let m = choose|m: int| 0 <= m < front.len() && front[m] == kept[i];
                    assert(name_le(table[m].key, table[table.len() - 1].key));
                }
            }
            assert forall|i: int, j: int|
                0 <= i < after.len() && 0 <= j < after.len() && i != j && (
                #[trigger] after[i]).key == (#[trigger] after[j]).key implies after[i].item.cfg is Some
                && after[j].item.cfg is Some by {
                if i < kept.len() && j < kept.len() {
                    assert(kept[i].key == kept[j].key);
                } else {
                    let inner = if i < kept.len() {
                        i
                    } else {
                        j
                    };
                    assert(front.contains(kept[inner]));
                    let m = choose|m: int| 0 <= m < front.len() && front[m] == kept[inner];
                    assert(table[m].key == table[table.len() - 1].key);
                }
            }
        }
    }
}

/// A table stays valid where every slot keeps its key and every entity its condition.
pub proof fn lemma_same_keys_valid(table: Seq<SlotSpec>, after: Seq<SlotSpec>)
    requires
        valid(table),
        after.len() == table.len(),
        forall|i: int|
            0 <= i < table.len() ==> (#[trigger] after[i]).key == table[i].key
                && after[i].item.cfg == table[i].item.cfg,
    ensures
        valid(after),
{
    assert forall|i: int, j: int| 0 <= i < j < after.len() implies name_le(
        after[i].key,
        after[j].key,
    ) by {
        assert(name_le(table[i].key, table[j].key));
    }
    assert forall|i: int, j: int|
        0 <= i < after.len() && 0 <= j < after.len() && i != j && (#[trigger] after[i]).key == (
        #[trigger] after[j]).key implies after[i].item.cfg is Some && after[j].item.cfg is Some by {
        assert(table[i].key == table[j].key);
    }
}

/// A rewrite of the entities leaves a table valid.
pub proof fn lemma_mapped_valid(table: Seq<SlotSpec>, op: ItemOpSpec)
    requires
        valid(table),
    ensures
        valid(mapped(table, op)),
{
    lemma_same_keys_valid(table, mapped(table, op));
}

/// In a valid table an unconditional entity is alone under its key.
pub proof fn lemma_unconditional_alone(table: Seq<SlotSpec>, i: int, j: int)
    requires
        valid(table),
        0 <= i < table.len(),
        0 <= j < table.len(),
        table[i].key == table[j].key,
        table[i].item.cfg is None,
    ensures
        i == j,
{
}

/// Where no key of the table sorts after `key`, `position` points behind the table.
proof fn lemma_position_end(table: Seq<SlotSpec>, key: Seq<char>)
    requires
        forall|i: int| 0 <= i < table.len() ==> name_le((#[trigger] table[i]).key, key),
    ensures
        position(table, key) == table.len(),
    decreases table.len(),
{
    if table.len() > 0 {
        assert(name_le(table[0].key, key));
        let rest = table.skip(1);
        assert forall|i: int| 0 <= i < rest.len() implies name_le((#[trigger] rest[i]).key, key) by {
            assert(rest[i] == table[i + 1]);
        }
        lemma_position_end(rest, key);
    }
}

/// A valid table that keeps every entity under its own path is what `rebuild` makes of it.
pub proof fn lemma_rebuilt_fixed(table: Seq<SlotSpec>)
    requires
        valid(table),
        consistent(table),
    ensures
        rebuilt(table) == table,
    decreases table.len(),
{
    if table.len() == 0 {
        assert(items_of(table) =~= Seq::<ItemSpec>::empty());
        assert(table =~= Seq::<SlotSpec>::empty());
    } else {
        let front = table.drop_last();
        let last = table.last();
        assert(valid(front) && consistent(front)) by {
            assert forall|i: int, j: int| 0 <= i < j < front.len() implies name_le(
                front[i].key,
                front[j].key,
            ) by {
                assert(name_le(table[i].key, table[j].key));
            }
            assert forall|i: int, j: int|
                0 <= i < front.len() && 0 <= j < front.len() && i != j && (
                #[trigger] front[i]).key == (#[trigger] front[j]).key implies front[i].item.cfg is Some
                && front[j].item.cfg is Some by {
                assert(table[i].key == table[j].key);
            }
            assert forall|i: int| 0 <= i < front.len() implies (#[trigger] front[i]).key
                == front[i].item.path by {
                assert(table[i].key == table[i].item.path);
            }
        }
        lemma_rebuilt_fixed(front);
        assert(items_of(table).drop_last() =~= items_of(front));
        assert(items_of(table).last() == last.item);
        assert(last == table[table.len() - 1]);
        assert(last.key == last.item.path);
        lemma_first_item(front, last.key);
        if first_item(front, last.key) is Some {
            let first = first_item(front, last.key)->0;
            let f = choose|f: int|
                0 <= f < front.len() && (#[trigger] front[f]).key == last.key && front[f].item
                    == first;
            assert(table[f].key == table[table.len() - 1].key);
        }
        assert forall|i: int| 0 <= i < front.len() implies name_le(
            (#[trigger] front[i]).key,
            last.key,
        ) by {
            assert(name_le(table[i].key, table[table.len() - 1].key));
        }
        lemma_position_end(front, last.key);
        assert(front.insert(front.len() as int, last) =~= table);
    }
}

/// `rebuild` is idempotent: a second one changes nothing.
pub proof fn lemma_rebuild_idempotent(table: Seq<SlotSpec>)
    ensures
        rebuilt(rebuilt(table)) == rebuilt(table),
{
    lemma_lookup_after_rebuild(table, Seq::empty());
    lemma_rebuilt_fixed(rebuilt(table));
}

/// Every entity of the table is of `kind`.
pub open spec fn of_kind(table: Seq<SlotSpec>, kind: ItemKind) -> bool {
    forall|i: int| 0 <= i < table.len() ==> (#[trigger] table[i]).item.body.kind() == kind
}

/// A filter leaves the kind of the entities of a table.
pub proof fn lemma_filtered_of_kind(table: Seq<SlotSpec>, filter: FilterSpec, kind: ItemKind)
    requires
        of_kind(table, kind),
    ensures
        of_kind(filtered(table, filter), kind),
{
    lemma_filtered(table, filter);
    let after = filtered(table, filter);
    assert forall|j: int| 0 <= j < after.len() implies (#[trigger] after[j]).item.body.kind()
        == kind by {
        let i = choose|i: int| 0 <= i < table.len() && table[i] == after[j];
        assert(table[i].item.body.kind() == kind);
    }
}

/// A rewrite leaves the kind of the entities of a table.
pub proof fn lemma_mapped_of_kind(table: Seq<SlotSpec>, op: ItemOpSpec, kind: ItemKind)
    requires
        of_kind(table, kind),
    ensures
        of_kind(mapped(table, op), kind),
{
    let after = mapped(table, op);
    assert forall|j: int| 0 <= j < after.len() implies (#[trigger] after[j]).item.body.kind()
        == kind by {
        assert(table[j].item.body.kind() == kind);
    }
}

/// An insertion of an entity of the kind of a table leaves the kind of its entities.
pub proof fn lemma_inserted_of_kind(table: Seq<SlotSpec>, item: ItemSpec, kind: ItemKind)
    requires
        of_kind(table, kind),
        item.body.kind() == kind,
    ensures
        of_kind(inserted(table, item), kind),
{
    lemma_inserted_keys(table, item, item.path);
    let after = inserted(table, item);
    assert forall|j: int| 0 <= j < after.len() implies (#[trigger] after[j]).item.body.kind()
        == kind by {
        if table.contains(after[j]) {
            let i = choose|i: int| 0 <= i < table.len() && table[i] == after[j];
            assert(table[i].item.body.kind() == kind);
        }
    }
}

/// `rebuild` leaves the kind of the entities of a table.
pub proof fn lemma_rebuilt_of_kind(table: Seq<SlotSpec>, kind: ItemKind)
    requires
        of_kind(table, kind),
    ensures
        of_kind(rebuilt(table), kind),
    decreases table.len(),
{
    if table.len() > 0 {
        let front = table.drop_last();
        assert(of_kind(front, kind)) by {
            assert forall|i: int| 0 <= i < front.len() implies (
            #[trigger] front[i]).item.body.kind() == kind by {
                assert(front[i] == table[i]);
            }
        }
        lemma_rebuilt_of_kind(front, kind);
        assert(items_of(table).drop_last() =~= items_of(front));
        assert(table[table.len() - 1].item.body.kind() == kind);
        lemma_inserted_of_kind(rebuilt(front), items_of(table).last(), kind);
    }
}

/// A table keeps the kind of its entities where every entity keeps its body.
pub proof fn lemma_same_bodies_of_kind(table: Seq<SlotSpec>, after: Seq<SlotSpec>, kind: ItemKind)
    requires
        of_kind(table, kind),
        after.len() == table.len(),
        forall|i: int| 0 <= i < table.len() ==> (#[trigger] after[i]).item.body == table[i].item.body,
    ensures
        of_kind(after, kind),
{
    assert forall|j: int| 0 <= j < after.len() implies (#[trigger] after[j]).item.body.kind()
        == kind by {
        assert(table[j].item.body.kind() == kind);
    }
}

/// Two of the entities that a lookup gives stand in two slots of the table, in their order.
pub proof fn lemma_matching_pair(table: Seq<SlotSpec>, key: Seq<char>, j1: int, j2: int) -> (r: (
    int,
    int,
))
    requires
        0 <= j1 < j2 < matching(table, key).len(),
    ensures
        0 <= r.0 < r.1 < table.len(),
        table[r.0].key == key,
        table[r.1].key == key,
        table[r.0].item == matching(table, key)[j1],
        table[r.1].item == matching(table, key)[j2],
    decreases table.len(),
{
    let front = table.drop_last();
    if j2 < matching(front, key).len() {
        let r = lemma_matching_pair(front, key, j1, j2);
        assert(front[r.0] == table[r.0] && front[r.1] == table[r.1]);
        r
    } else {
        lemma_matching(front, key);
        let e = matching(front, key)[j1];
        assert(kept_under(front, key, e));
        let i = choose|i: int|
            0 <= i < front.len() && (#[trigger] front[i]).key == key && front[i].item == e;
        assert(front[i] == table[i]);
        (i, table.len() - 1)
    }
}

/// In a valid table, the entities that a lookup gives are all conditional where
/// there is more than one.
pub proof fn lemma_matching_conditional(table: Seq<SlotSpec>, key: Seq<char>, j1: int, j2: int)
    requires
        valid(table),
        0 <= j1 < matching(table, key).len(),
        0 <= j2 < matching(table, key).len(),
        j1 != j2,
    ensures
        matching(table, key)[j1].cfg is Some,
        matching(table, key)[j2].cfg is Some,
{
    if j1 < j2 {
        let r = lemma_matching_pair(table, key, j1, j2);
        assert(table[r.0].key == table[r.1].key);
    } else {
        let r = lemma_matching_pair(table, key, j2, j1);
        assert(table[r.0].key == table[r.1].key);
    }
}

impl ItemMap {
    #[verifier::type_invariant]
    closed spec fn inv(&self) -> bool {
        valid(self@)
    }

    /// An empty table.
    pub fn new() -> (r: ItemMap)
        ensures
            r@ == Seq::<SlotSpec>::empty(),
    {
        let slots: Vec<Slot> = Vec::new();
        assert(views(slots@) =~= Seq::<SlotSpec>::empty());
        ItemMap { slots }
    }

    /// A copy of this table.
    pub fn duplicate(&self) -> (r: ItemMap)
        ensures
            r@ == self@,
    {
        proof {
            use_type_invariant(self);
        }
        let mut slots: Vec<Slot> = Vec::new();
        let mut i: usize = 0;
        while i < self.slots.len()
            invariant
                i <= self.slots.len(),
                slots.len() == i,
                forall|j: int| 0 <= j < i ==> slots[j]@ == self.slots[j]@,
            decreases self.slots.len() - i,
        {
            slots.push(Slot { key: self.slots[i].key.clone(), item: self.slots[i].item.duplicate() });
            i += 1;
        }
        assert(views(slots@) =~= self@);
        ItemMap { slots }
    }

    /// How many entities the table holds.
    pub fn len(&self) -> (r: usize)
        ensures
            r == self@.len(),
            valid(self@),
    {
        proof {
            use_type_invariant(self);
        }
        self.slots.len()
    }

    /// Inserts `item` under its path and says whether the table took it.
    pub fn try_insert(&mut self, item: Item) -> (r: bool)
        ensures
            final(self)@ == inserted(old(self)@, item@),
            r == accepts(old(self)@, item@),
    {
        proof {
            use_type_invariant(&*self);
            lemma_inserted_valid(self@, item@);
        }
        let ghost table = self@;
        let n = self.slots.len();
        let mut first: usize = 0;
        assert(table.skip(0) =~= table);
        while first < n && !(self.slots[first].key == item.path)
            invariant
                first <= n,
                n == self.slots.len(),
                table == self@,
                first_item(table, item@.path) == first_item(table.skip(first as int), item@.path),
            decreases n - first,
        {
            assert(table.skip(first as int)[0] == table[first as int]);
            assert(table.skip(first as int).skip(1) =~= table.skip(first + 1));
            first += 1;
        }
        if first < n {
            assert(table.skip(first as int)[0] == table[first as int]);
            if !(item.cfg.is_some() && self.slots[first].item.cfg.is_some()) {
                return false;
            }
        }
        let mut pos: usize = 0;
        while pos < n && !name_before(&item.path, &self.slots[pos].key)
            invariant
                pos <= n,
                n == self.slots.len(),
                table == self@,
                position(table, item@.path) == pos + position(table.skip(pos as int), item@.path),
            decreases n - pos,
        {
            assert(table.skip(pos as int)[0] == table[pos as int]);
            assert(table.skip(pos as int).skip(1) =~= table.skip(pos + 1));
            pos += 1;
        }
        proof {
            if pos < n {
                assert(table.skip(pos as int)[0] == table[pos as int]);
            }
        }
        let slot = Slot { key: item.path.clone(), item };
        let mut slots: Vec<Slot> = Vec::new();
        assert(views(slots@) =~= Seq::<SlotSpec>::empty());
        core::mem::swap(&mut slots, &mut self.slots);
        assert(views(slots@.insert(pos as int, slot)) =~= table.insert(pos as int, slot@));
        slots.insert(pos, slot);
        self.slots = slots;
        true
    }

    /// The entities kept under `key`, where there are any.
    pub fn get_items(&self, key: &String) -> (r: Option<Vec<Item>>)
        ensures
            match r {
                Some(items) => lookup(self@, key@) == Some(views(items@)),
                None => lookup(self@, key@) is None,
            },
    {
        let mut out: Vec<Item> = Vec::new();
        let mut i: usize = 0;
        let ghost table = self@;
        assert(table.take(0) =~= Seq::<SlotSpec>::empty());
        assert(views(out@) =~= Seq::<ItemSpec>::empty());
        while i < self.slots.len()
            invariant
                i <= self.slots.len(),
                table == self@,
                views(out@) == matching(table.take(i as int), key@),
            decreases self.slots.len() - i,
        {
            assert(table.take(i + 1).drop_last() =~= table.take(i as int));
            assert(table.take(i + 1).last() == table[i as int]);
            if self.slots[i].key == *key {
                let ghost before = views(out@);
                out.push(self.slots[i].item.duplicate());
                assert(views(out@) =~= before.push(table[i as int].item));
            }
            i += 1;
        }
        assert(table.take(i as int) =~= table);
        proof {
            lemma_has_key(table, key@);
        }
        if out.len() == 0 {
            None
        } else {
            Some(out)
        }
    }

    /// Whether the table keeps an entity under `key`.
    pub fn contains_key(&self, key: &String) -> (r: bool)
        ensures
            r == has_key(self@, key@),
    {
        let mut i: usize = 0;
        let ghost table = self@;
        assert(table.skip(0) =~= table);
        while i < self.slots.len()
            invariant
                i <= self.slots.len(),
                table == self@,
                first_item(table, key@) == first_item(table.skip(i as int), key@),
            decreases self.slots.len() - i,
        {
            assert(table.skip(i as int)[0] == table[i as int]);
            if self.slots[i].key == *key {
                return true;
            }
            assert(table.skip(i as int).skip(1) =~= table.skip(i + 1));
            i += 1;
        }
        false
    }

    /// The entities of the table, in the order of their keys.
    pub fn to_vec(&self) -> (r: Vec<Item>)
        ensures
            views(r@) == items_of(self@),
            valid(self@),
    {
        proof {
            use_type_invariant(self);
        }
        let mut out: Vec<Item> = Vec::new();
        let mut i: usize = 0;
        while i < self.slots.len()
            invariant
                i <= self.slots.len(),
                out.len() == i,
                forall|j: int| 0 <= j < i ==> out[j]@ == self@[j].item,
            decreases self.slots.len() - i,
        {
            out.push(self.slots[i].item.duplicate());
            i += 1;
        }
        assert(views(out@) =~= items_of(self@));
        out
    }

    /// Indexes the table anew, by the paths that its entities have now.
    pub fn rebuild(&mut self)
        ensures
            final(self)@ == rebuilt(old(self)@),
    {
        let mut fresh = ItemMap::new();
        let mut i: usize = 0;
        let ghost items = items_of(self@);
        assert(items.take(0) =~= Seq::<ItemSpec>::empty());
        while i < self.slots.len()
            invariant
                i <= self.slots.len(),
                self@ == old(self)@,
                items == items_of(self@),
                fresh@ == built(items.take(i as int)),
            decreases self.slots.len() - i,
        {
            assert(items.take(i + 1).drop_last() =~= items.take(i as int));
            assert(items.take(i + 1).last() == self@[i as int].item);
            fresh.try_insert(self.slots[i].item.duplicate());
            i += 1;
        }
        assert(items.take(i as int) =~= items);
        *self = fresh;
    }

    /// Removes the entities that `filter` removes.
    pub fn filter(&mut self, filter: &Filter)
        ensures
            final(self)@ == filtered(old(self)@, filter@),
    {
        proof {
            use_type_invariant(&*self);
        }
        let ghost table = self@;
        let mut kept: Vec<Slot> = Vec::new();
        let mut i: usize = 0;
        assert(table.take(0) =~= Seq::<SlotSpec>::empty());
        assert(views(kept@) =~= Seq::<SlotSpec>::empty());
        while i < self.slots.len()
            invariant
                i <= self.slots.len(),
                table == self@,
                views(kept@) == filtered(table.take(i as int), filter@),
            decreases self.slots.len() - i,
        {
            assert(table.take(i + 1).drop_last() =~= table.take(i as int));
            assert(table.take(i + 1).last() == table[i as int]);
            let item = &self.slots[i].item;
            let rejected = match filter {
                Filter::Named(names) => contains_name(names, &item.path),
                Filter::Generic => item.generic_params.len() > 0,
            };
            if !rejected {
                let ghost before = views(kept@);
                kept.push(Slot { key: self.slots[i].key.clone(), item: item.duplicate() });
                assert(views(kept@) =~= before.push(table[i as int]));
            }
            i += 1;
        }
        assert(table.take(i as int) =~= table);
        proof {
            lemma_filtered_valid(table, filter@);
        }
        self.slots = kept;
    }

    /// Applies `op` to every entity. The keys stay as they are.
    pub fn map_items(&mut self, op: &ItemOp)
        ensures
            final(self)@ == mapped(old(self)@, op@),
    {
        proof {
            use_type_invariant(&*self);
        }
        let ghost table = self@;
        let mut done: Vec<Slot> = Vec::new();
        let mut i: usize = 0;
        while i < self.slots.len()
            invariant
                i <= self.slots.len(),
                table == self@,
                done.len() == i,
                forall|j: int|
                    0 <= j < i ==> done[j]@ == (SlotSpec {
                        key: table[j].key,
                        item: table[j].item.applied(op@),
                    }),
            decreases self.slots.len() - i,
        {
            done.push(Slot { key: self.slots[i].key.clone(), item: self.slots[i].item.apply(op) });
            i += 1;
        }
        assert(views(done@) =~= mapped(table, op@));
        proof {
            lemma_mapped_valid(table, op@);
        }
        self.slots = done;
    }

    /// Takes from each entity that makes a claim its annotations, and returns the claims.
    pub fn release_claims(&mut self) -> (r: Vec<Claim>)
        ensures
            final(self)@ == released(old(self)@),
            views(r@) == claimed(items_of(old(self)@)),
    {
        proof {
            use_type_invariant(&*self);
        }
        let ghost table = self@;
        let ghost items = items_of(table);
        let mut done: Vec<Slot> = Vec::new();
        let mut claims: Vec<Claim> = Vec::new();
        let mut i: usize = 0;
        assert(items.take(0) =~= Seq::<ItemSpec>::empty());
        assert(views(claims@) =~= Seq::<ClaimSpec>::empty());
        while i < self.slots.len()
            invariant
                i <= self.slots.len(),
                table == self@,
                items == items_of(table),
                done.len() == i,
                views(claims@) == claimed(items.take(i as int)),
                forall|j: int| 0 <= j < i ==> done[j]@ == released(table)[j],
            decreases self.slots.len() - i,
        {
            assert(items.take(i + 1).drop_last() =~= items.take(i as int));
            assert(items.take(i + 1).last() == table[i as int].item);
            let item = &self.slots[i].item;
            let ghost earlier = views(claims@);
            let mut gave = false;
            if item.annotations.len() > 0 {
                match item.alias_target() {
                    Some(target) => {
                        let mut k: usize = 0;
                        let mut taken = false;
                        while k < claims.len()
                            invariant
                                k <= claims.len(),
                                earlier == views(claims@),
                                taken == exists|c: int|
                                    0 <= c < k && (#[trigger] earlier[c]).target == target@,
                            decreases claims.len() - k,
                        {
                            if claims[k].target == target {
                                assert(earlier[k as int].target == target@);
                                taken = true;
                            }
                            k += 1;
                        }
                        if !taken {
                            claims.push(
                                Claim { target, annotations: copy_annotations(&item.annotations) },
                            );
                            assert(views(claims@) =~= claimed(items.take(i + 1)));
                            gave = true;
                        }
                    },
                    None => {},
                }
            }
            assert(gave == gives(earlier, table[i as int].item));
            let empty: Vec<Annotation> = Vec::new();
            assert(views(empty@) =~= Seq::<(Seq<char>, Seq<char>)>::empty());
            let after = if gave {
                item.with_annotations(&empty)
            } else {
                item.duplicate()
            };
            done.push(Slot { key: self.slots[i].key.clone(), item: after });
            i += 1;
        }
        assert(items.take(i as int) =~= items);
        assert(views(done@) =~= released(table));
        proof {
            lemma_same_keys_valid(table, released(table));
        }
        self.slots = done;
        claims
    }

    /// Installs `annotations` on the entities under `key` that have none.
    pub fn install(&mut self, key: &String, annotations: &Vec<Annotation>) -> (r: Installed)
        ensures
            final(self)@ == installed(old(self)@, key@, views(annotations@)),
            r.matched == has_key(old(self)@, key@),
            r.refused == annotated(old(self)@, key@),
    {
        proof {
            use_type_invariant(&*self);
        }
        let ghost table = self@;
        let mut done: Vec<Slot> = Vec::new();
        let mut matched = false;
        let mut refused = false;
        let mut i: usize = 0;
        while i < self.slots.len()
            invariant
                i <= self.slots.len(),
                table == self@,
                done.len() == i,
                forall|j: int|
                    0 <= j < i ==> done[j]@ == installed(table, key@, views(annotations@))[j],
                matched == exists|j: int| 0 <= j < i && (#[trigger] table[j]).key == key@,
                refused == exists|j: int|
                    0 <= j < i && (#[trigger] table[j]).key == key@
                        && table[j].item.annotations.len() > 0,
            decreases self.slots.len() - i,
        {
            let slot = &self.slots[i];
            let same = slot.key == *key;
            let after = if same && slot.item.annotations.len() == 0 {
                slot.item.with_annotations(annotations)
            } else {
                slot.item.duplicate()
            };
            if same {
                assert(table[i as int].key == key@);
                matched = true;
                if slot.item.annotations.len() > 0 {
                    refused = true;
                }
            }
            done.push(Slot { key: slot.key.clone(), item: after });
            i += 1;
        }
        assert(views(done@) =~= installed(table, key@, views(annotations@)));
        proof {
            lemma_has_key(table, key@);
            lemma_same_keys_valid(table, installed(table, key@, views(annotations@)));
        }
        self.slots = done;
        Installed { matched, refused }
    }
}

} // verus!
