//! The declared entities: constants, globals, enums, structs, unions, opaque items,
//! type aliases and functions.

use vstd::prelude::*;
use crate::mangle::{mangle_path, mangled};
use crate::names::{copy_names, name_views};
use crate::rename::{RenameRules, RenameRulesSpec};
use crate::resolver::CTypeResolver;
use crate::ty::{
    from_uses, lemma_from_uses_add, lemma_mangled_binds_nothing, lemma_mangled_uses,
    lemma_mangled_uses_all, lemma_resolved_binds_nothing, lemma_resolved_uses,
    lemma_resolved_uses_all, same_names, use_views, PathUse, PathUseSpec, Tag, Type, TypeOp,
    TypeOpSpec, TypeSpec,
};

verus! {

/// The views of a list of values.
pub open spec fn views<T: View>(values: Seq<T>) -> Seq<T::V> {
    Seq::new(values.len(), |i: int| values[i]@)
}

/// One key and value of the metadata that steers how an entity is generated.
#[derive(Debug, PartialEq, Eq)]
pub struct Annotation {
    pub key: String,
    pub value: String,
}

impl View for Annotation {
    type V = (Seq<char>, Seq<char>);

    open spec fn view(&self) -> (Seq<char>, Seq<char>) {
        (self.key@, self.value@)
    }
}

/// A named member with its type: a field of an aggregate or a parameter of a function.
#[derive(Debug, PartialEq, Eq)]
pub struct Field {
    pub name: String,
    pub ty: Type,
}

/// The mathematical model of `Field`.
pub struct FieldSpec {
    pub name: Seq<char>,
    pub ty: TypeSpec,
}

impl View for Field {
    type V = FieldSpec;

    open spec fn view(&self) -> FieldSpec {
        FieldSpec { name: self.name@, ty: self.ty@ }
    }
}

/// A variant of an enum, with the data it carries, if any.
#[derive(Debug, PartialEq, Eq)]
pub struct Variant {
    pub name: String,
    pub payload: Option<Type>,
}

/// The mathematical model of `Variant`.
pub struct VariantSpec {
    pub name: Seq<char>,
    pub payload: Option<TypeSpec>,
}

impl View for Variant {
    type V = VariantSpec;

    open spec fn view(&self) -> VariantSpec {
        VariantSpec {
            name: self.name@,
            payload: match self.payload {
                Some(t) => Some(t@),
                None => None,
            },
        }
    }
}

/// The kinds of entity that a symbol table holds.
#[derive(Clone, Copy, PartialEq, Eq, Structural, Debug)]
pub enum ItemKind {
    Constant,
    Static,
    Enum,
    Struct,
    Union,
    Opaque,
    Typedef,
}

impl ItemKind {
    /// Whether an entity of this kind is a type.
    pub open spec fn spec_is_type(self) -> bool {
        !(self is Constant || self is Static)
    }

    /// Whether an entity of this kind is a type.
    #[verifier::when_used_as_spec(spec_is_type)]
    pub fn is_type(self) -> (r: bool)
        ensures
            r == self.spec_is_type(),
    {
        match self {
            ItemKind::Constant => false,
            ItemKind::Static => false,
            _ => true,
        }
    }

    /// The keyword that a reference to an aggregate of this kind carries.
    pub open spec fn spec_tag(self) -> Option<Tag> {
        match self {
            ItemKind::Struct => Some(Tag::Struct),
            ItemKind::Opaque => Some(Tag::Struct),
            ItemKind::Enum => Some(Tag::Enum),
            ItemKind::Union => Some(Tag::Union),
            _ => None,
        }
    }

    /// The keyword that a reference to an aggregate of this kind carries.
    #[verifier::when_used_as_spec(spec_tag)]
    pub fn tag(self) -> (r: Option<Tag>)
        ensures
            r == self.spec_tag(),
    {
        match self {
            ItemKind::Struct => Some(Tag::Struct),
            ItemKind::Opaque => Some(Tag::Struct),
            ItemKind::Enum => Some(Tag::Enum),
            ItemKind::Union => Some(Tag::Union),
            _ => None,
        }
    }
}

/// What an entity holds besides what all entities hold.
#[derive(Debug, PartialEq, Eq)]
pub enum ItemBody {
    Constant { ty: Type, value: String },
    Static { ty: Type, mutable: bool },
    Enum { variants: Vec<Variant> },
    Struct { fields: Vec<Field> },
    Union { fields: Vec<Field> },
    Opaque,
    Typedef { aliased: Type },
}

/// The mathematical model of `ItemBody`.
pub enum BodySpec {
    Constant { ty: TypeSpec, value: Seq<char> },
    Static { ty: TypeSpec, mutable: bool },
    Enum { variants: Seq<VariantSpec> },
    Struct { fields: Seq<FieldSpec> },
    Union { fields: Seq<FieldSpec> },
    Opaque,
    Typedef { aliased: TypeSpec },
}

impl View for ItemBody {
    type V = BodySpec;

    open spec fn view(&self) -> BodySpec {
        match self {
            ItemBody::Constant { ty, value } => BodySpec::Constant { ty: ty@, value: value@ },
            ItemBody::Static { ty, mutable } => BodySpec::Static { ty: ty@, mutable: *mutable },
            ItemBody::Enum { variants } => BodySpec::Enum { variants: views(variants@) },
            ItemBody::Struct { fields } => BodySpec::Struct { fields: views(fields@) },
            ItemBody::Union { fields } => BodySpec::Union { fields: views(fields@) },
            ItemBody::Opaque => BodySpec::Opaque,
            ItemBody::Typedef { aliased } => BodySpec::Typedef { aliased: aliased@ },
        }
    }
}

/// A declared entity other than a function.
#[derive(Debug, PartialEq, Eq)]
pub struct Item {
    pub path: String,
    /// The condition under which the entity exists, where it is conditional.
    pub cfg: Option<String>,
    pub generic_params: Vec<String>,
    pub annotations: Vec<Annotation>,
    pub body: ItemBody,
}

/// The mathematical model of `Item`.
pub struct ItemSpec {
    pub path: Seq<char>,
    pub cfg: Option<Seq<char>>,
    pub generic_params: Seq<Seq<char>>,
    pub annotations: Seq<(Seq<char>, Seq<char>)>,
    pub body: BodySpec,
}

impl View for Item {
    type V = ItemSpec;

    open spec fn view(&self) -> ItemSpec {
        ItemSpec {
            path: self.path@,
            cfg: match self.cfg {
                Some(c) => Some(c@),
                None => None,
            },
            generic_params: name_views(self.generic_params@),
            annotations: views(self.annotations@),
            body: self.body@,
        }
    }
}

/// A declared function.
#[derive(Debug, PartialEq, Eq)]
pub struct Function {
    pub path: String,
    pub cfg: Option<String>,
    pub annotations: Vec<Annotation>,
    pub args: Vec<Field>,
    pub ret: Type,
}

/// The mathematical model of `Function`.
pub struct FunctionSpec {
    pub path: Seq<char>,
    pub cfg: Option<Seq<char>>,
    pub annotations: Seq<(Seq<char>, Seq<char>)>,
    pub args: Seq<FieldSpec>,
    pub ret: TypeSpec,
}

impl View for Function {
    type V = FunctionSpec;

    open spec fn view(&self) -> FunctionSpec {
        FunctionSpec {
            path: self.path@,
            cfg: match self.cfg {
                Some(c) => Some(c@),
                None => None,
            },
            annotations: views(self.annotations@),
            args: views(self.args@),
            ret: self.ret@,
        }
    }
}

/// A rewrite of entities.
pub enum ItemOp<'a> {
    /// Every optional pointer in a type becomes a nullable pointer.
    Simplify,
    /// The entity and every path in its types get their exposed names.
    Rename(&'a RenameRules),
    /// Every path in a type gets the keyword that the registry holds for it.
    Resolve(&'a CTypeResolver),
    /// Every path with generic arguments becomes the mangled path of that instance.
    Mangle,
}

/// The mathematical model of `ItemOp`.
pub enum ItemOpSpec {
    Simplify,
    Rename(RenameRulesSpec),
    Resolve(Seq<(Seq<char>, Tag)>),
    Mangle,
}

impl<'a> View for ItemOp<'a> {
    type V = ItemOpSpec;

    open spec fn view(&self) -> ItemOpSpec {
        match self {
            ItemOp::Simplify => ItemOpSpec::Simplify,
            ItemOp::Rename(rules) => ItemOpSpec::Rename(rules@),
            ItemOp::Resolve(resolver) => ItemOpSpec::Resolve(resolver@),
            ItemOp::Mangle => ItemOpSpec::Mangle,
        }
    }
}

impl ItemOpSpec {
    /// The rewrite of the types of an entity with these generic parameters.
    pub open spec fn on_types(self, generic_params: Seq<Seq<char>>) -> TypeOpSpec {
        match self {
            ItemOpSpec::Simplify => TypeOpSpec::Simplify,
            ItemOpSpec::Rename(rules) => TypeOpSpec::Rename { rules, generic_params },
            ItemOpSpec::Resolve(registry) => TypeOpSpec::Resolve { registry },
            ItemOpSpec::Mangle => TypeOpSpec::Mangle,
        }
    }

    /// The path that the rewrite gives to an entity called `path`.
    pub open spec fn on_path(self, path: Seq<char>, is_type: bool) -> Seq<char> {
        match self {
            ItemOpSpec::Rename(rules) => rules.renamed(path, is_type),
            _ => path,
        }
    }
}

/// The types of `fields`, in order.
pub open spec fn field_types(fields: Seq<FieldSpec>) -> Seq<TypeSpec> {
    Seq::new(fields.len(), |i: int| fields[i].ty)
}

/// The types that `variants` carry, in order.
pub open spec fn variant_types(variants: Seq<VariantSpec>) -> Seq<TypeSpec>
    decreases variants.len(),
{
    if variants.len() == 0 {
        Seq::empty()
    } else {
        match variants.last().payload {
            Some(t) => variant_types(variants.drop_last()).push(t),
            None => variant_types(variants.drop_last()),
        }
    }
}

/// `fields` with the type of each rewritten.
pub open spec fn rewritten_fields(fields: Seq<FieldSpec>, op: TypeOpSpec) -> Seq<FieldSpec> {
    Seq::new(
        fields.len(),
        |i: int| FieldSpec { name: fields[i].name, ty: fields[i].ty.rewritten(op) },
    )
}

/// `variants` with the type that each carries rewritten.
pub open spec fn rewritten_variants(variants: Seq<VariantSpec>, op: TypeOpSpec) -> Seq<
    VariantSpec,
> {
    Seq::new(
        variants.len(),
        |i: int|
            VariantSpec {
                name: variants[i].name,
                payload: match variants[i].payload {
                    Some(t) => Some(t.rewritten(op)),
                    None => None,
                },
            },
    )
}

impl BodySpec {
    /// The kind of entity that has this body.
    pub open spec fn kind(self) -> ItemKind {
        match self {
            BodySpec::Constant { .. } => ItemKind::Constant,
            BodySpec::Static { .. } => ItemKind::Static,
            BodySpec::Enum { .. } => ItemKind::Enum,
            BodySpec::Struct { .. } => ItemKind::Struct,
            BodySpec::Union { .. } => ItemKind::Union,
            BodySpec::Opaque => ItemKind::Opaque,
            BodySpec::Typedef { .. } => ItemKind::Typedef,
        }
    }

    /// The type expressions in this body, in order.
    pub open spec fn types(self) -> Seq<TypeSpec> {
        match self {
            BodySpec::Constant { ty, value } => seq![ty],
            BodySpec::Static { ty, mutable } => seq![ty],
            BodySpec::Enum { variants } => variant_types(variants),
            BodySpec::Struct { fields } => field_types(fields),
            BodySpec::Union { fields } => field_types(fields),
            BodySpec::Opaque => Seq::empty(),
            BodySpec::Typedef { aliased } => seq![aliased],
        }
    }

    /// This body with every type expression rewritten.
    pub open spec fn rewritten(self, op: TypeOpSpec) -> BodySpec {
        match self {
            BodySpec::Constant { ty, value } => BodySpec::Constant { ty: ty.rewritten(op), value },
            BodySpec::Static { ty, mutable } => BodySpec::Static { ty: ty.rewritten(op), mutable },
            BodySpec::Enum { variants } => BodySpec::Enum {
                variants: rewritten_variants(variants, op),
            },
            BodySpec::Struct { fields } => BodySpec::Struct { fields: rewritten_fields(fields, op) },
            BodySpec::Union { fields } => BodySpec::Union { fields: rewritten_fields(fields, op) },
            BodySpec::Opaque => BodySpec::Opaque,
            BodySpec::Typedef { aliased } => BodySpec::Typedef { aliased: aliased.rewritten(op) },
        }
    }
}

impl ItemSpec {
    /// The path occurrences in the types of this entity. A member of an entity
    /// needs the complete definition of its type.
    pub open spec fn uses(self) -> Seq<PathUseSpec> {
        TypeSpec::uses_all(self.body.types(), true)
    }

    /// Whether no path in the types of this entity binds generic arguments.
    pub open spec fn binds_nothing(self) -> bool {
        forall|i: int|
            0 <= i < self.body.types().len() ==> (#[trigger] self.body.types()[i]).binds_nothing()
    }

    /// This entity after the rewrite `op`.
    pub open spec fn applied(self, op: ItemOpSpec) -> ItemSpec {
        ItemSpec {
            path: op.on_path(self.path, self.body.kind().is_type()),
            cfg: self.cfg,
            generic_params: self.generic_params,
            annotations: self.annotations,
            body: self.body.rewritten(op.on_types(self.generic_params)),
        }
    }

    /// The concrete instance of this generic entity with `arguments` bound to its
    /// parameters: it has the mangled path and no parameters.
    pub open spec fn instantiated(self, arguments: Seq<TypeSpec>) -> ItemSpec {
        ItemSpec {
            path: mangled(self.path, arguments),
            cfg: self.cfg,
            generic_params: Seq::empty(),
            annotations: self.annotations,
            body: self.body.rewritten(
                TypeOpSpec::Specialize { generic_params: self.generic_params, arguments },
            ),
        }
    }

    /// The path that this entity names, where it is an alias with a type that names one.
    pub open spec fn alias_target(self) -> Option<Seq<char>> {
        match self.body {
            BodySpec::Typedef { aliased } => aliased.root_path(),
            _ => None,
        }
    }

    /// This entity with other annotations.
    pub open spec fn with_annotations(self, annotations: Seq<(Seq<char>, Seq<char>)>) -> ItemSpec {
        ItemSpec {
            path: self.path,
            cfg: self.cfg,
            generic_params: self.generic_params,
            annotations,
            body: self.body,
        }
    }
}

impl FunctionSpec {
    /// The path occurrences in the signature, those of the result first.
    pub open spec fn uses(self) -> Seq<PathUseSpec> {
        self.ret.uses(true) + TypeSpec::uses_all(field_types(self.args), true)
    }

    /// Whether no path in the signature binds generic arguments.
    pub open spec fn binds_nothing(self) -> bool {
        self.ret.binds_nothing() && forall|i: int|
            0 <= i < self.args.len() ==> (#[trigger] self.args[i]).ty.binds_nothing()
    }

    /// This function after the rewrite `op`.
    pub open spec fn applied(self, op: ItemOpSpec) -> FunctionSpec {
        FunctionSpec {
            path: op.on_path(self.path, false),
            cfg: self.cfg,
            annotations: self.annotations,
            args: rewritten_fields(self.args, op.on_types(Seq::empty())),
            ret: self.ret.rewritten(op.on_types(Seq::empty())),
        }
    }
}

/// A copy of an optional name.
pub fn copy_option(name: &Option<String>) -> (r: Option<String>)
    ensures
        match r {
            Some(s) => name is Some && s@ == name->0@,
            None => name is None,
        },
{
    match name {
        Some(s) => Some(s.clone()),
        None => None,
    }
}

/// A copy of a list of annotations.
pub fn copy_annotations(annotations: &Vec<Annotation>) -> (r: Vec<Annotation>)
    ensures
        views(r@) == views(annotations@),
{
    let mut out: Vec<Annotation> = Vec::new();
    let mut i: usize = 0;
    while i < annotations.len()
        invariant
            i <= annotations.len(),
            out.len() == i,
            forall|j: int| 0 <= j < i ==> out[j]@ == annotations[j]@,
        decreases annotations.len() - i,
    {
        out.push(
            Annotation { key: annotations[i].key.clone(), value: annotations[i].value.clone() },
        );
        i += 1;
    }
    assert(views(out@) =~= views(annotations@));
    out
}

/// `fields` with the type of each rewritten; a copy where `op` is `None`.
fn map_fields(fields: &Vec<Field>, op: Option<&TypeOp>) -> (r: Vec<Field>)
    ensures
        views(r@) == match op {
            Some(o) => rewritten_fields(views(fields@), o@),
            None => views(fields@),
        },
{
    let mut out: Vec<Field> = Vec::new();
    let mut i: usize = 0;
    while i < fields.len()
        invariant
            i <= fields.len(),
            out.len() == i,
            forall|j: int|
                0 <= j < i ==> out[j]@ == match op {
                    Some(o) => FieldSpec { name: fields[j].name@, ty: fields[j].ty@.rewritten(o@) },
                    None => fields[j]@,
                },
        decreases fields.len() - i,
    {
        let ty = match op {
            Some(o) => fields[i].ty.rewritten(o),
            None => fields[i].ty.duplicate(),
        };
        out.push(Field { name: fields[i].name.clone(), ty });
        i += 1;
    }
    assert(views(out@) =~= match op {
        Some(o) => rewritten_fields(views(fields@), o@),
        None => views(fields@),
    });
    out
}

/// `variants` with the type that each carries rewritten; a copy where `op` is `None`.
fn map_variants(variants: &Vec<Variant>, op: Option<&TypeOp>) -> (r: Vec<Variant>)
    ensures
        views(r@) == match op {
            Some(o) => rewritten_variants(views(variants@), o@),
            None => views(variants@),
        },
{
    let mut out: Vec<Variant> = Vec::new();
    let mut i: usize = 0;
    while i < variants.len()
        invariant
            i <= variants.len(),
            out.len() == i,
            forall|j: int|
                0 <= j < i ==> out[j]@ == match op {
                    Some(o) => VariantSpec {
                        name: variants[j].name@,
                        payload: match variants[j]@.payload {
                            Some(t) => Some(t.rewritten(o@)),
                            None => None,
                        },
                    },
                    None => variants[j]@,
                },
        decreases variants.len() - i,
    {
        let payload = match &variants[i].payload {
            Some(t) => match op {
                Some(o) => Some(t.rewritten(o)),
                None => Some(t.duplicate()),
            },
            None => None,
        };
        out.push(Variant { name: variants[i].name.clone(), payload });
        i += 1;
    }
    assert(views(out@) =~= match op {
        Some(o) => rewritten_variants(views(variants@), o@),
        None => views(variants@),
    });
    out
}

impl ItemBody {
    /// The kind of entity that has this body.
    pub fn kind(&self) -> (r: ItemKind)
        ensures
            r == self@.kind(),
    {
        match self {
            ItemBody::Constant { .. } => ItemKind::Constant,
            ItemBody::Static { .. } => ItemKind::Static,
            ItemBody::Enum { .. } => ItemKind::Enum,
            ItemBody::Struct { .. } => ItemKind::Struct,
            ItemBody::Union { .. } => ItemKind::Union,
            ItemBody::Opaque => ItemKind::Opaque,
            ItemBody::Typedef { .. } => ItemKind::Typedef,
        }
    }

    /// This body with every type expression rewritten; a copy where `op` is `None`.
    fn map(&self, op: Option<&TypeOp>) -> (r: ItemBody)
        ensures
            r@ == match op {
                Some(o) => self@.rewritten(o@),
                None => self@,
            },
    {
        match self {
            ItemBody::Constant { ty, value } => ItemBody::Constant {
                ty: match op {
                    Some(o) => ty.rewritten(o),
                    None => ty.duplicate(),
                },
                value: value.clone(),
            },
            ItemBody::Static { ty, mutable } => ItemBody::Static {
                ty: match op {
                    Some(o) => ty.rewritten(o),
                    None => ty.duplicate(),
                },
                mutable: *mutable,
            },
            ItemBody::Enum { variants } => ItemBody::Enum { variants: map_variants(variants, op) },
            ItemBody::Struct { fields } => ItemBody::Struct { fields: map_fields(fields, op) },
            ItemBody::Union { fields } => ItemBody::Union { fields: map_fields(fields, op) },
            ItemBody::Opaque => ItemBody::Opaque,
            ItemBody::Typedef { aliased } => ItemBody::Typedef {
                aliased: match op {
                    Some(o) => aliased.rewritten(o),
                    None => aliased.duplicate(),
                },
            },
        }
    }

    /// Appends to `out` the path occurrences in the types of this body.
    fn collect_uses(&self, out: &mut Vec<PathUse>)
        ensures
            use_views(final(out)@) == use_views(old(out)@) + TypeSpec::uses_all(
                self@.types(),
                true,
            ),
    {
        match self {
            ItemBody::Constant { ty, value } => {
                ty.collect_uses(true, out);
                proof {
                    lemma_uses_single(ty@, true);
                }
            },
            ItemBody::Static { ty, mutable } => {
                ty.collect_uses(true, out);
                proof {
                    lemma_uses_single(ty@, true);
                }
            },
            ItemBody::Enum { variants } => {
                let mut i: usize = 0;
                assert(views(variants@).take(0) =~= Seq::<VariantSpec>::empty());
                assert(use_views(out@) =~= use_views(old(out)@) + Seq::<PathUseSpec>::empty());
                while i < variants.len()
                    invariant
                        i <= variants.len(),
                        use_views(out@) == use_views(old(out)@) + TypeSpec::uses_all(
                            variant_types(views(variants@).take(i as int)),
                            true,
                        ),
                    decreases variants.len() - i,
                {
                    let ghost all = views(variants@);
                    let ghost before = variant_types(all.take(i as int));
                    assert(all.take(i + 1).drop_last() =~= all.take(i as int));
                    assert(all.take(i + 1).last() == variants[i as int]@);
                    match &variants[i].payload {
                        Some(t) => {
                            t.collect_uses(true, out);
                            assert(before.push(t@).drop_last() =~= before);
                            assert(use_views(out@) =~= use_views(old(out)@) + TypeSpec::uses_all(
                                before.push(t@),
                                true,
                            ));
                        },
                        None => {},
                    }
                    i += 1;
                }
                assert(views(variants@).take(i as int) =~= views(variants@));
            },
            ItemBody::Struct { fields } => {
                collect_field_uses(fields, out);
            },
            ItemBody::Union { fields } => {
                collect_field_uses(fields, out);
            },
            ItemBody::Opaque => {
                assert(use_views(out@) =~= use_views(old(out)@) + Seq::<PathUseSpec>::empty());
            },
            ItemBody::Typedef { aliased } => {
                aliased.collect_uses(true, out);
                proof {
                    lemma_uses_single(aliased@, true);
                }
            },
        }
    }
}

/// The path occurrences in a list of one type are those of the type.
pub proof fn lemma_uses_single(t: TypeSpec, by_value: bool)
    ensures
        TypeSpec::uses_all(seq![t], by_value) == t.uses(by_value),
{
    assert(seq![t].drop_last() =~= Seq::<TypeSpec>::empty());
    assert(seq![t].last() == t);
    assert(TypeSpec::uses_all(Seq::<TypeSpec>::empty(), by_value) =~= Seq::<PathUseSpec>::empty());
    assert(TypeSpec::uses_all(seq![t], by_value) =~= t.uses(by_value));
}

/// Appends to `out` the path occurrences in the types of `fields`.
fn collect_field_uses(fields: &Vec<Field>, out: &mut Vec<PathUse>)
    ensures
        use_views(final(out)@) == use_views(old(out)@) + TypeSpec::uses_all(
            field_types(views(fields@)),
            true,
        ),
{
    let mut i: usize = 0;
    let ghost types = field_types(views(fields@));
    assert(types.take(0) =~= Seq::<TypeSpec>::empty());
    assert(use_views(out@) =~= use_views(old(out)@) + Seq::<PathUseSpec>::empty());
    while i < fields.len()
        invariant
            i <= fields.len(),
            types == field_types(views(fields@)),
            use_views(out@) == use_views(old(out)@) + TypeSpec::uses_all(
                types.take(i as int),
                true,
            ),
        decreases fields.len() - i,
    {
        fields[i].ty.collect_uses(true, out);
        proof {
            assert(types.take(i + 1).drop_last() =~= types.take(i as int));
            assert(types.take(i + 1).last() == fields[i as int].ty@);
            assert(use_views(out@) =~= use_views(old(out)@) + TypeSpec::uses_all(
                types.take(i + 1),
                true,
            ));
        }
        i += 1;
    }
    assert(types.take(i as int) =~= types);
}

impl<'a> ItemOp<'a> {
    /// The path that the rewrite gives to an entity called `path`.
    pub fn on_path(&self, path: &String, is_type: bool) -> (r: String)
        ensures
            r@ == self@.on_path(path@, is_type),
    {
        match self {
            ItemOp::Rename(rules) => rules.rename(path, is_type),
            _ => path.clone(),
        }
    }
}

impl Item {
    /// The kind of this entity.
    pub fn kind(&self) -> (r: ItemKind)
        ensures
            r == self@.body.kind(),
    {
        self.body.kind()
    }

    /// A copy of this entity.
    pub fn duplicate(&self) -> (r: Item)
        ensures
            r@ == self@,
    {
        Item {
            path: self.path.clone(),
            cfg: copy_option(&self.cfg),
            generic_params: copy_names(&self.generic_params),
            annotations: copy_annotations(&self.annotations),
            body: self.body.map(None),
        }
    }

    /// This entity after the rewrite `op`.
    pub fn apply(&self, op: &ItemOp) -> (r: Item)
        ensures
            r@ == self@.applied(op@),
    {
        let body = match op {
            ItemOp::Simplify => self.body.map(Some(&TypeOp::Simplify)),
            ItemOp::Rename(rules) => self.body.map(
                Some(&TypeOp::Rename { rules: *rules, generic_params: &self.generic_params }),
            ),
            ItemOp::Resolve(resolver) => self.body.map(
                Some(&TypeOp::Resolve { resolver: *resolver }),
            ),
            ItemOp::Mangle => self.body.map(Some(&TypeOp::Mangle)),
        };
        Item {
            path: op.on_path(&self.path, self.body.kind().is_type()),
            cfg: copy_option(&self.cfg),
            generic_params: copy_names(&self.generic_params),
            annotations: copy_annotations(&self.annotations),
            body,
        }
    }

    /// The concrete instance of this generic entity with `arguments` bound to its parameters.
    pub fn instantiate(&self, arguments: &Vec<Type>) -> (r: Item)
        ensures
            r@ == self@.instantiated(Type::models(arguments@)),
    {
        let r = Item {
            path: mangle_path(&self.path, arguments),
            cfg: copy_option(&self.cfg),
            generic_params: Vec::new(),
            annotations: copy_annotations(&self.annotations),
            body: self.body.map(
                Some(&TypeOp::Specialize { generic_params: &self.generic_params, arguments }),
            ),
        };
        assert(r@.generic_params =~= Seq::<Seq<char>>::empty());
        r
    }

    /// The path that this entity names, where it is an alias with a type that names one.
    pub fn alias_target(&self) -> (r: Option<String>)
        ensures
            match r {
                Some(name) => self@.alias_target() == Some(name@),
                None => self@.alias_target() is None,
            },
    {
        match &self.body {
            ItemBody::Typedef { aliased } => aliased.root_path(),
            _ => None,
        }
    }

    /// This entity with other annotations.
    pub fn with_annotations(&self, annotations: &Vec<Annotation>) -> (r: Item)
        ensures
            r@ == self@.with_annotations(views(annotations@)),
    {
        Item {
            path: self.path.clone(),
            cfg: copy_option(&self.cfg),
            generic_params: copy_names(&self.generic_params),
            annotations: copy_annotations(annotations),
            body: self.body.map(None),
        }
    }

    /// Appends to `out` the path occurrences in the types of this entity.
    pub fn collect_uses(&self, out: &mut Vec<PathUse>)
        ensures
            use_views(final(out)@) == use_views(old(out)@) + self@.uses(),
    {
        self.body.collect_uses(out);
    }
}

impl Function {
    /// A copy of this function.
    pub fn duplicate(&self) -> (r: Function)
        ensures
            r@ == self@,
    {
        Function {
            path: self.path.clone(),
            cfg: copy_option(&self.cfg),
            annotations: copy_annotations(&self.annotations),
            args: map_fields(&self.args, None),
            ret: self.ret.duplicate(),
        }
    }

    /// This function after the rewrite `op`.
    pub fn apply(&self, op: &ItemOp) -> (r: Function)
        ensures
            r@ == self@.applied(op@),
    {
        let no_params: Vec<String> = Vec::new();
        assert(name_views(no_params@) =~= Seq::<Seq<char>>::empty());
        let (args, ret) = match op {
            ItemOp::Simplify => (
                map_fields(&self.args, Some(&TypeOp::Simplify)),
                self.ret.rewritten(&TypeOp::Simplify),
            ),
            ItemOp::Rename(rules) => {
                let type_op = TypeOp::Rename { rules: *rules, generic_params: &no_params };
                (map_fields(&self.args, Some(&type_op)), self.ret.rewritten(&type_op))
            },
            ItemOp::Resolve(resolver) => {
                let type_op = TypeOp::Resolve { resolver: *resolver };
                (map_fields(&self.args, Some(&type_op)), self.ret.rewritten(&type_op))
            },
            ItemOp::Mangle => (
                map_fields(&self.args, Some(&TypeOp::Mangle)),
                self.ret.rewritten(&TypeOp::Mangle),
            ),
        };
        Function {
            path: op.on_path(&self.path, false),
            cfg: copy_option(&self.cfg),
            annotations: copy_annotations(&self.annotations),
            args,
            ret,
        }
    }

    /// Appends to `out` the path occurrences in the signature.
    pub fn collect_uses(&self, out: &mut Vec<PathUse>)
        ensures
            use_views(final(out)@) == use_views(old(out)@) + self@.uses(),
    {
        self.ret.collect_uses(true, out);
        collect_field_uses(&self.args, out);
        assert(use_views(out@) =~= use_views(old(out)@) + self@.uses());
    }
}

/// A copy of a list of entities.
pub fn copy_items(items: &Vec<Item>) -> (r: Vec<Item>)
    ensures
        views(r@) == views(items@),
{
    let mut out: Vec<Item> = Vec::new();
    let mut i: usize = 0;
    while i < items.len()
        invariant
            i <= items.len(),
            out.len() == i,
            forall|j: int| 0 <= j < i ==> out[j]@ == items[j]@,
        decreases items.len() - i,
    {
        out.push(items[i].duplicate());
        i += 1;
    }
    assert(views(out@) =~= views(items@));
    out
}

/// The types that rewritten variants carry are the rewritten types that the variants carry.
pub proof fn lemma_variant_types_rewritten(variants: Seq<VariantSpec>, op: TypeOpSpec)
    ensures
        variant_types(rewritten_variants(variants, op)) == TypeSpec::rewritten_all(
            variant_types(variants),
            op,
        ),
    decreases variants.len(),
{
    if variants.len() > 0 {
        let front = variants.drop_last();
        lemma_variant_types_rewritten(front, op);
        assert(rewritten_variants(variants, op).drop_last() =~= rewritten_variants(front, op));
    }
    assert(variant_types(rewritten_variants(variants, op)) =~= TypeSpec::rewritten_all(
        variant_types(variants),
        op,
    ));
}

/// The types of a rewritten body are the rewritten types of the body.
pub proof fn lemma_body_types_rewritten(body: BodySpec, op: TypeOpSpec)
    ensures
        body.rewritten(op).types() == TypeSpec::rewritten_all(body.types(), op),
{
    match body {
        BodySpec::Enum { variants } => {
            lemma_variant_types_rewritten(variants, op);
        },
        _ => {},
    }
    assert(body.rewritten(op).types() =~= TypeSpec::rewritten_all(body.types(), op));
}

/// After mangling, no path in the types of an entity binds generic arguments; giving
/// the paths their keywords leaves it so.
pub proof fn lemma_item_binds_nothing(item: ItemSpec, registry: Seq<(Seq<char>, Tag)>)
    ensures
        item.applied(ItemOpSpec::Mangle).binds_nothing(),
        item.binds_nothing() ==> item.applied(ItemOpSpec::Resolve(registry)).binds_nothing(),
{
    let mangle = TypeOpSpec::Mangle;
    let resolve = TypeOpSpec::Resolve { registry };
    lemma_body_types_rewritten(item.body, mangle);
    lemma_body_types_rewritten(item.body, resolve);
    let types = item.body.types();
    assert forall|i: int| 0 <= i < types.len() implies (#[trigger] TypeSpec::rewritten_all(
        types,
        mangle,
    )[i]).binds_nothing() by {
        lemma_mangled_binds_nothing(types[i]);
    }
    if item.binds_nothing() {
        assert forall|i: int| 0 <= i < types.len() implies (#[trigger] TypeSpec::rewritten_all(
            types,
            resolve,
        )[i]).binds_nothing() by {
            lemma_resolved_binds_nothing(types[i], registry);
        }
    }
}

/// The same for the signature of a function.
pub proof fn lemma_function_binds_nothing(function: FunctionSpec, registry: Seq<(Seq<char>, Tag)>)
    ensures
        function.applied(ItemOpSpec::Mangle).binds_nothing(),
        function.binds_nothing() ==> function.applied(ItemOpSpec::Resolve(registry)).binds_nothing(),
{
    let mangled = function.applied(ItemOpSpec::Mangle);
    lemma_mangled_binds_nothing(function.ret);
    assert forall|i: int| 0 <= i < mangled.args.len() implies (
    #[trigger] mangled.args[i]).ty.binds_nothing() by {
        lemma_mangled_binds_nothing(function.args[i].ty);
    }
    if function.binds_nothing() {
        let resolved = function.applied(ItemOpSpec::Resolve(registry));
        lemma_resolved_binds_nothing(function.ret, registry);
        assert forall|i: int| 0 <= i < resolved.args.len() implies (
        #[trigger] resolved.args[i]).ty.binds_nothing() by {
            lemma_resolved_binds_nothing(function.args[i].ty, registry);
        }
    }
}

/// After mangling, every path occurrence in the signature of a function is what
/// mangling makes of one that the signature had before; giving the paths their
/// keywords leaves the names.
pub proof fn lemma_function_uses(function: FunctionSpec, registry: Seq<(Seq<char>, Tag)>)
    ensures
        forall|i: int|
            0 <= i < function.applied(ItemOpSpec::Mangle).uses().len() ==> from_uses(
                function.uses(),
                #[trigger] function.applied(ItemOpSpec::Mangle).uses()[i],
            ),
        same_names(function.applied(ItemOpSpec::Resolve(registry)).uses(), function.uses()),
{
    let mangle = TypeOpSpec::Mangle;
    let resolve = TypeOpSpec::Resolve { registry };
    let types = field_types(function.args);
    assert(field_types(rewritten_fields(function.args, mangle)) =~= TypeSpec::rewritten_all(
        types,
        mangle,
    ));
    assert(field_types(rewritten_fields(function.args, resolve)) =~= TypeSpec::rewritten_all(
        types,
        resolve,
    ));
    lemma_mangled_uses(function.ret, true);
    lemma_mangled_uses_all(types, true);
    lemma_resolved_uses(function.ret, registry, true);
    lemma_resolved_uses_all(types, registry, true);
    let after = function.applied(ItemOpSpec::Mangle).uses();
    let first = function.ret.rewritten(mangle).uses(true);
    let second = TypeSpec::uses_all(TypeSpec::rewritten_all(types, mangle), true);
    assert(after == first + second);
    assert forall|i: int| 0 <= i < after.len() implies from_uses(
        function.uses(),
        #[trigger] after[i],
    ) by {
        if i < first.len() {
            assert(after[i] == first[i]);
        } else {
            assert(after[i] == second[i - first.len()]);
        }
        lemma_from_uses_add(function.ret.uses(true), TypeSpec::uses_all(types, true), after[i]);
    }
}

/// The same for the types of an entity.
pub proof fn lemma_item_uses(item: ItemSpec, registry: Seq<(Seq<char>, Tag)>)
    ensures
        forall|i: int|
            0 <= i < item.applied(ItemOpSpec::Mangle).uses().len() ==> from_uses(
                item.uses(),
                #[trigger] item.applied(ItemOpSpec::Mangle).uses()[i],
            ),
        same_names(item.applied(ItemOpSpec::Resolve(registry)).uses(), item.uses()),
{
    lemma_body_types_rewritten(item.body, TypeOpSpec::Mangle);
    lemma_body_types_rewritten(item.body, TypeOpSpec::Resolve { registry });
    lemma_mangled_uses_all(item.body.types(), true);
    lemma_resolved_uses_all(item.body.types(), registry, true);
}

} // verus!
