//! Type expressions: the edges of the dependency graph.

use vstd::prelude::*;
use crate::mangle::{mangle_path, mangled};
use crate::names::{contains_name, name_views};
use crate::rename::{RenameRules, RenameRulesSpec};
use crate::resolver::{tag_of, CTypeResolver};

verus! {

broadcast use vstd::std_specs::vec::group_vec_axioms;

/// The primitive types of the target.
#[derive(Clone, Copy, PartialEq, Eq, Structural, Debug)]
pub enum Primitive {
    Void,
    Bool,
    Char,
    SChar,
    UChar,
    Short,
    UShort,
    Int,
    UInt,
    Long,
    ULong,
    Float,
    Double,
}

/// The keyword that a reference to an aggregate carries.
#[derive(Clone, Copy, PartialEq, Eq, Structural, Debug)]
pub enum Tag {
    Struct,
    Enum,
    Union,
}

/// A type expression.
#[derive(Debug, PartialEq, Eq)]
pub enum Type {
    Primitive(Primitive),
    /// A reference to a declared entity, with the generic arguments bound to it.
    Path { name: String, generics: Vec<Type>, tag: Option<Tag> },
    /// A pointer or reference.
    Ptr { is_const: bool, target: Box<Type> },
    Array { element: Box<Type>, length: u64 },
    /// A pointer to a function with this signature.
    FuncPtr { ret: Box<Type>, args: Vec<Type> },
    /// A value that may be absent.
    Optional(Box<Type>),
}

/// The mathematical model of `Type`.
pub enum TypeSpec {
    Primitive(Primitive),
    Path { name: Seq<char>, generics: Seq<TypeSpec>, tag: Option<Tag> },
    Ptr { is_const: bool, target: Box<TypeSpec> },
    Array { element: Box<TypeSpec>, length: u64 },
    FuncPtr { ret: Box<TypeSpec>, args: Seq<TypeSpec> },
    Optional(Box<TypeSpec>),
}

/// One occurrence of a path in a type expression.
#[derive(Debug, PartialEq, Eq)]
pub struct PathUse {
    pub name: String,
    /// The generic arguments bound at this occurrence.
    pub arguments: Vec<Type>,
    /// Whether the occurrence needs the complete definition of what it names
    /// (it is not behind a pointer or in a function signature).
    pub by_value: bool,
}

/// The mathematical model of `PathUse`.
pub struct PathUseSpec {
    pub name: Seq<char>,
    pub arguments: Seq<TypeSpec>,
    pub by_value: bool,
}

impl View for PathUse {
    type V = PathUseSpec;

    open spec fn view(&self) -> PathUseSpec {
        PathUseSpec {
            name: self.name@,
            arguments: Type::models(self.arguments@),
            by_value: self.by_value,
        }
    }
}

/// The views of a list of path occurrences.
pub open spec fn use_views(uses: Seq<PathUse>) -> Seq<PathUseSpec> {
    Seq::new(uses.len(), |i: int| uses[i]@)
}

/// A rewrite of type expressions.
pub enum TypeOp<'a> {
    /// An optional pointer becomes a nullable pointer.
    Simplify,
    /// Every path but a generic parameter gets its exposed name.
    Rename { rules: &'a RenameRules, generic_params: &'a Vec<String> },
    /// Every generic parameter is replaced by the argument bound to it.
    Specialize { generic_params: &'a Vec<String>, arguments: &'a Vec<Type> },
    /// Every path gets the keyword that the registry holds for it.
    Resolve { resolver: &'a CTypeResolver },
    /// Every path with generic arguments becomes the mangled path of that instance.
    Mangle,
}

/// The mathematical model of `TypeOp`.
pub enum TypeOpSpec {
    Simplify,
    Rename { rules: RenameRulesSpec, generic_params: Seq<Seq<char>> },
    Specialize { generic_params: Seq<Seq<char>>, arguments: Seq<TypeSpec> },
    Resolve { registry: Seq<(Seq<char>, Tag)> },
    Mangle,
}

impl<'a> View for TypeOp<'a> {
    type V = TypeOpSpec;

    open spec fn view(&self) -> TypeOpSpec {
        match self {
            TypeOp::Simplify => TypeOpSpec::Simplify,
            TypeOp::Rename { rules, generic_params } => TypeOpSpec::Rename {
                rules: rules@,
                generic_params: name_views(generic_params@),
            },
      TypeOp::Specialize { generic_params, arguments } => TypeOpSpec::Specialize {
                generic_params: name_views(generic_params@),
                arguments: Type::models(arguments@),
            },
            TypeOp::Resolve { resolver } => TypeOpSpec::Resolve { registry: resolver@ },
            TypeOp::Mangle => TypeOpSpec::Mangle,
        }
    }
}

impl View for Type {
    type V = TypeSpec;

    open spec fn view(&self) -> TypeSpec {
        self.model()
    }
}

/// The argument bound to the generic parameter `name`, if `name` is one that has an argument:
/// that of the first parameter of this name.
pub open spec fn binding(params: Seq<Seq<char>>, arguments: Seq<TypeSpec>, name: Seq<char>) -> Option<
    TypeSpec,
>
    decreases params.len(),
{
    if params.len() == 0 || arguments.len() == 0 {
        None
    } else if params[0] == name {
        Some(arguments[0])
    } else {
        binding(params.skip(1), arguments.skip(1), name)
    }
}

impl TypeOpSpec {
    /// What the rewrite makes of a path, given its generic arguments before and after the rewrite.
    pub open spec fn rewrite_path(
        self,
        name: Seq<char>,
        bound: Seq<TypeSpec>,
        generics: Seq<TypeSpec>,
        tag: Option<Tag>,
    ) -> TypeSpec {
        match self {
            TypeOpSpec::Simplify => TypeSpec::Path { name, generics, tag },
            TypeOpSpec::Rename { rules, generic_params } => TypeSpec::Path {
                name: if generic_params.contains(name) {
                    name
                } else {
                    rules.renamed(name, true)
                },
                generics,
                tag,
            },
            TypeOpSpec::Specialize { generic_params, arguments } => match binding(
                generic_params,
                arguments,
                name,
            ) {
                Some(argument) => argument,
                None => TypeSpec::Path { name, generics, tag },
            },
            TypeOpSpec::Resolve { registry } => TypeSpec::Path {
                name,
                generics,
                tag: tag_of(registry, name),
            },
            TypeOpSpec::Mangle => if bound.len() == 0 {
                TypeSpec::Path { name, generics, tag }
            } else {
                TypeSpec::Path { name: mangled(name, bound), generics: Seq::empty(), tag }
            },
        }
    }

    /// What the rewrite makes of an optional value, given the rewritten value.
    pub open spec fn rewrite_optional(self, inner: TypeSpec) -> TypeSpec {
        if self is Simplify && (inner is Ptr || inner is FuncPtr) {
            inner
        } else {
            TypeSpec::Optional(Box::new(inner))
        }
    }
}

impl TypeSpec {
    /// The type expression after the rewrite `op`.
    pub open spec fn rewritten(self, op: TypeOpSpec) -> TypeSpec
        decreases self,
    {
        match self {
            TypeSpec::Primitive(_) => self,
            TypeSpec::Path { name, generics, tag } => op.rewrite_path(
                name,
                generics,
                Self::rewritten_all(generics, op),
                tag,
            ),
            TypeSpec::Ptr { is_const, target } => TypeSpec::Ptr {
                is_const,
                target: Box::new(target.rewritten(op)),
            },
            TypeSpec::Array { element, length } => TypeSpec::Array {
                element: Box::new(element.rewritten(op)),
                length,
            },
            TypeSpec::FuncPtr { ret, args } => TypeSpec::FuncPtr {
                ret: Box::new(ret.rewritten(op)),
                args: Self::rewritten_all(args, op),
            },
            TypeSpec::Optional(inner) => op.rewrite_optional(inner.rewritten(op)),
        }
    }

    /// Each of `types` after the rewrite `op`.
    pub open spec fn rewritten_all(types: Seq<TypeSpec>, op: TypeOpSpec) -> Seq<TypeSpec>
        decreases types,
    {
        Seq::new(
            types.len(),
            |i: int|
                if 0 <= i < types.len() {
                    types[i].rewritten(op)
                } else {
                    arbitrary()
                },
        )
    }

    /// The path occurrences in this type expression, the generic arguments of a path
    /// before the path itself. `by_value` says whether the expression itself stands
    /// where a complete definition is needed.
    pub open spec fn uses(self, by_value: bool) -> Seq<PathUseSpec>
        decreases self,
    {
        match self {
            TypeSpec::Primitive(_) => Seq::empty(),
            TypeSpec::Path { name, generics, tag } => Self::uses_all(generics, by_value).push(
                PathUseSpec { name, arguments: generics, by_value },
            ),
            TypeSpec::Ptr { is_const, target } => target.uses(false),
            TypeSpec::Array { element, length } => element.uses(by_value),
            TypeSpec::FuncPtr { ret, args } => ret.uses(false) + Self::uses_all(args, false),
            TypeSpec::Optional(inner) => inner.uses(by_value),
        }
    }

    /// The path occurrences in each of `types`, in order.
    pub open spec fn uses_all(types: Seq<TypeSpec>, by_value: bool) -> Seq<PathUseSpec>
        decreases types,
    {
        if types.len() == 0 {
            Seq::empty()
        } else {
            Self::uses_all(types.drop_last(), by_value) + types.last().uses(by_value)
        }
    }

    /// Whether no path in this type expression binds generic arguments.
    pub open spec fn binds_nothing(self) -> bool
        decreases self,
    {
        match self {
            TypeSpec::Primitive(_) => true,
            TypeSpec::Path { name, generics, tag } => generics.len() == 0,
            TypeSpec::Ptr { is_const, target } => target.binds_nothing(),
            TypeSpec::Array { element, length } => element.binds_nothing(),
            TypeSpec::FuncPtr { ret, args } => ret.binds_nothing() && forall|i: int|
                0 <= i < args.len() ==> (#[trigger] args[i]).binds_nothing(),
            TypeSpec::Optional(inner) => inner.binds_nothing(),
        }
    }

    /// The path that this type expression names in the end, through pointers.
    pub open spec fn root_path(self) -> Option<Seq<char>>
        decreases self,
    {
        match self {
            TypeSpec::Path { name, generics, tag } => Some(name),
            TypeSpec::Ptr { is_const, target } => target.root_path(),
            _ => None,
        }
    }
}

impl Type {
    /// The mathematical model of this type expression.
    pub open spec fn model(&self) -> TypeSpec
        decreases self,
    {
        match self {
            Type::Primitive(p) => TypeSpec::Primitive(*p),
            Type::Path { name, generics, tag } => TypeSpec::Path {
                name: name@,
                generics: Self::models(generics@),
                tag: *tag,
            },
            Type::Ptr { is_const, target } => TypeSpec::Ptr {
                is_const: *is_const,
                target: Box::new(target.model()),
            },
            Type::Array { element, length } => TypeSpec::Array {
                element: Box::new(element.model()),
                length: *length,
            },
            Type::FuncPtr { ret, args } => TypeSpec::FuncPtr {
                ret: Box::new(ret.model()),
                args: Self::models(args@),
            },
            Type::Optional(inner) => TypeSpec::Optional(Box::new(inner.model())),
        }
    }

    /// The models of a list of type expressions.
    pub open spec fn models(types: Seq<Type>) -> Seq<TypeSpec>
        decreases types,
    {
        Seq::new(
            types.len(),
            |i: int|
                if 0 <= i < types.len() {
                    types[i].model()
                } else {
                    arbitrary()
                },
        )
    }

    /// A copy of this type expression.
    pub fn duplicate(&self) -> (r: Type)
        ensures
            r@ == self@,
        decreases self,
    {
        match self {
            Type::Primitive(p) => Type::Primitive(*p),
            Type::Path { name, generics, tag } => Type::Path {
                name: name.clone(),
                generics: Self::duplicate_all(generics),
                tag: *tag,
            },
            Type::Ptr { is_const, target } => Type::Ptr {
                is_const: *is_const,
                target: Box::new(target.duplicate()),
            },
            Type::Array { element, length } => Type::Array {
                element: Box::new(element.duplicate()),
                length: *length,
            },
            Type::FuncPtr { ret, args } => Type::FuncPtr {
                ret: Box::new(ret.duplicate()),
                args: Self::duplicate_all(args),
            },
            Type::Optional(inner) => Type::Optional(Box::new(inner.duplicate())),
        }
    }

    /// A copy of a list of type expressions.
    pub fn duplicate_all(types: &Vec<Type>) -> (r: Vec<Type>)
        ensures
            Self::models(r@) == Self::models(types@),
        decreases types,
    {
        let mut out: Vec<Type> = Vec::new();
        let mut i: usize = 0;
        while i < types.len()
            invariant
                i <= types.len(),
                out.len() == i,
                forall|j: int| 0 <= j < i ==> out[j]@ == types[j]@,
            decreases types.len() - i,
        {
            out.push(types[i].duplicate());
            i += 1;
        }
        assert(Self::models(out@) =~= Self::models(types@));
        out
    }

    /// This type expression after the rewrite `op`.
    pub fn rewritten(&self, op: &TypeOp) -> (r: Type)
        ensures
            r@ == self@.rewritten(op@),
        decreases self,
    {
        match self {
            Type::Primitive(p) => Type::Primitive(*p),
            Type::Path { name, generics, tag } => {
                let done = Self::rewritten_all(generics, op);
                op.rewrite_path(name, generics, done, *tag)
            },
            Type::Ptr { is_const, target } => Type::Ptr {
                is_const: *is_const,
                target: Box::new(target.rewritten(op)),
            },
            Type::Array { element, length } => Type::Array {
                element: Box::new(element.rewritten(op)),
                length: *length,
            },
            Type::FuncPtr { ret, args } => Type::FuncPtr {
                ret: Box::new(ret.rewritten(op)),
                args: Self::rewritten_all(args, op),
            },
            Type::Optional(inner) => {
                let done = inner.rewritten(op);
                op.rewrite_optional(done)
            },
        }
    }

    /// Each of `types` after the rewrite `op`.
    pub fn rewritten_all(types: &Vec<Type>, op: &TypeOp) -> (r: Vec<Type>)
        ensures
            Self::models(r@) == TypeSpec::rewritten_all(Self::models(types@), op@),
        decreases types,
    {
        let mut out: Vec<Type> = Vec::new();
        let mut i: usize = 0;
        while i < types.len()
            invariant
                i <= types.len(),
                out.len() == i,
                forall|j: int| 0 <= j < i ==> out[j]@ == types[j]@.rewritten(op@),
            decreases types.len() - i,
        {
            out.push(types[i].rewritten(op));
            i += 1;
        }
        assert(Self::models(out@) =~= TypeSpec::rewritten_all(Self::models(types@), op@));
        out
    }

    /// Appends to `out` the path occurrences in this type expression.
    pub fn collect_uses(&self, by_value: bool, out: &mut Vec<PathUse>)
        ensures
            use_views(final(out)@) == use_views(old(out)@) + self@.uses(by_value),
        decreases self,
    {
        match self {
            Type::Primitive(_) => {
                assert(use_views(out@) =~= use_views(old(out)@) + self@.uses(by_value));
            },
            Type::Path { name, generics, tag } => {
                Self::collect_uses_all(generics, by_value, out);
                let ghost mid = use_views(out@);
                let found = PathUse {
                    name: name.clone(),
                    arguments: Self::duplicate_all(generics),
                    by_value,
                };
                out.push(found);
                assert(use_views(out@) =~= mid.push(found@));
                assert(use_views(out@) =~= use_views(old(out)@) + self@.uses(by_value));
            },
            Type::Ptr { is_const, target } => {
                target.collect_uses(false, out);
            },
            Type::Array { element, length } => {
                element.collect_uses(by_value, out);
            },
            Type::FuncPtr { ret, args } => {
                ret.collect_uses(false, out);
                Self::collect_uses_all(args, false, out);
                assert(use_views(out@) =~= use_views(old(out)@) + self@.uses(by_value));
            },
            Type::Optional(inner) => {
                inner.collect_uses(by_value, out);
            },
        }
    }

    /// Appends to `out` the path occurrences in each of `types`, in order.
    pub fn collect_uses_all(types: &Vec<Type>, by_value: bool, out: &mut Vec<PathUse>)
        ensures
            use_views(final(out)@) == use_views(old(out)@) + TypeSpec::uses_all(
                Self::models(types@),
                by_value,
            ),
        decreases types,
    {
        let mut i: usize = 0;
        assert(Self::models(types@).take(0) =~= Seq::<TypeSpec>::empty());
        assert(use_views(out@) =~= use_views(old(out)@) + Seq::<PathUseSpec>::empty());
        while i < types.len()
            invariant
                i <= types.len(),
                use_views(out@) == use_views(old(out)@) + TypeSpec::uses_all(
                    Self::models(types@).take(i as int),
                    by_value,
                ),
            decreases types.len() - i,
        {
            types[i].collect_uses(by_value, out);
            proof {
                let all = Self::models(types@);
                assert(all.take(i + 1).drop_last() =~= all.take(i as int));
                assert(all.take(i + 1).last() == types[i as int]@);
                assert(use_views(out@) =~= use_views(old(out)@) + TypeSpec::uses_all(
                    all.take(i + 1),
                    by_value,
                ));
            }
            i += 1;
        }
        assert(Self::models(types@).take(i as int) =~= Self::models(types@));
    }

    /// The path that this type expression names in the end, through pointers.
    pub fn root_path(&self) -> (r: Option<String>)
        ensures
            match r {
                Some(name) => self@.root_path() == Some(name@),
                None => self@.root_path() is None,
            },
        decreases self,
    {
        match self {
            Type::Path { name, generics, tag } => Some(name.clone()),
            Type::Ptr { is_const, target } => target.root_path(),
            _ => None,
        }
    }
}

impl<'a> TypeOp<'a> {
    /// What the rewrite makes of a path, given its generic arguments before and after the rewrite.
    pub fn rewrite_path(
        &self,
        name: &String,
        bound: &Vec<Type>,
        generics: Vec<Type>,
        tag: Option<Tag>,
    ) -> (r: Type)
        ensures
            r@ == self@.rewrite_path(name@, Type::models(bound@), Type::models(generics@), tag),
    {
        match self {
            TypeOp::Simplify => Type::Path { name: name.clone(), generics, tag },
            TypeOp::Rename { rules, generic_params } => {
                let renamed = if contains_name(generic_params, name) {
                    name.clone()
                } else {
                    rules.rename(name, true)
                };
                Type::Path { name: renamed, generics, tag }
            },
            TypeOp::Specialize { generic_params, arguments } => {
                let mut i: usize = 0;
                let ghost params = name_views(generic_params@);
                let ghost bound = Type::models(arguments@);
                assert(params.skip(0) =~= params);
                assert(bound.skip(0) =~= bound);
                while i < generic_params.len() && i < arguments.len()
                    invariant
                        i <= generic_params.len(),
                        i <= arguments.len(),
                        params == name_views(generic_params@),
                        bound == Type::models(arguments@),
                        self@ == (TypeOpSpec::Specialize { generic_params: params, arguments: bound }),
                        binding(params, bound, name@) == binding(
                            params.skip(i as int),
                            bound.skip(i as int),
                            name@,
                        ),
                    decreases generic_params.len() - i,
                {
                    assert(params.skip(i as int)[0] == generic_params[i as int]@);
                    assert(bound.skip(i as int)[0] == arguments[i as int]@);
                    if generic_params[i] == *name {
                        return arguments[i].duplicate();
                    }
                    assert(params.skip(i as int).skip(1) =~= params.skip(i + 1));
                    assert(bound.skip(i as int).skip(1) =~= bound.skip(i + 1));
                    i += 1;
                }
                Type::Path { name: name.clone(), generics, tag }
            },
            TypeOp::Resolve { resolver } => Type::Path {
                name: name.clone(),
                generics,
                tag: resolver.type_for(name),
            },
            TypeOp::Mangle => {
                if bound.len() == 0 {
                    Type::Path { name: name.clone(), generics, tag }
                } else {
                    let r = Type::Path {
                        name: mangle_path(name, bound),
                        generics: Vec::new(),
                        tag,
                    };
                    assert(Type::models(r->generics@) =~= Seq::<TypeSpec>::empty());
                    r
                }
            },
        }
    }

    /// What the rewrite makes of an optional value, given the rewritten value.
    pub fn rewrite_optional(&self, inner: Type) -> (r: Type)
        ensures
            r@ == self@.rewrite_optional(inner@),
    {
        match self {
            TypeOp::Simplify => match inner {
                Type::Ptr { .. } => inner,
                Type::FuncPtr { .. } => inner,
                _ => Type::Optional(Box::new(inner)),
            },
            _ => Type::Optional(Box::new(inner)),
        }
    }
}

/// After mangling, no path in a type expression binds generic arguments.
pub proof fn lemma_mangled_binds_nothing(t: TypeSpec)
    ensures
        t.rewritten(TypeOpSpec::Mangle).binds_nothing(),
    decreases t,
{
    let op = TypeOpSpec::Mangle;
    match t {
        TypeSpec::Primitive(_) => {},
        TypeSpec::Path { name, generics, tag } => {
            assert(TypeSpec::rewritten_all(generics, op).len() == generics.len());
            assert(t.rewritten(op) is Path);
            assert(t.rewritten(op)->generics.len() == 0);
        },
        TypeSpec::Ptr { is_const, target } => {
            lemma_mangled_binds_nothing(*target);
        },
        TypeSpec::Array { element, length } => {
            lemma_mangled_binds_nothing(*element);
        },
        TypeSpec::FuncPtr { ret, args } => {
            lemma_mangled_binds_nothing(*ret);
            let done = TypeSpec::rewritten_all(args, op);
            assert(t.rewritten(op) == (TypeSpec::FuncPtr { ret: Box::new(ret.rewritten(op)), args: done }));
            assert forall|i: int| 0 <= i < done.len() implies (#[trigger] done[i]).binds_nothing() by {
                lemma_mangled_binds_nothing(args[i]);
            }
        },
        TypeSpec::Optional(inner) => {
            lemma_mangled_binds_nothing(*inner);
        },
    }
}

/// Giving the paths their keywords binds no generic arguments.
pub proof fn lemma_resolved_binds_nothing(t: TypeSpec, registry: Seq<(Seq<char>, Tag)>)
    requires
        t.binds_nothing(),
    ensures
        t.rewritten(TypeOpSpec::Resolve { registry }).binds_nothing(),
    decreases t,
{
    let op = TypeOpSpec::Resolve { registry };
    match t {
        TypeSpec::Primitive(_) => {},
        TypeSpec::Path { name, generics, tag } => {
            assert(TypeSpec::rewritten_all(generics, op).len() == generics.len());
            assert(t.rewritten(op) is Path);
            assert(t.rewritten(op)->generics.len() == 0);
        },
        TypeSpec::Ptr { is_const, target } => {
            lemma_resolved_binds_nothing(*target, registry);
        },
        TypeSpec::Array { element, length } => {
            lemma_resolved_binds_nothing(*element, registry);
        },
        TypeSpec::FuncPtr { ret, args } => {
            lemma_resolved_binds_nothing(*ret, registry);
            let done = TypeSpec::rewritten_all(args, op);
            assert(t.rewritten(op) == (TypeSpec::FuncPtr { ret: Box::new(ret.rewritten(op)), args: done }));
            assert forall|i: int| 0 <= i < done.len() implies (#[trigger] done[i]).binds_nothing() by {
                lemma_resolved_binds_nothing(args[i], registry);
            }
        },
        TypeSpec::Optional(inner) => {
            lemma_resolved_binds_nothing(*inner, registry);
        },
    }
}

/// What mangling makes of a path occurrence: one that binds arguments names the
/// mangled path afterwards, and none binds arguments.
pub open spec fn mangled_use(u: PathUseSpec) -> PathUseSpec {
    PathUseSpec {
        name: if u.arguments.len() == 0 {
            u.name
        } else {
            mangled(u.name, u.arguments)
        },
        arguments: Seq::empty(),
        by_value: u.by_value,
    }
}

/// Whether `w` is what mangling makes of one of `uses`.
pub open spec fn from_uses(uses: Seq<PathUseSpec>, w: PathUseSpec) -> bool {
    exists|j: int| 0 <= j < uses.len() && w == mangled_use(#[trigger] uses[j])
}

/// What comes from one of two lists comes from both together.
pub proof fn lemma_from_uses_add(a: Seq<PathUseSpec>, b: Seq<PathUseSpec>, w: PathUseSpec)
    ensures
        from_uses(a, w) ==> from_uses(a + b, w),
        from_uses(b, w) ==> from_uses(a + b, w),
{
    if from_uses(a, w) {
        let j = choose|j: int| 0 <= j < a.len() && w == mangled_use(#[trigger] a[j]);
        assert((a + b)[j] == a[j]);
    }
    if from_uses(b, w) {
        let j = choose|j: int| 0 <= j < b.len() && w == mangled_use(#[trigger] b[j]);
        assert((a + b)[a.len() + j] == b[j]);
    }
}

/// After mangling, every path occurrence of a type expression is what mangling makes
/// of a path occurrence that the expression had before.
pub proof fn lemma_mangled_uses(t: TypeSpec, by_value: bool)
    ensures
        forall|i: int|
            0 <= i < t.rewritten(TypeOpSpec::Mangle).uses(by_value).len() ==> from_uses(
                t.uses(by_value),
                #[trigger] t.rewritten(TypeOpSpec::Mangle).uses(by_value)[i],
            ),
    decreases t,
{
    let op = TypeOpSpec::Mangle;
    let after = t.rewritten(op).uses(by_value);
    let before = t.uses(by_value);
    match t {
        TypeSpec::Primitive(_) => {},
        TypeSpec::Path { name, generics, tag } => {
            let last = before.len() - 1;
            assert(before[last] == (PathUseSpec { name, arguments: generics, by_value }));
            if generics.len() == 0 {
                assert(TypeSpec::rewritten_all(generics, op) =~= Seq::<TypeSpec>::empty());
                assert(t.rewritten(op) == (TypeSpec::Path {
                    name,
                    generics: Seq::<TypeSpec>::empty(),
                    tag,
                }));
            }
            assert(TypeSpec::uses_all(Seq::<TypeSpec>::empty(), by_value) =~= Seq::<
                PathUseSpec,
            >::empty());
            assert(after.len() == 1);
            assert(after[0] == mangled_use(before[last]));
            assert(from_uses(before, after[0]));
        },
        TypeSpec::Ptr { is_const, target } => {
            lemma_mangled_uses(*target, false);
            assert(after == target.rewritten(op).uses(false));
            assert(before == target.uses(false));
        },
        TypeSpec::Array { element, length } => {
            lemma_mangled_uses(*element, by_value);
            assert(after == element.rewritten(op).uses(by_value));
            assert(before == element.uses(by_value));
        },
        TypeSpec::FuncPtr { ret, args } => {
            lemma_mangled_uses(*ret, false);
            lemma_mangled_uses_all(args, false);
            let first = ret.rewritten(op).uses(false);
            let second = TypeSpec::uses_all(TypeSpec::rewritten_all(args, op), false);
            assert(t.rewritten(op) == (TypeSpec::FuncPtr {
                ret: Box::new(ret.rewritten(op)),
                args: TypeSpec::rewritten_all(args, op),
            }));
            assert(after == first + second);
            assert(before == ret.uses(false) + TypeSpec::uses_all(args, false));
            assert forall|i: int| 0 <= i < after.len() implies from_uses(
                before,
                #[trigger] after[i],
            ) by {
                if i < first.len() {
                    assert(after[i] == first[i]);
                } else {
                    assert(after[i] == second[i - first.len()]);
                }
                lemma_from_uses_add(ret.uses(false), TypeSpec::uses_all(args, false), after[i]);
            }
        },
        TypeSpec::Optional(inner) => {
            lemma_mangled_uses(*inner, by_value);
            assert(t.rewritten(op) == TypeSpec::Optional(Box::new(inner.rewritten(op))));
            assert(after == inner.rewritten(op).uses(by_value));
            assert(before == inner.uses(by_value));
        },
    }
}

/// The same for a list of type expressions.
pub proof fn lemma_mangled_uses_all(types: Seq<TypeSpec>, by_value: bool)
    ensures
        forall|i: int|
            0 <= i < TypeSpec::uses_all(
                TypeSpec::rewritten_all(types, TypeOpSpec::Mangle),
                by_value,
            ).len() ==> from_uses(
                TypeSpec::uses_all(types, by_value),
                #[trigger] TypeSpec::uses_all(
                    TypeSpec::rewritten_all(types, TypeOpSpec::Mangle),
                    by_value,
                )[i],
            ),
    decreases types,
{
    let op = TypeOpSpec::Mangle;
    if types.len() > 0 {
        let front = types.drop_last();
        let done = TypeSpec::rewritten_all(types, op);
        lemma_mangled_uses_all(front, by_value);
        lemma_mangled_uses(types.last(), by_value);
        assert(done.drop_last() =~= TypeSpec::rewritten_all(front, op));
        assert(done.last() == types.last().rewritten(op));
        let first = TypeSpec::uses_all(TypeSpec::rewritten_all(front, op), by_value);
        let second = types.last().rewritten(op).uses(by_value);
        let after = TypeSpec::uses_all(done, by_value);
        assert(after == first + second);
        assert forall|i: int| 0 <= i < after.len() implies from_uses(
            TypeSpec::uses_all(types, by_value),
            #[trigger] after[i],
        ) by {
            if i < first.len() {
                assert(after[i] == first[i]);
            } else {
                assert(after[i] == second[i - first.len()]);
            }
            lemma_from_uses_add(
                TypeSpec::uses_all(front, by_value),
                types.last().uses(by_value),
                after[i],
            );
        }
    } else {
        assert(TypeSpec::rewritten_all(types, op) =~= types);
    }
}

/// Whether two lists of path occurrences name the same paths in the same positions.
pub open spec fn same_names(a: Seq<PathUseSpec>, b: Seq<PathUseSpec>) -> bool {
    a.len() == b.len() && forall|i: int|
        0 <= i < a.len() ==> (#[trigger] a[i]).name == b[i].name && a[i].by_value == b[i].by_value
}

/// Giving the paths their keywords leaves the names of the path occurrences.
pub proof fn lemma_resolved_uses(t: TypeSpec, registry: Seq<(Seq<char>, Tag)>, by_value: bool)
    ensures
        same_names(t.rewritten(TypeOpSpec::Resolve { registry }).uses(by_value), t.uses(by_value)),
    decreases t,
{
    let op = TypeOpSpec::Resolve { registry };
    match t {
        TypeSpec::Primitive(_) => {},
        TypeSpec::Path { name, generics, tag } => {
            lemma_resolved_uses_all(generics, registry, by_value);
        },
        TypeSpec::Ptr { is_const, target } => {
            lemma_resolved_uses(*target, registry, false);
        },
        TypeSpec::Array { element, length } => {
            lemma_resolved_uses(*element, registry, by_value);
        },
        TypeSpec::FuncPtr { ret, args } => {
            lemma_resolved_uses(*ret, registry, false);
            lemma_resolved_uses_all(args, registry, false);
        },
        TypeSpec::Optional(inner) => {
            lemma_resolved_uses(*inner, registry, by_value);
        },
    }
}

/// The same for a list of type expressions.
pub proof fn lemma_resolved_uses_all(
    types: Seq<TypeSpec>,
    registry: Seq<(Seq<char>, Tag)>,
    by_value: bool,
)
    ensures
        same_names(
            TypeSpec::uses_all(
                TypeSpec::rewritten_all(types, TypeOpSpec::Resolve { registry }),
                by_value,
            ),
            TypeSpec::uses_all(types, by_value),
        ),
    decreases types,
{
    let op = TypeOpSpec::Resolve { registry };
    if types.len() > 0 {
        let front = types.drop_last();
        let done = TypeSpec::rewritten_all(types, op);
        lemma_resolved_uses_all(front, registry, by_value);
        lemma_resolved_uses(types.last(), registry, by_value);
        assert(done.drop_last() =~= TypeSpec::rewritten_all(front, op));
        assert(done.last() == types.last().rewritten(op));
    } else {
        assert(TypeSpec::rewritten_all(types, op) =~= types);
    }
}

} // verus!
