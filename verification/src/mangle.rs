//! Mangling: the path of a generic entity and the arguments bound to it give the path
//! of the concrete instance. Each type expression has a code that no other expression
//! shares and that is no proper beginning of another code, so instances never collide.

use vstd::prelude::*;
use crate::ty::{Primitive, Tag, Type, TypeSpec};

verus! {

broadcast use vstd::std_specs::vec::group_vec_axioms;

/// The decimal digit for `d`.
pub open spec fn digit(d: nat) -> char {
    if d == 0 {
        '0'
    } else if d == 1 {
        '1'
    } else if d == 2 {
        '2'
    } else if d == 3 {
        '3'
    } else if d == 4 {
        '4'
    } else if d == 5 {
        '5'
    } else if d == 6 {
        '6'
    } else if d == 7 {
        '7'
    } else if d == 8 {
        '8'
    } else {
        '9'
    }
}

/// The code of a number: its decimal digits, the least significant first, then `_`.
pub open spec fn encode_nat(n: nat) -> Seq<char>
    decreases n,
{
    if n < 10 {
        seq![digit(n), '_']
    } else {
        seq![digit(n % 10)] + encode_nat(n / 10)
    }
}

/// The letter that stands for a primitive type.
pub open spec fn primitive_code(p: Primitive) -> char {
    match p {
        Primitive::Void => 'v',
        Primitive::Bool => 'b',
        Primitive::Char => 'c',
        Primitive::SChar => 'a',
        Primitive::UChar => 'h',
        Primitive::Short => 's',
        Primitive::UShort => 't',
        Primitive::Int => 'i',
        Primitive::UInt => 'j',
        Primitive::Long => 'l',
        Primitive::ULong => 'm',
        Primitive::Float => 'f',
        Primitive::Double => 'd',
    }
}

impl TypeSpec {
    /// The first character of the code: it tells the form of the expression.
    pub open spec fn head(self) -> char {
        match self {
            TypeSpec::Primitive(p) => primitive_code(p),
            TypeSpec::Path { name, generics, tag } => match tag {
                None => 'N',
                Some(Tag::Struct) => 'S',
                Some(Tag::Enum) => 'M',
                Some(Tag::Union) => 'U',
            },
            TypeSpec::Ptr { is_const, target } => if is_const {
                'K'
            } else {
                'P'
            },
            TypeSpec::Array { element, length } => 'A',
            TypeSpec::FuncPtr { ret, args } => 'F',
            TypeSpec::Optional(inner) => 'O',
        }
    }

    /// What follows the first character of the code.
    pub open spec fn tail(self) -> Seq<char>
        decreases self, 0nat,
    {
        match self {
            TypeSpec::Primitive(p) => Seq::empty(),
            TypeSpec::Path { name, generics, tag } => encode_nat(name.len()) + (name + (
            Self::encoded_all(generics) + seq!['E'])),
            TypeSpec::Ptr { is_const, target } => target.encoded(),
            TypeSpec::Array { element, length } => encode_nat(length as nat) + element.encoded(),
            TypeSpec::FuncPtr { ret, args } => ret.encoded() + (Self::encoded_all(args)
                + seq!['E']),
            TypeSpec::Optional(inner) => inner.encoded(),
        }
    }

    /// The code of this type expression.
    pub open spec fn encoded(self) -> Seq<char>
        decreases self, 1nat,
    {
        seq![self.head()] + self.tail()
    }

    /// The codes of `types`, one after the other.
    pub open spec fn encoded_all(types: Seq<TypeSpec>) -> Seq<char>
        decreases types, 2nat,
    {
        if types.len() == 0 {
            Seq::empty()
        } else {
            types[0].encoded() + Self::encoded_all(types.skip(1))
        }
    }
}

/// The path of the instance of the generic entity `name` with `arguments` bound.
pub open spec fn mangled(name: Seq<char>, arguments: Seq<TypeSpec>) -> Seq<char> {
    name + (seq!['_'] + TypeSpec::encoded_all(arguments))
}

proof fn lemma_cons(c1: char, a: Seq<char>, c2: char, b: Seq<char>)
    requires
        seq![c1] + a == seq![c2] + b,
    ensures
        c1 == c2,
        a == b,
{
    assert((seq![c1] + a)[0] == c1);
    assert((seq![c2] + b)[0] == c2);
    assert(a =~= (seq![c1] + a).skip(1));
    assert(b =~= (seq![c2] + b).skip(1));
}

proof fn lemma_encode_nat_first(n: nat)
    ensures
        encode_nat(n).len() >= 2,
        encode_nat(n)[0] == digit(n % 10),
        encode_nat(n)[0] != '_',
        n < 10 ==> encode_nat(n)[1] == '_',
        n >= 10 ==> encode_nat(n)[1] != '_',
    decreases n,
{
    if n >= 10 {
        lemma_encode_nat_first(n / 10);
        assert(encode_nat(n)[1] == encode_nat(n / 10)[0]);
    }
}

/// The code of a number is no beginning of the code of another number.
proof fn lemma_encode_nat_prefix(n1: nat, n2: nat, r1: Seq<char>, r2: Seq<char>)
    requires
        encode_nat(n1) + r1 == encode_nat(n2) + r2,
    ensures
        n1 == n2,
        r1 == r2,
    decreases n1,
{
    let s1 = encode_nat(n1) + r1;
    let s2 = encode_nat(n2) + r2;
    lemma_encode_nat_first(n1);
    lemma_encode_nat_first(n2);
    assert(s1[0] == encode_nat(n1)[0]);
    assert(s2[0] == encode_nat(n2)[0]);
    assert(s1[1] == encode_nat(n1)[1]);
    assert(s2[1] == encode_nat(n2)[1]);
    assert(n1 % 10 == n2 % 10);
    if n1 < 10 {
        assert(r1 =~= s1.skip(2));
        assert(r2 =~= s2.skip(2));
    } else {
        let t1 = encode_nat(n1 / 10) + r1;
        let t2 = encode_nat(n2 / 10) + r2;
        assert(s1 =~= seq![digit(n1 % 10)] + t1);
        assert(s2 =~= seq![digit(n2 % 10)] + t2);
        lemma_cons(digit(n1 % 10), t1, digit(n2 % 10), t2);
        lemma_encode_nat_prefix(n1 / 10, n2 / 10, r1, r2);
    }
}

/// A name after the code of its length is no beginning of another such.
proof fn lemma_name_prefix(a: Seq<char>, x: Seq<char>, b: Seq<char>, y: Seq<char>)
    requires
        encode_nat(a.len()) + (a + x) == encode_nat(b.len()) + (b + y),
    ensures
        a == b,
        x == y,
{
    lemma_encode_nat_prefix(a.len(), b.len(), a + x, b + y);
    assert(a =~= (a + x).take(a.len() as int));
    assert(b =~= (b + y).take(b.len() as int));
    assert(x =~= (a + x).skip(a.len() as int));
    assert(y =~= (b + y).skip(b.len() as int));
}

proof fn lemma_head(t: TypeSpec)
    ensures
        t.head() != 'E',
        t.encoded().len() >= 1,
        t.encoded()[0] == t.head(),
{
}

/// The code of a type expression is no proper beginning of the code of another,
/// and two expressions with one code are equal.
proof fn lemma_encoded_prefix(t1: TypeSpec, t2: TypeSpec, r1: Seq<char>, r2: Seq<char>)
    requires
        t1.encoded() + r1 == t2.encoded() + r2,
    ensures
        t1 == t2,
        r1 == r2,
    decreases t1, 1nat,
{
    let s1 = t1.encoded() + r1;
    let s2 = t2.encoded() + r2;
    assert(s1 =~= seq![t1.head()] + (t1.tail() + r1));
    assert(s2 =~= seq![t2.head()] + (t2.tail() + r2));
    lemma_cons(t1.head(), t1.tail() + r1, t2.head(), t2.tail() + r2);
    match t1 {
        TypeSpec::Primitive(p1) => {
            assert(t2 is Primitive);
            assert(r1 =~= t1.tail() + r1);
            assert(r2 =~= t2.tail() + r2);
        },
        TypeSpec::Path { name: n1, generics: g1, tag: tag1 } => {
            assert(t2 is Path);
            let n2 = t2->name;
            let g2 = t2->generics;
            let x1 = TypeSpec::encoded_all(g1) + (seq!['E'] + r1);
            let x2 = TypeSpec::encoded_all(g2) + (seq!['E'] + r2);
            assert(t1.tail() + r1 =~= encode_nat(n1.len()) + (n1 + x1));
            assert(t2.tail() + r2 =~= encode_nat(n2.len()) + (n2 + x2));
            lemma_name_prefix(n1, x1, n2, x2);
            lemma_encoded_all_prefix(g1, g2, r1, r2);
        },
        TypeSpec::Ptr { is_const, target } => {
            assert(t2 is Ptr);
            lemma_encoded_prefix(*target, *t2->target, r1, r2);
        },
        TypeSpec::Array { element, length } => {
            assert(t2 is Array);
            let e2 = *t2->element;
            let l2 = t2->length;
            assert(t1.tail() + r1 =~= encode_nat(length as nat) + (element.encoded() + r1));
            assert(t2.tail() + r2 =~= encode_nat(l2 as nat) + (e2.encoded() + r2));
            lemma_encode_nat_prefix(
                length as nat,
                l2 as nat,
                element.encoded() + r1,
                e2.encoded() + r2,
            );
            lemma_encoded_prefix(*element, e2, r1, r2);
        },
        TypeSpec::FuncPtr { ret, args } => {
            assert(t2 is FuncPtr);
            let ret2 = *t2->ret;
            let args2 = t2->args;
            let x1 = TypeSpec::encoded_all(args) + (seq!['E'] + r1);
            let x2 = TypeSpec::encoded_all(args2) + (seq!['E'] + r2);
            assert(t1.tail() + r1 =~= ret.encoded() + x1);
            assert(t2.tail() + r2 =~= ret2.encoded() + x2);
            lemma_encoded_prefix(*ret, ret2, x1, x2);
            lemma_encoded_all_prefix(args, args2, r1, r2);
        },
        TypeSpec::Optional(inner) => {
            assert(t2 is Optional);
            lemma_encoded_prefix(*inner, *t2->Optional_0, r1, r2);
        },
    }
}

/// Two lists of type expressions with one code, each closed by `E`, are equal.
proof fn lemma_encoded_all_prefix(
    l1: Seq<TypeSpec>,
    l2: Seq<TypeSpec>,
    r1: Seq<char>,
    r2: Seq<char>,
)
    requires
        TypeSpec::encoded_all(l1) + (seq!['E'] + r1) == TypeSpec::encoded_all(l2) + (seq!['E']
            + r2),
    ensures
        l1 == l2,
        r1 == r2,
    decreases l1, 0nat,
{
    let s1 = TypeSpec::encoded_all(l1) + (seq!['E'] + r1);
    let s2 = TypeSpec::encoded_all(l2) + (seq!['E'] + r2);
    if l1.len() == 0 && l2.len() == 0 {
        assert(s1 =~= seq!['E'] + r1);
        assert(s2 =~= seq!['E'] + r2);
        lemma_cons('E', r1, 'E', r2);
        assert(l1 =~= l2);
    } else if l1.len() == 0 {
        lemma_head(l2[0]);
        assert(s1[0] == 'E');
        assert(s2[0] == l2[0].encoded()[0]);
    } else if l2.len() == 0 {
        lemma_head(l1[0]);
        assert(s2[0] == 'E');
        assert(s1[0] == l1[0].encoded()[0]);
    } else {
        let x1 = TypeSpec::encoded_all(l1.skip(1)) + (seq!['E'] + r1);
        let x2 = TypeSpec::encoded_all(l2.skip(1)) + (seq!['E'] + r2);
        assert(s1 =~= l1[0].encoded() + x1);
        assert(s2 =~= l2[0].encoded() + x2);
        lemma_encoded_prefix(l1[0], l2[0], x1, x2);
        lemma_encoded_all_prefix(l1.skip(1), l2.skip(1), r1, r2);
        assert(l1 =~= seq![l1[0]] + l1.skip(1));
        assert(l2 =~= seq![l2[0]] + l2.skip(1));
    }
}

/// Mangling is injective: two instances of one generic entity have the same path
/// only if the same arguments are bound in both.
pub proof fn lemma_mangled_injective(
    name: Seq<char>,
    arguments1: Seq<TypeSpec>,
    arguments2: Seq<TypeSpec>,
)
    requires
        mangled(name, arguments1) == mangled(name, arguments2),
    ensures
        arguments1 == arguments2,
{
    let x1 = seq!['_'] + TypeSpec::encoded_all(arguments1);
    let x2 = seq!['_'] + TypeSpec::encoded_all(arguments2);
    assert(x1 =~= (name + x1).skip(name.len() as int));
    assert(x2 =~= (name + x2).skip(name.len() as int));
    lemma_cons('_', TypeSpec::encoded_all(arguments1), '_', TypeSpec::encoded_all(arguments2));
    let e = Seq::<char>::empty();
    lemma_encoded_all_prefix(arguments1, arguments2, e, e);
}

/// Appends the decimal digit for `d`.
fn push_digit(out: &mut String, d: u64)
    requires
        d < 10,
    ensures
        final(out)@ == old(out)@.push(digit(d as nat)),
{
    proof {
        reveal_strlit("0");
        reveal_strlit("1");
        reveal_strlit("2");
        reveal_strlit("3");
        reveal_strlit("4");
        reveal_strlit("5");
        reveal_strlit("6");
        reveal_strlit("7");
        reveal_strlit("8");
        reveal_strlit("9");
    }
    if d == 0 {
        out.append("0");
    } else if d == 1 {
        out.append("1");
    } else if d == 2 {
        out.append("2");
    } else if d == 3 {
        out.append("3");
    } else if d == 4 {
        out.append("4");
    } else if d == 5 {
        out.append("5");
    } else if d == 6 {
        out.append("6");
    } else if d == 7 {
        out.append("7");
    } else if d == 8 {
        out.append("8");
    } else {
        out.append("9");
    }
    assert(out@ =~= old(out)@.push(digit(d as nat)));
}

/// Appends the code of `n`.
fn push_nat(out: &mut String, n: u64)
    ensures
        final(out)@ == old(out)@ + encode_nat(n as nat),
{
    let mut rest: u64 = n;
    assert(out@ =~= old(out)@ + Seq::<char>::empty());
    let ghost mut done: Seq<char> = Seq::empty();
    while rest >= 10
        invariant
            out@ == old(out)@ + done,
            done + encode_nat(rest as nat) == encode_nat(n as nat),
        decreases rest,
    {
        push_digit(out, rest % 10);
        proof {
            let next = done.push(digit((rest % 10) as nat));
            assert(out@ =~= old(out)@ + next);
            assert(next + encode_nat((rest / 10) as nat) =~= done + encode_nat(rest as nat));
            done = next;
        }
        rest = rest / 10;
    }
    push_digit(out, rest);
    proof {
        reveal_strlit("_");
    }
    out.append("_");
    assert(out@ =~= old(out)@ + encode_nat(n as nat)) by {
        assert(encode_nat(rest as nat) =~= seq![digit(rest as nat), '_']);
        assert(out@ =~= old(out)@ + (done + encode_nat(rest as nat)));
    }
}

/// Appends the letter that stands for `p`.
fn push_primitive(out: &mut String, p: Primitive)
    ensures
        final(out)@ == old(out)@.push(primitive_code(p)),
{
    proof {
        reveal_strlit("v");
        reveal_strlit("b");
        reveal_strlit("c");
        reveal_strlit("a");
        reveal_strlit("h");
        reveal_strlit("s");
        reveal_strlit("t");
        reveal_strlit("i");
        reveal_strlit("j");
        reveal_strlit("l");
        reveal_strlit("m");
        reveal_strlit("f");
        reveal_strlit("d");
    }
    match p {
        Primitive::Void => out.append("v"),
        Primitive::Bool => out.append("b"),
        Primitive::Char => out.append("c"),
        Primitive::SChar => out.append("a"),
        Primitive::UChar => out.append("h"),
        Primitive::Short => out.append("s"),
        Primitive::UShort => out.append("t"),
        Primitive::Int => out.append("i"),
        Primitive::UInt => out.append("j"),
        Primitive::Long => out.append("l"),
        Primitive::ULong => out.append("m"),
        Primitive::Float => out.append("f"),
        Primitive::Double => out.append("d"),
    }
    assert(out@ =~= old(out)@.push(primitive_code(p)));
}

impl Type {
    /// Appends the first character of the code of this type expression.
    fn push_head(&self, out: &mut String)
        ensures
            final(out)@ == old(out)@.push(self@.head()),
    {
        proof {
            reveal_strlit("N");
            reveal_strlit("S");
            reveal_strlit("M");
            reveal_strlit("U");
            reveal_strlit("K");
            reveal_strlit("P");
            reveal_strlit("A");
            reveal_strlit("F");
            reveal_strlit("O");
        }
        match self {
            Type::Primitive(p) => {
                push_primitive(out, *p);
            },
            Type::Path { name, generics, tag } => {
                match tag {
                    None => out.append("N"),
                    Some(Tag::Struct) => out.append("S"),
                    Some(Tag::Enum) => out.append("M"),
                    Some(Tag::Union) => out.append("U"),
                }
            },
            Type::Ptr { is_const, target } => {
                if *is_const {
                    out.append("K");
                } else {
                    out.append("P");
                }
            },
            Type::Array { element, length } => {
                out.append("A");
            },
            Type::FuncPtr { ret, args } => {
                out.append("F");
            },
            Type::Optional(inner) => {
                out.append("O");
            },
        }
        assert(out@ =~= old(out)@.push(self@.head()));
    }

    /// Appends the code of this type expression.
    pub fn encode(&self, out: &mut String)
        ensures
            final(out)@ == old(out)@ + self@.encoded(),
        decreases self, 0nat,
    {
        self.push_head(out);
        let ghost headed = out@;
        match self {
            Type::Primitive(p) => {},
            Type::Path { name, generics, tag } => {
                let length = name.as_str().unicode_len();
                push_nat(out, length as u64);
                out.append(name.as_str());
                Self::encode_all(generics, 0, out);
                proof {
                    reveal_strlit("E");
                }
                out.append("E");
                assert(Self::models(generics@).skip(0) =~= Self::models(generics@));
            },
            Type::Ptr { is_const, target } => {
                target.encode(out);
            },
            Type::Array { element, length } => {
                push_nat(out, *length);
                element.encode(out);
            },
            Type::FuncPtr { ret, args } => {
                ret.encode(out);
                Self::encode_all(args, 0, out);
                proof {
                    reveal_strlit("E");
                }
                out.append("E");
                assert(Self::models(args@).skip(0) =~= Self::models(args@));
            },
            Type::Optional(inner) => {
                inner.encode(out);
            },
        }
        assert(out@ =~= headed + self@.tail());
        assert(out@ =~= old(out)@ + self@.encoded());
    }

    /// Appends the codes of `types` from position `start` on.
    fn encode_all(types: &Vec<Type>, start: usize, out: &mut String)
        requires
            start <= types.len(),
        ensures
            final(out)@ == old(out)@ + TypeSpec::encoded_all(Self::models(types@).skip(start as int)),
        decreases types, types.len() - start,
    {
        let ghost rest = Self::models(types@).skip(start as int);
        if start < types.len() {
            types[start].encode(out);
            Self::encode_all(types, start + 1, out);
            assert(rest[0] == types[start as int]@);
            assert(rest.skip(1) =~= Self::models(types@).skip(start + 1));
            assert(out@ =~= old(out)@ + TypeSpec::encoded_all(rest));
        } else {
            assert(out@ =~= old(out)@ + TypeSpec::encoded_all(rest));
        }
    }
}

/// The path of the instance of the generic entity `name` with `arguments` bound.
pub fn mangle_path(name: &String, arguments: &Vec<Type>) -> (r: String)
    ensures
        r@ == mangled(name@, Type::models(arguments@)),
{
    let mut out = name.clone();
    proof {
        reveal_strlit("_");
    }
    out.append("_");
    Type::encode_all(arguments, 0, &mut out);
    assert(Type::models(arguments@).skip(0) =~= Type::models(arguments@));
    assert(out@ =~= mangled(name@, Type::models(arguments@)));
    out
}

} // verus!
