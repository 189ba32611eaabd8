use vstd::prelude::*;

use crate::text::str_eq;

verus! {

/// Built-in scalar types of the language.
#[derive(Debug, Clone, Copy, PartialEq, Eq, Hash, Structural)]
pub enum Primitive {
    Int,
    Uint,
    Float,
    I8,
    I16,
    I32,
    I64,
    U8,
    U16,
    U32,
    U64,
    F32,
    F64,
    Bool,
    Byte,
    Char,
    Str,
    Any,
}

/// The numeric primitives: every integer and float type, and `byte`.
pub open spec fn spec_is_numeric(p: Primitive) -> bool {
    spec_is_integer(p) || spec_is_float(p)
}

/// The integer primitives, `byte` included.
pub open spec fn spec_is_integer(p: Primitive) -> bool {
    match p {
        Primitive::Int | Primitive::Uint | Primitive::I8 | Primitive::I16 | Primitive::I32
        | Primitive::I64 | Primitive::U8 | Primitive::U16 | Primitive::U32 | Primitive::U64
        | Primitive::Byte => true,
        _ => false,
    }
}

/// The floating-point primitives.
pub open spec fn spec_is_float(p: Primitive) -> bool {
    match p {
        Primitive::Float | Primitive::F32 | Primitive::F64 => true,
        _ => false,
    }
}

/// The signed primitives: signed integers and every float type.
pub open spec fn spec_is_signed(p: Primitive) -> bool {
    match p {
        Primitive::Int | Primitive::I8 | Primitive::I16 | Primitive::I32 | Primitive::I64
        | Primitive::Float | Primitive::F32 | Primitive::F64 => true,
        _ => false,
    }
}

/// The source-level spelling of each primitive.
pub open spec fn spec_name(p: Primitive) -> Seq<char> {
    match p {
        Primitive::Int => "int"@,
        Primitive::Uint => "uint"@,
        Primitive::Float => "float"@,
        Primitive::I8 => "i8"@,
        Primitive::I16 => "i16"@,
        Primitive::I32 => "i32"@,
        Primitive::I64 => "i64"@,
        Primitive::U8 => "u8"@,
        Primitive::U16 => "u16"@,
        Primitive::U32 => "u32"@,
        Primitive::U64 => "u64"@,
        Primitive::F32 => "f32"@,
        Primitive::F64 => "f64"@,
        Primitive::Bool => "bool"@,
        Primitive::Byte => "byte"@,
        Primitive::Char => "char"@,
        Primitive::Str => "str"@,
        Primitive::Any => "any"@,
    }
}

/// Distinct primitives are spelled differently.
pub proof fn lemma_names_distinct()
    ensures
        forall|p: Primitive, q: Primitive| spec_name(p) == spec_name(q) ==> p == q,
{
    reveal_strlit("int");
    reveal_strlit("uint");
    reveal_strlit("float");
    reveal_strlit("i8");
    reveal_strlit("i16");
    reveal_strlit("i32");
    reveal_strlit("i64");
    reveal_strlit("u8");
    reveal_strlit("u16");
    reveal_strlit("u32");
    reveal_strlit("u64");
    reveal_strlit("f32");
    reveal_strlit("f64");
    reveal_strlit("bool");
    reveal_strlit("byte");
    reveal_strlit("char");
    reveal_strlit("str");
    reveal_strlit("any");
    assert forall|p: Primitive, q: Primitive| spec_name(p) == spec_name(q) implies p == q by {
        if spec_name(p) == spec_name(q) {
            assert(spec_name(p).len() == spec_name(q).len());
            assert(spec_name(p)[0] == spec_name(q)[0]);
            assert(spec_name(p)[1] == spec_name(q)[1]);
        }
    }
}

impl Primitive {
    /// Whether two primitives are the same.
    pub fn same(self, other: Primitive) -> (r: bool)
        ensures
            r == (self == other),
    {
        self == other
    }


    pub fn is_numeric(self) -> (r: bool)
        ensures
            r == spec_is_numeric(self),
    {
        match self {
            Primitive::Int | Primitive::Uint | Primitive::Float | Primitive::I8 | Primitive::I16
            | Primitive::I32 | Primitive::I64 | Primitive::U8 | Primitive::U16 | Primitive::U32
            | Primitive::U64 | Primitive::F32 | Primitive::F64 | Primitive::Byte => true,
            _ => false,
        }
    }

    pub fn is_integer(self) -> (r: bool)
        ensures
            r == spec_is_integer(self),
    {
        match self {
            Primitive::Int | Primitive::Uint | Primitive::I8 | Primitive::I16 | Primitive::I32
            | Primitive::I64 | Primitive::U8 | Primitive::U16 | Primitive::U32 | Primitive::U64
            | Primitive::Byte => true,
            _ => false,
        }
    }

    pub fn is_float(self) -> (r: bool)
        ensures
            r == spec_is_float(self),
    {
        match self {
            Primitive::Float | Primitive::F32 | Primitive::F64 => true,
            _ => false,
        }
    }

    pub fn is_signed(self) -> (r: bool)
        ensures
            r == spec_is_signed(self),
    {
        match self {
            Primitive::Int | Primitive::I8 | Primitive::I16 | Primitive::I32 | Primitive::I64
            | Primitive::Float | Primitive::F32 | Primitive::F64 => true,
            _ => false,
        }
    }

    pub fn from_name(name: &str) -> (r: Option<Primitive>)
        ensures
            match r {
                Some(p) => spec_name(p) == name@,
                None => forall|p: Primitive| spec_name(p) != name@,
            },
    {
        proof {
            lemma_names_distinct();
        }
        if str_eq(name, "int") {
            proof { reveal_strlit("int"); }
            return Some(Primitive::Int);
        }
        if str_eq(name, "uint") {
            proof { reveal_strlit("uint"); }
            return Some(Primitive::Uint);
        }
        if str_eq(name, "float") {
            proof { reveal_strlit("float"); }
            return Some(Primitive::Float);
        }
        if str_eq(name, "i8") {
            proof { reveal_strlit("i8"); }
            return Some(Primitive::I8);
        }
        if str_eq(name, "i16") {
            proof { reveal_strlit("i16"); }
            return Some(Primitive::I16);
        }
        if str_eq(name, "i32") {
            proof { reveal_strlit("i32"); }
            return Some(Primitive::I32);
        }
        if str_eq(name, "i64") {
            proof { reveal_strlit("i64"); }
            return Some(Primitive::I64);
        }
        if str_eq(name, "u8") {
            proof { reveal_strlit("u8"); }
            return Some(Primitive::U8);
        }
        if str_eq(name, "u16") {
            proof { reveal_strlit("u16"); }
            return Some(Primitive::U16);
        }
        if str_eq(name, "u32") {
            proof { reveal_strlit("u32"); }
            return Some(Primitive::U32);
        }
        if str_eq(name, "u64") {
            proof { reveal_strlit("u64"); }
            return Some(Primitive::U64);
        }
        if str_eq(name, "f32") {
            proof { reveal_strlit("f32"); }
            return Some(Primitive::F32);
        }
        if str_eq(name, "f64") {
            proof { reveal_strlit("f64"); }
            return Some(Primitive::F64);
        }
        if str_eq(name, "bool") {
            proof { reveal_strlit("bool"); }
            return Some(Primitive::Bool);
        }
        if str_eq(name, "byte") {
            proof { reveal_strlit("byte"); }
            return Some(Primitive::Byte);
        }
        if str_eq(name, "char") {
            proof { reveal_strlit("char"); }
            return Some(Primitive::Char);
        }
        if str_eq(name, "str") {
            proof { reveal_strlit("str"); }
            return Some(Primitive::Str);
        }
        if str_eq(name, "any") {
            proof { reveal_strlit("any"); }
            return Some(Primitive::Any);
        }
        proof {
            reveal_strlit("int");
            reveal_strlit("uint");
            reveal_strlit("float");
            reveal_strlit("i8");
            reveal_strlit("i16");
            reveal_strlit("i32");
            reveal_strlit("i64");
            reveal_strlit("u8");
            reveal_strlit("u16");
            reveal_strlit("u32");
            reveal_strlit("u64");
            reveal_strlit("f32");
            reveal_strlit("f64");
            reveal_strlit("bool");
            reveal_strlit("byte");
            reveal_strlit("char");
            reveal_strlit("str");
            reveal_strlit("any");
        }
        None
    }

    pub fn as_str(self) -> (r: &'static str)
        ensures
            r@ == spec_name(self),
    {
        match self {
            Primitive::Int => "int",
            Primitive::Uint => "uint",
            Primitive::Float => "float",
            Primitive::I8 => "i8",
            Primitive::I16 => "i16",
            Primitive::I32 => "i32",
            Primitive::I64 => "i64",
            Primitive::U8 => "u8",
            Primitive::U16 => "u16",
            Primitive::U32 => "u32",
            Primitive::U64 => "u64",
            Primitive::F32 => "f32",
            Primitive::F64 => "f64",
            Primitive::Bool => "bool",
            Primitive::Byte => "byte",
            Primitive::Char => "char",
            Primitive::Str => "str",
            Primitive::Any => "any",
        }
    }
}

} // verus!
