//! The syntax tree of Stucker programs.
use vstd::prelude::*;

use crate::codegen::Error;

verus! {

/// A numeric literal. Float literals are held by their IEEE-754 bit pattern,
/// which is all the code generator reads of them.
#[derive(Clone, Copy, PartialEq, Eq, Structural, Debug)]
pub enum Number {
    I8(i8),
    I16(i16),
    I32(i32),
    I64(i64),
    U8(u8),
    U16(u16),
    U32(u32),
    U64(u64),
    F32(u32),
    F64(u64),
}

impl Number {
    pub open spec fn spec_numtype(self) -> NumberType {
        match self {
            Number::I8(_) => NumberType::I8,
            Number::I16(_) => NumberType::I16,
            Number::I32(_) => NumberType::I32,
            Number::I64(_) => NumberType::I64,
            Number::U8(_) => NumberType::U8,
            Number::U16(_) => NumberType::U16,
            Number::U32(_) => NumberType::U32,
            Number::U64(_) => NumberType::U64,
            Number::F32(_) => NumberType::F32,
            Number::F64(_) => NumberType::F64,
        }
    }

    /// Size in bytes of the literal's type.
    pub fn size_bytes(&self) -> (r: u16)
        ensures
            r == self.spec_numtype().spec_size_bytes(),
    {
        self.numtype().size_bytes()
    }

    /// The type of the literal.
    pub fn numtype(&self) -> (r: NumberType)
        ensures
            r == self.spec_numtype(),
    {
        match self {
            Number::I8(_) => NumberType::I8,
            Number::I16(_) => NumberType::I16,
            Number::I32(_) => NumberType::I32,
            Number::I64(_) => NumberType::I64,
            Number::U8(_) => NumberType::U8,
            Number::U16(_) => NumberType::U16,
            Number::U32(_) => NumberType::U32,
            Number::U64(_) => NumberType::U64,
            Number::F32(_) => NumberType::F32,
            Number::F64(_) => NumberType::F64,
        }
    }
}

#[derive(PartialEq, Eq, Debug, Clone, Copy, Structural)]
pub enum NumberType {
    I8,
    I16,
    I32,
    I64,
    U8,
    U16,
    U32,
    U64,
    F32,
    F64,
}

impl NumberType {
    pub open spec fn spec_size_bytes(self) -> u16 {
        match self {
            NumberType::I8 | NumberType::U8 => 1,
            NumberType::I16 | NumberType::U16 => 2,
            NumberType::I32 | NumberType::U32 | NumberType::F32 => 4,
            NumberType::I64 | NumberType::U64 | NumberType::F64 => 8,
        }
    }

    pub open spec fn is_float(self) -> bool {
        self == NumberType::F32 || self == NumberType::F64
    }

    /// The source-level name of the type.
    pub open spec fn spec_name(self) -> Seq<char> {
        match self {
            NumberType::I8 => "i8"@,
            NumberType::I16 => "i16"@,
            NumberType::I32 => "i32"@,
            NumberType::I64 => "i64"@,
            NumberType::U8 => "u8"@,
            NumberType::U16 => "u16"@,
            NumberType::U32 => "u32"@,
            NumberType::U64 => "u64"@,
            NumberType::F32 => "f32"@,
            NumberType::F64 => "f64"@,
        }
    }

    /// Size in bytes of a value of this type.
    pub fn size_bytes(&self) -> (r: u16)
        ensures
            r == self.spec_size_bytes(),
    {
        match self {
            NumberType::I8 => 8 / 8,
            NumberType::I16 => 16 / 8,
            NumberType::I32 => 32 / 8,
            NumberType::I64 => 64 / 8,
            NumberType::U8 => 8 / 8,
            NumberType::U16 => 16 / 8,
            NumberType::U32 => 32 / 8,
            NumberType::U64 => 64 / 8,
            NumberType::F32 => 32 / 8,
            NumberType::F64 => 64 / 8,
        }
    }

    /// The source-level name of the type, as the type's `Display` writes it.
    pub fn name(&self) -> (r: &'static str)
        ensures
            r@ == self.spec_name(),
    {
        match self {
            NumberType::I8 => "i8",
            NumberType::I16 => "i16",
            NumberType::I32 => "i32",
            NumberType::I64 => "i64",
            NumberType::U8 => "u8",
            NumberType::U16 => "u16",
            NumberType::U32 => "u32",
            NumberType::U64 => "u64",
            NumberType::F32 => "f32",
            NumberType::F64 => "f64",
        }
    }
}

#[derive(Debug)]
pub enum Expression {
    Call(String, Vec<Expression>),
    Number(Number),
    Symbol(String),
    BinOp(Box<(Expression, String, Expression)>),
    Ref(Box<Expression>),
    Deref(Box<Expression>),
    As(Box<(ExpressionType, Expression)>),
    InitArray(Box<(Expression, ExpressionType)>),
    FieldAccess(Box<(Expression, String)>),
    ArrayAccess(Box<(Expression, Expression)>),
    String(String),
}

#[derive(Debug)]
pub enum ExpressionType {
    Number(NumberType),
    Struct(String),
    Ref(Box<ExpressionType>),
    Array(Box<ExpressionType>),
    Str,
    Void,
}

/// The mathematical model of a type: struct names are held as `Seq<char>`.
pub enum TypeModel {
    Number(NumberType),
    Struct(Seq<char>),
    Ref(Box<TypeModel>),
    Array(Box<TypeModel>),
    Str,
    Void,
}

impl View for ExpressionType {
    type V = TypeModel;

    open spec fn view(&self) -> TypeModel
        decreases self,
    {
        match self {
            ExpressionType::Number(n) => TypeModel::Number(*n),
            ExpressionType::Struct(s) => TypeModel::Struct(s@),
            ExpressionType::Ref(t) => TypeModel::Ref(Box::new((**t)@)),
            ExpressionType::Array(t) => TypeModel::Array(Box::new((**t)@)),
            ExpressionType::Str => TypeModel::Str,
            ExpressionType::Void => TypeModel::Void,
        }
    }
}


impl ExpressionType {
    /// Structural equality of two types.
    pub fn same(&self, other: &ExpressionType) -> (r: bool)
        ensures
            r == (self@ == other@),
        decreases self,
    {
        match (self, other) {
            (ExpressionType::Number(a), ExpressionType::Number(b)) => *a == *b,
            (ExpressionType::Struct(a), ExpressionType::Struct(b)) => *a == *b,
            (ExpressionType::Ref(a), ExpressionType::Ref(b)) => {
                let r = (**a).same(&**b);
                proof {
                    if !r {
                        assert((**a)@ != (**b)@);
                        assert(TypeModel::Ref(Box::new((**a)@)) != TypeModel::Ref(Box::new((**b)@))) by {
                            let x = TypeModel::Ref(Box::new((**a)@));
                            let y = TypeModel::Ref(Box::new((**b)@));
                            if x == y {
                                assert(x->Ref_0 == y->Ref_0);
                            }
                        }
                    }
                }
                r
            },
            (ExpressionType::Array(a), ExpressionType::Array(b)) => {
                let r = (**a).same(&**b);
                proof {
                    if !r {
                        let x = TypeModel::Array(Box::new((**a)@));
                        let y = TypeModel::Array(Box::new((**b)@));
                        if x == y {
                            assert(x->Array_0 == y->Array_0);
                        }
                    }
                }
                r
            },
            (ExpressionType::Str, ExpressionType::Str) => true,
            (ExpressionType::Void, ExpressionType::Void) => true,
            _ => false,
        }
    }

    /// Whether this is the `void` type.
    pub fn is_void_type(&self) -> (r: bool)
        ensures
            r == (self@ == TypeModel::Void),
    {
        match self {
            ExpressionType::Void => true,
            _ => false,
        }
    }

    /// Unwraps a number type; any other type is an `ExpectedNumber` error.
    pub fn to_number(self) -> (r: Result<NumberType, Error>)
        ensures
            self is Number ==> r == Ok::<NumberType, Error>(self->Number_0),
            !(self is Number) ==> (r matches Err(Error::ExpectedNumber(t)) && t@ == self@),
    {
        match self {
            ExpressionType::Number(number) => Ok(number),
            _ => Err(Error::ExpectedNumber(self)),
        }
    }

    /// Unwraps a reference type to the type it refers to; any other type is an
    /// `ExpectedRef` error.
    pub fn to_ref(self) -> (r: Result<ExpressionType, Error>)
        ensures
            self is Ref ==> (r matches Ok(t) && t@ == (*self->Ref_0)@),
            !(self is Ref) ==> (r matches Err(Error::ExpectedRef(t)) && t@ == self@),
    {
        match self {
            ExpressionType::Ref(expr) => Ok(*expr),
            _ => Err(Error::ExpectedRef(self)),
        }
    }
}

/// The source-level text of a type: the syntax `parse_type` reads.
pub open spec fn type_text(t: TypeModel) -> Seq<char>
    decreases t,
{
    match t {
        TypeModel::Number(n) => n.spec_name(),
        TypeModel::Struct(s) => s,
        TypeModel::Ref(x) => "&"@ + type_text(*x),
        TypeModel::Array(x) => "[]"@ + type_text(*x),
        TypeModel::Str => "str"@,
        TypeModel::Void => "void"@,
    }
}

impl ExpressionType {
    /// The source-level text of the type (what its `Display` writes).
    pub fn to_string(&self) -> (r: String)
        ensures
            r@ == type_text(self@),
        decreases self,
    {
        match self {
            ExpressionType::Number(n) => String::from_str(n.name()),
            ExpressionType::Struct(s) => s.clone(),
            ExpressionType::Ref(x) => String::from_str("&").concat((**x).to_string().as_str()),
            ExpressionType::Array(x) => String::from_str("[]").concat((**x).to_string().as_str()),
            ExpressionType::Str => String::from_str("str"),
            ExpressionType::Void => String::from_str("void"),
        }
    }
}

impl Clone for ExpressionType {
    fn clone(&self) -> (r: Self)
        ensures
            r@ == self@,
        decreases self,
    {
        match self {
            ExpressionType::Number(n) => ExpressionType::Number(*n),
            ExpressionType::Struct(s) => ExpressionType::Struct(s.clone()),
            ExpressionType::Ref(t) => ExpressionType::Ref(Box::new((**t).clone())),
            ExpressionType::Array(t) => ExpressionType::Array(Box::new((**t).clone())),
            ExpressionType::Str => ExpressionType::Str,
            ExpressionType::Void => ExpressionType::Void,
        }
    }
}

/// The calling convention of a function: Stucker's own stack discipline, or
/// the C ABI for functions defined elsewhere.
pub enum Abi {
    Stucker,
    C,
}

/// A top-level definition.
pub enum GlobalValue {
    Function(Function),
    Struct(Struct),
}

/// A function: its signature, and its body unless it is only declared.
pub struct Function {
    pub return_type: ExpressionType,
    pub params: Vec<(ExpressionType, String)>,
    pub body: Option<Vec<Statement>>,
    pub abi: Abi,
    pub is_variadic: bool,
}

/// A struct's fields: their types and names, in order.
pub struct Struct(pub Vec<(ExpressionType, String)>);

pub enum Statement {
    DefAssign(DefAssignment),
    SetAssign(SetAssignment),
    Return(Option<Expression>),
    Expr(Expression),
    Block(Vec<Statement>),
    If(Box<(Expression, Statement, Option<Statement>)>),
    While(Box<(Expression, Statement)>),
    For(Box<ForStatement>),
    Breakpoint,
}

/// `for (init; cond; inc) body`.
pub struct ForStatement {
    pub init: Statement,
    pub cond: Expression,
    pub inc: Statement,
    pub body: Statement,
}

/// `def T name = value;` or `def T name;`.
pub struct DefAssignment {
    pub var_type: ExpressionType,
    pub var_name: String,
    pub var_value: Option<Expression>,
}

/// `set dest = src;`, or `set *dest = src;` to write through a reference.
pub struct SetAssignment {
    pub var_dest: Expression,
    pub var_src: Expression,
    pub deref: bool,
}

} // verus!
