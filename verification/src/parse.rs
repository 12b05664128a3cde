//! The parser: recursive descent over the token stream, with precedence
//! climbing for binary operators.
use vstd::prelude::*;

use crate::ast::{
    Abi, DefAssignment, Expression, ExpressionType, ForStatement, Function, GlobalValue, NumberType, SetAssignment,
    Statement, Struct, TypeModel,
};
use crate::nasm::owned;
use crate::tokenize::{
    is_symbol_text, lemma_lexes_empty, lemma_lexes_finish, lemma_lexes_push, lexes, token_start, FloatBits, Token,
    Tokenizer,
};

verus! {

#[derive(Debug)]
pub enum Error {
    Tokenizer(crate::tokenize::Error),
    UnexpectedEof,
    ExpectedSymbol,
    ExpectedOperand(char),
    ExpectedStruct,
    UnknownToken,
    ExpectedNumber,
    DuplicateField(String),
}

/// The operator a lookahead token names, and its precedence.
pub open spec fn precedence(t: Option<Token>) -> Option<(Seq<char>, u64)> {
    match t {
        Some(Token::Operand(c)) => if c == '+' {
            Some(("+"@, 20))
        } else if c == '-' {
            Some(("-"@, 20))
        } else if c == '*' {
            Some(("*"@, 40))
        } else if c == '/' {
            Some(("/"@, 40))
        } else if c == '%' {
            Some(("%"@, 40))
        } else if c == '&' {
            Some(("&"@, 60))
        } else if c == '|' {
            Some(("|"@, 60))
        } else if c == '^' {
            Some(("^"@, 60))
        } else if c == '>' {
            Some((">"@, 100))
        } else if c == '<' {
            Some(("<"@, 100))
        } else {
            None
        },
        Some(Token::Operand2(a, b)) => if a == '<' && b == '<' {
            Some(("<<"@, 60))
        } else if a == '>' && b == '>' {
            Some((">>"@, 60))
        } else if a == '&' && b == '&' {
            Some(("&&"@, 80))
        } else if a == '|' && b == '|' {
            Some(("||"@, 80))
        } else if a == '>' && b == '=' {
            Some((">="@, 100))
        } else if a == '<' && b == '=' {
            Some(("<="@, 100))
        } else if a == '=' && b == '=' {
            Some(("=="@, 100))
        } else if a == '!' && b == '=' {
            Some(("!="@, 100))
        } else {
            None
        },
        _ => None,
    }
}

/// The type a name denotes: a number type, `void`, `str`, or else a struct.
pub open spec fn type_of_name(s: Seq<char>) -> TypeModel {
    if s == "i8"@ {
        TypeModel::Number(NumberType::I8)
    } else if s == "i16"@ {
        TypeModel::Number(NumberType::I16)
    } else if s == "i32"@ {
        TypeModel::Number(NumberType::I32)
    } else if s == "i64"@ {
        TypeModel::Number(NumberType::I64)
    } else if s == "u8"@ {
        TypeModel::Number(NumberType::U8)
    } else if s == "u16"@ {
        TypeModel::Number(NumberType::U16)
    } else if s == "u32"@ {
        TypeModel::Number(NumberType::U32)
    } else if s == "u64"@ {
        TypeModel::Number(NumberType::U64)
    } else if s == "f32"@ {
        TypeModel::Number(NumberType::F32)
    } else if s == "f64"@ {
        TypeModel::Number(NumberType::F64)
    } else if s == "void"@ {
        TypeModel::Void
    } else if s == "str"@ {
        TypeModel::Str
    } else {
        TypeModel::Struct(s)
    }
}

/// Every operator the parser reads is one the code generator compiles: on
/// two `u16` operands each has a type.
pub proof fn law_parsed_operators_compile(t: Option<Token>)
    ensures
        precedence(t) matches Some((op, _)) ==> crate::expr::binop_typed(op, NumberType::U16, NumberType::U16) is Some,
{
}

/// The name of each number type, of `void` and of `str` reads back as that
/// type.
pub proof fn law_type_names_read_back(t: TypeModel)
    requires
        t is Number || t is Void || t is Str,
    ensures
        type_of_name(crate::ast::type_text(t)) == t,
{
    reveal_strlit("i8");
    reveal_strlit("i16");
    reveal_strlit("i32");
    reveal_strlit("i64");
    reveal_strlit("u8");
    reveal_strlit("u16");
    reveal_strlit("u32");
    reveal_strlit("u64");
    reveal_strlit("f32");
    reveal_strlit("f64");
    reveal_strlit("void");
    reveal_strlit("str");
    assert("i8"@.len() == 2 && "u8"@.len() == 2 && "i16"@.len() == 3 && "void"@.len() == 4);
    match t {
        TypeModel::Number(n) => {
            let s = n.spec_name();
            match n {
                NumberType::I8 | NumberType::I16 => {},
                NumberType::I32 => {
                    assert(s[1] != "i16"@[1]);
                },
                NumberType::I64 => {
                    assert(s[1] != "i16"@[1]);
                    assert(s[1] != "i32"@[1]);
                },
                NumberType::U8 => {
                    assert(s[0] != "i8"@[0]);
                },
                NumberType::U16 => {
                    assert(s[0] != "i16"@[0]);
                    assert(s[0] != "i32"@[0]);
                    assert(s[0] != "i64"@[0]);
                },
                NumberType::U32 => {
                    assert(s[0] != "i16"@[0]);
                    assert(s[0] != "i32"@[0]);
                    assert(s[0] != "i64"@[0]);
                    assert(s[1] != "u16"@[1]);
                },
                NumberType::U64 => {
                    assert(s[0] != "i16"@[0]);
                    assert(s[0] != "i32"@[0]);
                    assert(s[0] != "i64"@[0]);
                    assert(s[1] != "u16"@[1]);
                    assert(s[1] != "u32"@[1]);
                },
                NumberType::F32 => {
                    assert(s[0] != "i16"@[0]);
                    assert(s[0] != "i32"@[0]);
                    assert(s[0] != "i64"@[0]);
                    assert(s[0] != "u16"@[0]);
                    assert(s[0] != "u32"@[0]);
                    assert(s[0] != "u64"@[0]);
                },
                NumberType::F64 => {
                    assert(s[0] != "i16"@[0]);
                    assert(s[0] != "i32"@[0]);
                    assert(s[0] != "i64"@[0]);
                    assert(s[0] != "u16"@[0]);
                    assert(s[0] != "u32"@[0]);
                    assert(s[0] != "u64"@[0]);
                    assert(s[1] != "f32"@[1]);
                },
            }
        },
        TypeModel::Void => {},
        TypeModel::Str => {
            let s = "str"@;
            assert(s[0] != "i16"@[0]);
            assert(s[0] != "i32"@[0]);
            assert(s[0] != "i64"@[0]);
            assert(s[0] != "u16"@[0]);
            assert(s[0] != "u32"@[0]);
            assert(s[0] != "u64"@[0]);
            assert(s[0] != "f32"@[0]);
            assert(s[0] != "f64"@[0]);
        },
        _ => {},
    }
}

/// A primary expression can begin with the token `t`: a string, a symbol,
/// a number or `(`.
pub open spec fn starts_inner(t: Option<Token>) -> bool {
    match t {
        Some(Token::String(_)) | Some(Token::Symbol(_)) | Some(Token::Number(_)) => true,
        Some(Token::Operand(c)) => c == '(',
        _ => false,
    }
}

/// The token can begin an expression: a string, a symbol, a number, `(`,
/// `&`, `*` or `[`.
pub open spec fn starts_expression(t: Option<Token>) -> bool {
    ||| starts_inner(t)
    ||| t matches Some(Token::Operand(c)) && (c == '&' || c == '*' || c == '[')
}

/// The token an optional token stands for, as a sequence.
pub open spec fn opt_seq(t: Option<Token>) -> Seq<Token> {
    match t {
        Some(x) => seq![x],
        None => Seq::empty(),
    }
}

/// The token after the first `i` of `ts`, where `fo` follows `ts`.
pub open spec fn after(ts: Seq<Token>, i: int, fo: Option<Token>) -> Option<Token> {
    if 0 <= i < ts.len() {
        Some(ts[i])
    } else {
        fo
    }
}

/// The token is the symbol `kw`.
pub open spec fn is_kw(t: Token, kw: Seq<char>) -> bool {
    t matches Token::Symbol(s) && s@ == kw
}

/// The token is the operand `c`.
pub open spec fn is_op(t: Option<Token>, c: char) -> bool {
    t == Some(Token::Operand(c))
}

/// `ts` are the tokens of a type that denotes `t`: `[]` or `&` before a
/// type, or a name.
pub open spec fn type_tokens(ts: Seq<Token>, t: TypeModel) -> bool
    decreases ts.len(),
{
    if ts.len() == 0 {
        false
    } else if ts[0] == Token::Operand('[') {
        ts.len() >= 2 && ts[1] == Token::Operand(']') && t is Array && type_tokens(ts.skip(2), *t->Array_0)
    } else if ts[0] == Token::Operand('&') {
        t is Ref && type_tokens(ts.skip(1), *t->Ref_0)
    } else {
        ts.len() == 1 && (ts[0] matches Token::Symbol(s) && t == type_of_name(s@))
    }
}

/// Where the tokens of a grammar rule split into the rule's parts: the
/// positions where parts end, the trees built in between, and the splits of
/// the parts.
pub struct Split {
    pub at: Seq<int>,
    pub trees: Seq<Expression>,
    pub parts: Seq<Split>,
}

/// `ts`, followed by `fo`, are the tokens of the expression `e`, split as
/// `d` says: a primary expression, then binary operators folded by
/// precedence climbing.
pub open spec fn expr_tokens(ts: Seq<Token>, fo: Option<Token>, e: Expression, d: Split) -> bool
    decreases d,
{
    d.at.len() == 1 && d.trees.len() == 1 && d.parts.len() == 2 && {
        let i = d.at[0];
        let lhs = d.trees[0];
        &&& 1 <= i <= ts.len()
        &&& prim_tokens(ts.take(i), after(ts, i, fo), lhs, d.parts[0])
        &&& climb_tokens(lhs, ts.skip(i), fo, 0, e, d.parts[1])
    }
}

/// `ts`, followed by `fo`, fold the operators of precedence at least `min`
/// into `lhs`, giving `e`; `fo` is no such operator.
pub open spec fn climb_tokens(lhs: Expression, ts: Seq<Token>, fo: Option<Token>, min: u64, e: Expression, d: Split) -> bool
    decreases d,
{
    &&& d.parts.len() == 1
    &&& steps_tokens(lhs, ts, fo, min, e, d.parts[0])
    &&& !(precedence(fo) matches Some((_, p)) && p >= min)
}

/// `ts`, followed by `fo`, are operator steps of precedence at least `min`
/// that turn `lhs` into `e`, from left to right.
pub open spec fn steps_tokens(lhs: Expression, ts: Seq<Token>, fo: Option<Token>, min: u64, e: Expression, d: Split) -> bool
    decreases d,
{
    if ts.len() == 0 {
        e == lhs
    } else {
        d.at.len() == 1 && d.trees.len() == 1 && d.parts.len() == 2 && {
            let k = d.at[0];
            let mid = d.trees[0];
            &&& 0 <= k < ts.len()
            &&& steps_tokens(lhs, ts.take(k), after(ts, k, fo), min, mid, d.parts[0])
            &&& step_tokens(mid, ts.skip(k), fo, min, e, d.parts[1])
        }
    }
}

/// `ts`, followed by `fo`, are one operator step: an operator of
/// precedence `p` at least `min`, and the primary after it extended by the
/// operators that bind tighter than `p`; `e` applies the operator to `lhs`
/// and that operand.
pub open spec fn step_tokens(lhs: Expression, ts: Seq<Token>, fo: Option<Token>, min: u64, e: Expression, d: Split) -> bool
    decreases d,
{
    ts.len() >= 2 && d.at.len() == 1 && d.trees.len() == 2 && d.parts.len() == 2 && match precedence(Some(ts[0])) {
        Some((op, p)) => {
            let j = d.at[0];
            let rhs0 = d.trees[0];
            let rhs = d.trees[1];
            &&& p >= min
            &&& 2 <= j <= ts.len()
            &&& prim_tokens(ts.subrange(1, j), after(ts, j, fo), rhs0, d.parts[0])
            &&& climb_tokens(rhs0, ts.skip(j), fo, (p + 1) as u64, rhs, d.parts[1])
            &&& e matches Expression::BinOp(b) && b.0 == lhs && b.1@ == op && b.2 == rhs
        },
        None => false,
    }
}

/// `ts`, followed by `fo`, are the tokens of a primary expression with its
/// field accesses and indexing, `e`; `fo` continues neither.
pub open spec fn prim_tokens(ts: Seq<Token>, fo: Option<Token>, e: Expression, d: Split) -> bool
    decreases d,
{
    !is_op(fo, '.') && !is_op(fo, '[') && d.parts.len() == 1 && chain_tokens(ts, fo, e, d.parts[0])
}

/// `ts`, followed by `fo`, are the tokens of a primary expression followed
/// by field accesses `.f` and indexing `[i]`, giving `e`.
pub open spec fn chain_tokens(ts: Seq<Token>, fo: Option<Token>, e: Expression, d: Split) -> bool
    decreases d,
{
    d.parts.len() >= 1 && {
        ||| inner_tokens(ts, fo, e, d.parts[0])
        ||| (e matches Expression::FieldAccess(b) && ts.len() >= 3 && ts[ts.len() - 2] == Token::Operand('.')
            && ts[ts.len() - 1] == Token::Symbol(b.1) && chain_tokens(
            ts.take(ts.len() - 2),
            Some(Token::Operand('.')),
            b.0,
            d.parts[0],
        ))
        ||| (e matches Expression::ArrayAccess(b) && ts.len() >= 4 && ts[ts.len() - 1] == Token::Operand(']')
            && d.at.len() == 1 && d.parts.len() == 2 && {
            let i = d.at[0];
            &&& 1 <= i && i + 2 < ts.len()
            &&& ts[i] == Token::Operand('[')
            &&& chain_tokens(ts.take(i), Some(Token::Operand('[')), b.0, d.parts[0])
            &&& expr_tokens(ts.subrange(i + 1, ts.len() - 1), Some(Token::Operand(']')), b.1, d.parts[1])
        })
    }
}

/// `ts`, followed by `fo`, are the tokens of a primary expression `e`:
/// `&x`, `*x`, `[len]T`, `as(T)x`, a string, a name or call, a number, or
/// an expression in parentheses.
pub open spec fn inner_tokens(ts: Seq<Token>, fo: Option<Token>, e: Expression, d: Split) -> bool
    decreases d,
{
    if ts.len() == 0 || d.parts.len() != 1 {
        false
    } else if ts[0] == Token::Operand('&') {
        e matches Expression::Ref(x) && prim_tokens(ts.skip(1), fo, *x, d.parts[0])
    } else if ts[0] == Token::Operand('*') {
        e matches Expression::Deref(x) && prim_tokens(ts.skip(1), fo, *x, d.parts[0])
    } else if ts[0] == Token::Operand('[') {
        e matches Expression::InitArray(b) && d.at.len() == 1 && {
            let i = d.at[0];
            &&& 2 <= i < ts.len()
            &&& ts[i] == Token::Operand(']')
            &&& expr_tokens(ts.subrange(1, i), Some(Token::Operand(']')), b.0, d.parts[0])
            &&& type_tokens(ts.skip(i + 1), b.1@)
        }
    } else if is_kw(ts[0], "as"@) {
        e matches Expression::As(b) && ts.len() >= 2 && ts[1] == Token::Operand('(') && d.at.len() == 1 && {
            let i = d.at[0];
            &&& 3 <= i < ts.len()
            &&& ts[i] == Token::Operand(')')
            &&& type_tokens(ts.subrange(2, i), b.0@)
            &&& prim_tokens(ts.skip(i + 1), fo, b.1, d.parts[0])
        }
    } else if ts[0] is String {
        ts.len() == 1 && e == Expression::String(ts[0]->String_0)
    } else if ts[0] is Symbol {
        ident_tokens(ts, fo, e, d.parts[0])
    } else if ts[0] is Number {
        ts.len() == 1 && e == Expression::Number(ts[0]->Number_0)
    } else if ts[0] == Token::Operand('(') {
        ts.len() >= 3 && ts[ts.len() - 1] == Token::Operand(')') && expr_tokens(
            ts.subrange(1, ts.len() - 1),
            Some(Token::Operand(')')),
            e,
            d.parts[0],
        )
    } else {
        false
    }
}

/// `ts`, followed by `fo`, are the tokens of a name, or of a call with its
/// arguments in parentheses.
pub open spec fn ident_tokens(ts: Seq<Token>, fo: Option<Token>, e: Expression, d: Split) -> bool
    decreases d,
{
    ts.len() >= 1 && ts[0] is Symbol && {
        let k = ts[0]->Symbol_0;
        ||| (ts.len() == 1 && !is_op(fo, '(') && e == Expression::Symbol(k))
        ||| (ts.len() >= 3 && ts[1] == Token::Operand('(') && ts[ts.len() - 1] == Token::Operand(')')
            && d.parts.len() == 1 && (e matches Expression::Call(k2, args) && k2 == k && args_tokens(
            ts.subrange(2, ts.len() - 1),
            Some(Token::Operand(')')),
            args@,
            d.parts[0],
        )))
    }
}

/// `ts`, followed by `fo`, are the tokens of the arguments `a`: each an
/// expression, followed by an optional comma that it takes.
pub open spec fn args_tokens(ts: Seq<Token>, fo: Option<Token>, a: Seq<Expression>, d: Split) -> bool
    decreases d,
{
    if a.len() == 0 {
        ts.len() == 0
    } else {
        d.at.len() == 2 && d.parts.len() == 2 && {
            let i = d.at[0];
            let j = d.at[1];
            &&& 0 <= i < j <= ts.len()
            &&& args_tokens(ts.take(i), after(ts, i, fo), a.drop_last(), d.parts[0])
            &&& expr_tokens(ts.subrange(i, j), after(ts, j, fo), a.last(), d.parts[1])
            &&& (j == ts.len() && !is_op(fo, ',')) || (j + 1 == ts.len() && ts[j] == Token::Operand(','))
        }
    }
}

/// The token begins a statement of its own: a statement keyword or `{`.
pub open spec fn starts_statement(t: Token) -> bool {
    ||| is_kw(t, "return"@)
    ||| is_kw(t, "def"@)
    ||| is_kw(t, "set"@)
    ||| is_kw(t, "breakpoint"@)
    ||| is_kw(t, "if"@)
    ||| is_kw(t, "while"@)
    ||| is_kw(t, "for"@)
    ||| t == Token::Operand('{')
}

/// `ts`, followed by `fo`, are the tokens of the statement `s`: `return`,
/// `def`, `set`, `breakpoint`, `if`, `while` and `for` each begin with their
/// keyword, a block with `{`; anything else is an expression.
pub open spec fn stmt_tokens(ts: Seq<Token>, fo: Option<Token>, s: Statement, d: Split) -> bool
    decreases d,
{
    ts.len() >= 1 && match s {
        Statement::Return(None) => is_kw(ts[0], "return"@) && ts.len() == 1 && is_op(fo, ';'),
        Statement::Return(Some(e)) => is_kw(ts[0], "return"@) && d.parts.len() == 1 && expr_tokens(
            ts.skip(1),
            fo,
            e,
            d.parts[0],
        ),
        Statement::DefAssign(a) => is_kw(ts[0], "def"@) && d.parts.len() == 1 && def_tokens(ts.skip(1), fo, a, d.parts[0]),
        Statement::SetAssign(a) => is_kw(ts[0], "set"@) && d.parts.len() == 1 && set_tokens(ts.skip(1), fo, a, d.parts[0]),
        Statement::Breakpoint => is_kw(ts[0], "breakpoint"@) && ((ts.len() == 1 && !is_op(fo, ';')) || (ts.len() == 2
            && ts[1] == Token::Operand(';'))),
        Statement::If(b) => is_kw(ts[0], "if"@) && d.at.len() == 2 && d.parts.len() == 3 && {
            let i = d.at[0];
            let j = d.at[1];
            &&& 2 <= i < j <= ts.len()
            &&& expr_tokens(ts.subrange(1, i), Some(ts[i]), b.0, d.parts[0])
            &&& stmt_tokens(ts.subrange(i, j), after(ts, j, fo), b.1, d.parts[1])
            &&& match b.2 {
                None => j == ts.len() && !(fo matches Some(t) && is_kw(t, "else"@)),
                Some(e) => j < ts.len() && is_kw(ts[j], "else"@) && stmt_tokens(ts.skip(j + 1), fo, e, d.parts[2]),
            }
        },
        Statement::While(b) => is_kw(ts[0], "while"@) && d.at.len() == 1 && d.parts.len() == 2 && {
            let i = d.at[0];
            &&& 2 <= i < ts.len()
            &&& expr_tokens(ts.subrange(1, i), Some(ts[i]), b.0, d.parts[0])
            &&& stmt_tokens(ts.skip(i), fo, b.1, d.parts[1])
        },
        Statement::For(f) => is_kw(ts[0], "for"@) && ts.len() >= 2 && ts[1] == Token::Operand('(') && d.at.len() == 3
            && d.parts.len() == 4 && {
            let a = d.at[0];
            let b = d.at[1];
            let c = d.at[2];
            &&& 2 < a < b < c < ts.len()
            &&& ts[a] == Token::Operand(';') && ts[b] == Token::Operand(';') && ts[c] == Token::Operand(')')
            &&& stmt_tokens(ts.subrange(2, a), Some(Token::Operand(';')), f.init, d.parts[0])
            &&& expr_tokens(ts.subrange(a + 1, b), Some(Token::Operand(';')), f.cond, d.parts[1])
            &&& stmt_tokens(ts.subrange(b + 1, c), Some(Token::Operand(')')), f.inc, d.parts[2])
            &&& stmt_tokens(ts.skip(c + 1), fo, f.body, d.parts[3])
        },
        Statement::Block(v) => ts[0] == Token::Operand('{') && d.parts.len() == 1 && block_tokens(ts, v@, d.parts[0]),
        Statement::Expr(e) => !starts_statement(ts[0]) && d.parts.len() == 1 && expr_tokens(ts, fo, e, d.parts[0]),
    }
}

/// `ts`, followed by `fo`, are the tokens of a definition after `def`:
/// a type, a name, and `= value` unless `;` follows the name.
pub open spec fn def_tokens(ts: Seq<Token>, fo: Option<Token>, a: DefAssignment, d: Split) -> bool
    decreases d,
{
    d.at.len() == 1 && d.parts.len() == 1 && {
        let i = d.at[0];
        &&& 1 <= i < ts.len()
        &&& type_tokens(ts.take(i), a.var_type@)
        &&& ts[i] == Token::Symbol(a.var_name)
        &&& match a.var_value {
            None => i + 1 == ts.len() && is_op(fo, ';'),
            Some(v) => i + 1 < ts.len() && ts[i + 1] == Token::Operand('=') && expr_tokens(ts.skip(i + 2), fo, v, d.parts[0]),
        }
    }
}

/// `ts`, followed by `fo`, are the tokens of an assignment after `set`: an
/// optional `*`, the destination, `=`, and the value.
pub open spec fn set_tokens(ts: Seq<Token>, fo: Option<Token>, a: SetAssignment, d: Split) -> bool
    decreases d,
{
    ts.len() >= 1 && d.at.len() == 1 && d.parts.len() == 2 && {
        let off: int = if a.deref {
            1
        } else {
            0
        };
        let i = d.at[0];
        &&& a.deref == (ts[0] == Token::Operand('*'))
        &&& off < i < ts.len()
        &&& ts[i] == Token::Operand('=')
        &&& expr_tokens(ts.subrange(off, i), Some(Token::Operand('=')), a.var_dest, d.parts[0])
        &&& expr_tokens(ts.skip(i + 1), fo, a.var_src, d.parts[1])
    }
}

/// `ts` are the tokens of a block: statements between `{` and `}`.
pub open spec fn block_tokens(ts: Seq<Token>, v: Seq<Statement>, d: Split) -> bool
    decreases d,
{
    &&& ts.len() >= 2
    &&& ts[0] == Token::Operand('{')
    &&& ts[ts.len() - 1] == Token::Operand('}')
    &&& d.parts.len() == 1
    &&& stmts_tokens(ts.subrange(1, ts.len() - 1), Some(Token::Operand('}')), v, d.parts[0])
}

/// `ts`, followed by `fo`, are the tokens of the statements `v`: each
/// followed by an optional `;` that it takes.
pub open spec fn stmts_tokens(ts: Seq<Token>, fo: Option<Token>, v: Seq<Statement>, d: Split) -> bool
    decreases d,
{
    if v.len() == 0 {
        ts.len() == 0
    } else {
        d.at.len() == 2 && d.parts.len() == 2 && {
            let i = d.at[0];
            let j = d.at[1];
            &&& 0 <= i < j <= ts.len()
            &&& stmts_tokens(ts.take(i), after(ts, i, fo), v.drop_last(), d.parts[0])
            &&& stmt_tokens(ts.subrange(i, j), after(ts, j, fo), v.last(), d.parts[1])
            &&& (j == ts.len() && !is_op(fo, ';')) || (j + 1 == ts.len() && ts[j] == Token::Operand(';'))
        }
    }
}

/// `ts`, followed by `fo`, are the tokens of the typed names `v`: each a
/// type and a name, followed by an optional comma that it takes.
pub open spec fn fields_tokens(ts: Seq<Token>, fo: Option<Token>, v: Seq<(ExpressionType, String)>, d: Split) -> bool
    decreases d,
{
    if v.len() == 0 {
        ts.len() == 0
    } else {
        d.at.len() == 2 && d.parts.len() == 1 && {
            let i = d.at[0];
            let j = d.at[1];
            &&& 0 <= i < j < ts.len()
            &&& fields_tokens(ts.take(i), after(ts, i, fo), v.drop_last(), d.parts[0])
            &&& type_tokens(ts.subrange(i, j), v.last().0@)
            &&& ts[j] == Token::Symbol(v.last().1)
            &&& (j + 1 == ts.len() && !is_op(fo, ',')) || (j + 2 == ts.len() && ts[j + 1] == Token::Operand(','))
        }
    }
}

/// `ts` are the tokens of typed names between `begin` and `end`.
pub open spec fn bracketed_fields(ts: Seq<Token>, begin: char, end: char, v: Vec<(ExpressionType, String)>, d: Split) -> bool {
    &&& ts.len() >= 2
    &&& ts[0] == Token::Operand(begin)
    &&& ts[ts.len() - 1] == Token::Operand(end)
    &&& fields_tokens(ts.subrange(1, ts.len() - 1), Some(Token::Operand(end)), v@, d)
}

/// `ts` are the tokens of the function `f` named `name`: an optional
/// `extern "C"`, the return type, the name, the parameters in parentheses,
/// and `;` or a body.
pub open spec fn func_tokens(ts: Seq<Token>, name: String, f: Function, d: Split) -> bool {
    let off: int = if f.abi is C {
        2
    } else {
        0
    };
    &&& ts.len() >= 1
    &&& f.abi is C <==> is_kw(ts[0], "extern"@)
    &&& f.abi is C ==> ts.len() >= 2 && (ts[1] matches Token::String(c) && c@ == "C"@)
    &&& !f.is_variadic
    &&& d.at.len() == 2 && d.parts.len() == 2
    &&& off < d.at[0] < d.at[1] < ts.len()
    &&& type_tokens(ts.subrange(off, d.at[0]), f.return_type@)
    &&& ts[d.at[0]] == Token::Symbol(name)
    &&& bracketed_fields(ts.subrange(d.at[0] + 1, d.at[1]), '(', ')', f.params, d.parts[0])
    &&& match f.body {
        None => d.at[1] + 1 == ts.len() && ts[d.at[1]] == Token::Operand(';'),
        Some(b) => block_tokens(ts.skip(d.at[1]), b@, d.parts[1]),
    }
}

/// `ts` are the tokens of the struct `st` named `name`.
pub open spec fn struct_tokens(ts: Seq<Token>, name: String, st: Struct, d: Split) -> bool {
    &&& ts.len() >= 2
    &&& is_kw(ts[0], "struct"@)
    &&& ts[1] == Token::Symbol(name)
    &&& bracketed_fields(ts.skip(2), '{', '}', st.0, d)
}

/// `ts` are the tokens of a top-level definition of `name`.
pub open spec fn global_tokens(ts: Seq<Token>, name: String, g: GlobalValue, d: Split) -> bool {
    match g {
        GlobalValue::Struct(st) => struct_tokens(ts, name, st, d),
        GlobalValue::Function(f) => ts.len() >= 1 && !is_kw(ts[0], "struct"@) && func_tokens(ts, name, f, d),
    }
}

/// Where the `k`-th of consecutive parts begins, when they end at `ends`.
pub open spec fn part_start(ends: Seq<int>, k: int) -> int {
    if k == 0 {
        0
    } else {
        ends[k - 1]
    }
}

/// `ts` are the tokens of the top-level definitions `gs`, in order: the
/// `k`-th ends where `ends[k]` says and is split as `ds[k]` says.
pub open spec fn program_tokens(ts: Seq<Token>, gs: Seq<(String, GlobalValue)>, ends: Seq<int>, ds: Seq<Split>) -> bool {
    &&& ends.len() == gs.len()
    &&& ds.len() == gs.len()
    &&& gs.len() == 0 ==> ts.len() == 0
    &&& gs.len() > 0 ==> ends[gs.len() - 1] == ts.len()
    &&& forall|k: int| 0 <= k < gs.len() ==> 0 <= #[trigger] part_start(ends, k) < ends[k] <= ts.len()
    &&& forall|k: int|
        0 <= k < gs.len() ==> global_tokens(#[trigger] ts.subrange(part_start(ends, k), ends[k]), gs[k].0, gs[k].1, ds[k])
}

/// One more definition after the tokens of definitions gives the tokens of
/// them all.
pub proof fn lemma_program_push(
    ts: Seq<Token>,
    seg: Seq<Token>,
    gs: Seq<(String, GlobalValue)>,
    ends: Seq<int>,
    ds: Seq<Split>,
    name: String,
    g: GlobalValue,
    d: Split,
)
    requires
        program_tokens(ts, gs, ends, ds),
        seg.len() > 0,
        global_tokens(seg, name, g, d),
    ensures
        program_tokens(ts + seg, gs.push((name, g)), ends.push((ts + seg).len() as int), ds.push(d)),
{
    let all = ts + seg;
    let n = gs.len() as int;
    let gs2 = gs.push((name, g));
    let ends2 = ends.push((ts + seg).len() as int);
    let ds2 = ds.push(d);
    assert(part_start(ends2, n) == ts.len());
    assert(all.subrange(part_start(ends2, n), ends2[n]) =~= seg);
    assert forall|k: int| 0 <= k < gs2.len() implies 0 <= #[trigger] part_start(ends2, k) < ends2[k] <= all.len() by {
        if k < n {
            assert(0 <= part_start(ends, k) < ends[k] <= ts.len());
        }
    }
    assert forall|k: int| 0 <= k < gs2.len() implies global_tokens(
        #[trigger] all.subrange(part_start(ends2, k), ends2[k]),
        gs2[k].0,
        gs2[k].1,
        ds2[k],
    ) by {
        if k < n {
            assert(0 <= part_start(ends, k) < ends[k] <= ts.len());
            assert(global_tokens(ts.subrange(part_start(ends, k), ends[k]), gs[k].0, gs[k].1, ds[k]));
            assert(all.subrange(part_start(ends, k), ends[k]) =~= ts.subrange(part_start(ends, k), ends[k]));
            assert(part_start(ends2, k) == part_start(ends, k));
        }
    }
}

/// Any split (a name to pick one by).
pub open spec fn is_split(d: Split) -> bool {
    true
}

/// A split with the given positions, trees and parts.
pub open spec fn split(at: Seq<int>, trees: Seq<Expression>, parts: Seq<Split>) -> Split {
    Split { at, trees, parts }
}

/// No two fields share a name.
pub open spec fn distinct_fields(fields: Seq<(ExpressionType, String)>) -> bool {
    forall|i: int, j: int| 0 <= i < j < fields.len() ==> (#[trigger] fields[i]).1@ != (#[trigger] fields[j]).1@
}

/// A parser over a tokenizer, with one token of lookahead.
pub struct Parser<F> {
    pub tokenizer: Tokenizer<F>,
    /// The lookahead token; `None` at the end of input.
    pub buf: Option<Token>,
    /// The tokens taken so far, in order.
    pub taken: Ghost<Seq<Token>>,
    /// The position in the input where reading began.
    pub start: Ghost<int>,
    /// No read of a token has failed.
    pub unbroken: Ghost<bool>,
}

impl<F: FloatBits> Parser<F> {
    /// The tokenizer is within its input, and a symbol in the lookahead has
    /// the text of a symbol.
    pub open spec fn wf(&self) -> bool {
        &&& self.tokenizer.wf()
        &&& self.buf matches Some(Token::Symbol(x)) ==> is_symbol_text(x@)
        &&& self.unbroken@ ==> self.read_from_start()
    }

    /// The error `e` arises in the state `self`, for a parse that began when
    /// `from` tokens had been taken: a read of a token failed, or the token at
    /// hand, or the last ones this parse took, do not fit.
    pub open spec fn raised(&self, from: nat, e: Error) -> bool {
        let n = self.taken@.len();
        let last = self.taken@[n - 1];
        match e {
            Error::Tokenizer(_) => !self.unbroken@,
            Error::UnexpectedEof => self.buf is None || !self.unbroken@,
            Error::ExpectedSymbol => (self.buf is Some && !(self.buf->Some_0 is Symbol)) || (n > from && !(last is Symbol)),
            Error::ExpectedOperand(c) => self.buf is None || (n > from && !(last matches Token::Operand(x) && x == c)),
            Error::ExpectedNumber => self.buf is None || !self.unbroken@ || (n > from && !(last is Number)),
            Error::UnknownToken => !starts_inner(self.buf) || (n > from && is_kw(last, "extern"@)) || (n >= from + 2
                && is_kw(self.taken@[n - 2], "extern"@) && !(last matches Token::String(c) && c@ == "C"@)),
            Error::ExpectedStruct => n > from && last is Symbol && !is_kw(last, "struct"@),
            Error::DuplicateField(_) => n > from && last == Token::Operand('}'),
        }
    }

    /// The tokens taken and the lookahead are the tokens read from the start,
    /// and at the end of input the tokenizer has reached it.
    pub open spec fn read_from_start(&self) -> bool {
        &&& lexes(self.tokenizer.input@, self.start@, self.taken@ + opt_seq(self.buf), self.tokenizer.pos as int)
        &&& self.buf is None ==> self.tokenizer.pos == self.tokenizer.input.len()
    }

    /// How much input is left: the bytes not yet read, and the lookahead.
    pub open spec fn remaining(&self) -> nat {
        ((self.tokenizer.input.len() - self.tokenizer.pos) + if self.buf is Some {
            1int
        } else {
            0int
        }) as nat
    }

    /// The tokens taken from `old` to `self` extend those taken before.
    pub open spec fn extends(&self, old: &Self) -> bool {
        &&& old.taken@.len() <= self.taken@.len()
        &&& forall|i: int| 0 <= i < old.taken@.len() ==> #[trigger] self.taken@[i] == old.taken@[i]
    }

    /// The tokens taken from `old` to `self`.
    pub open spec fn took(&self, old: &Self) -> Seq<Token> {
        self.taken@.skip(old.taken@.len() as int)
    }

    /// Something was taken from `old` to `self`, beginning with `old`'s
    /// lookahead.
    pub open spec fn took_lookahead(&self, old: &Self) -> bool {
        self.took(old).len() > 0 && old.buf == Some(self.took(old)[0])
    }

    /// Nothing was taken from `old` to `self` and the lookahead is as it was,
    /// or what was taken begins with `old`'s lookahead.
    pub open spec fn from_lookahead(&self, old: &Self) -> bool {
        ||| (self.took(old).len() == 0 && (self.buf == old.buf || old.buf is None))
        ||| self.took_lookahead(old)
    }

    /// A part of a phrase begun at `old`, a statement (`stmt`) or an
    /// expression that begins at its `k`-th token, failed with `e`: a token
    /// that can begin such a part was taken, and `e` did not arise at it; one
    /// that cannot gives `UnknownToken`; the end of input gives
    /// `UnexpectedEof` or `UnknownToken`.
    pub open spec fn failed_from(&self, old: &Self, k: int, e: Error, stmt: bool) -> bool {
        let ts = self.took(old);
        let t = after(ts, k, self.buf);
        let can = starts_expression(t) || (stmt && t is Some && starts_statement(t->Some_0));
        &&& 0 <= k <= ts.len()
        &&& t is None ==> (e == Error::UnexpectedEof || e == Error::UnknownToken)
        &&& t is Some && can ==> ts.len() >= k + 1 && self.raised((old.taken@.len() + k + 1) as nat, e)
        &&& t is Some && !can ==> e == Error::UnknownToken
    }

    /// A block begun at `old` (whose `{` was taken first) failed with `e` at
    /// its `k`-th token: the tokens between the `{` and that token are whole
    /// statements; that token (the lookahead, when nothing was taken after
    /// them) is not `}`; at the end of input `e` is `ExpectedOperand('}')`; a
    /// token that cannot begin a statement gives `UnknownToken`; and one that
    /// can was taken, and `e` did not arise at it.
    pub open spec fn block_failed_at(&self, old: &Self, k: int, e: Error) -> bool {
        let ts = self.took(old);
        let t = after(ts, k, self.buf);
        &&& 1 <= k <= ts.len()
        &&& exists|v: Seq<Statement>, d: Split| #[trigger] stmts_tokens(ts.subrange(1, k), t, v, d)
        &&& t != Some(Token::Operand('}'))
        &&& t is None ==> e == Error::ExpectedOperand('}')
        &&& t is Some && (starts_statement(t->Some_0) || starts_expression(t)) ==> ts.len() >= k + 1 && self.raised(
            (old.taken@.len() + k + 1) as nat,
            e,
        )
        &&& t is Some && !(starts_statement(t->Some_0) || starts_expression(t)) ==> e == Error::UnknownToken
    }

    /// Nothing was taken from `old` to `self` and the lookahead is as it was,
    /// or what was taken begins with `old`'s lookahead; and every read of a
    /// token succeeded if every one had before.
    pub open spec fn continues(&self, old: &Self) -> bool {
        &&& old.unbroken@ ==> self.unbroken@
        &&& {
            ||| (self.took(old).len() == 0 && self.buf == old.buf)
            ||| self.took_lookahead(old)
        }
    }

    /// What was taken from `a` to `c` is what was taken from `a` to `b`,
    /// then from `b` to `c`.
    pub proof fn lemma_took_split(a: &Self, b: &Self, c: &Self)
        requires
            b.extends(a),
            c.extends(b),
        ensures
            c.extends(a),
            c.took(a) == b.took(a) + c.took(b),
    {
        assert(c.took(a) =~= b.took(a) + c.took(b)) by {
            assert forall|i: int| 0 <= i < b.took(a).len() implies c.took(a)[i] == b.took(a)[i] by {
                assert(c.taken@[a.taken@.len() + i] == b.taken@[a.taken@.len() + i]);
            }
        }
    }

    /// One more operator step extends the steps taken so far.
    proof fn lemma_binop_step(
        p0: &Self,
        q0: &Self,
        q1: &Self,
        q2: &Self,
        q3: &Self,
        lhs0: Expression,
        before: Expression,
        op: String,
        prec: u64,
        min: u64,
        rhs0: Expression,
        rhs1: Expression,
        ds: Split,
        dp: Split,
        dc: Split,
    ) -> (dn: Split)
        requires
            q0.extends(p0),
            q1.extends(q0),
            q2.extends(q1),
            q3.extends(q2),
            q1.took(q0) == opt_seq(q0.buf),
            q0.buf is Some,
            precedence(q0.buf) == Some((op@, prec)),
            prec >= min,
            prim_tokens(q2.took(q1), q2.buf, rhs0, dp),
            q2.took_lookahead(q1),
            climb_tokens(rhs0, q3.took(q2), q3.buf, (prec + 1) as u64, rhs1, dc),
            q3.continues(q2),
            steps_tokens(lhs0, q0.took(p0), q0.buf, min, before, ds),
        ensures
            steps_tokens(lhs0, q3.took(p0), q3.buf, min, Expression::BinOp(Box::new((before, op, rhs1))), dn),
    {
        Self::lemma_took_split(q0, q1, q2);
        Self::lemma_took_split(q0, q2, q3);
        Self::lemma_took_split(p0, q0, q3);
        let cur = Expression::BinOp(Box::new((before, op, rhs1)));
        let seg = q3.took(q0);
        let j = 1 + q2.took(q1).len();
        assert(seg.subrange(1, j as int) =~= q2.took(q1));
        assert(seg.skip(j as int) =~= q3.took(q2));
        assert(seg[0] == q0.buf->Some_0);
        assert(after(seg, j as int, q3.buf) == q2.buf);
        let dstep = split(seq![j as int], seq![rhs0, rhs1], seq![dp, dc]);
        assert(dstep.at[0] == j && dstep.trees[0] == rhs0 && dstep.trees[1] == rhs1 && dstep.parts[0] == dp
            && dstep.parts[1] == dc);
        assert(step_tokens(before, seg, q3.buf, min, cur, dstep));
        let ts = q3.took(p0);
        let k = q0.took(p0).len() as int;
        assert(ts.take(k) =~= q0.took(p0));
        assert(ts.skip(k) =~= seg);
        assert(after(ts, k, q3.buf) == q0.buf);
        let dn = split(seq![k], seq![before], seq![ds, dstep]);
        assert(dn.at[0] == k && dn.trees[0] == before && dn.parts[0] == ds && dn.parts[1] == dstep);
        assert(steps_tokens(lhs0, ts, q3.buf, min, cur, dn));
        dn
    }

    /// One more argument, with its optional comma, extends the arguments
    /// taken so far.
    proof fn lemma_args_step(p2: &Self, q0: &Self, q1: &Self, q2: &Self, args: Seq<Expression>, a: Expression, da: Split, de: Split) -> (dn: Split)
        requires
            q0.extends(p2),
            q1.extends(q0),
            q2.extends(q1),
            args_tokens(q0.took(p2), q0.buf, args, da),
            expr_tokens(q1.took(q0), q1.buf, a, de),
            q1.took_lookahead(q0),
            (q2.took(q1).len() == 0 && q2.buf == q1.buf && !is_op(q1.buf, ',')) || (q2.took(q1) == seq![Token::Operand(',')]
                && q1.buf == Some(Token::Operand(','))),
        ensures
            args_tokens(q2.took(p2), q2.buf, args.push(a), dn),
    {
        Self::lemma_took_split(q0, q1, q2);
        Self::lemma_took_split(p2, q0, q2);
        let ts = q2.took(p2);
        let i = q0.took(p2).len() as int;
        let j = i + q1.took(q0).len();
        assert(ts.take(i) =~= q0.took(p2));
        assert(ts.subrange(i, j) =~= q1.took(q0));
        assert(after(ts, i, q2.buf) == q0.buf);
        assert(after(ts, j, q2.buf) == q1.buf);
        assert(args.push(a).drop_last() =~= args);
        assert(args.push(a).last() == a);
        let dn = split(seq![i, j], Seq::empty(), seq![da, de]);
        assert(dn.at[0] == i && dn.at[1] == j && dn.parts[0] == da && dn.parts[1] == de);
        assert(args_tokens(ts, q2.buf, args.push(a), dn));
        dn
    }

    /// One more statement, with its optional `;`, extends the statements
    /// taken so far.
    proof fn lemma_stmts_step(p2: &Self, q0: &Self, q1: &Self, q2: &Self, v: Seq<Statement>, st: Statement, ds: Split, de: Split) -> (dn: Split)
        requires
            q0.extends(p2),
            q1.extends(q0),
            q2.extends(q1),
            stmts_tokens(q0.took(p2), q0.buf, v, ds),
            stmt_tokens(q1.took(q0), q1.buf, st, de),
            q1.took_lookahead(q0),
            (q2.took(q1).len() == 0 && q2.buf == q1.buf && !is_op(q1.buf, ';')) || (q2.took(q1) == seq![Token::Operand(';')]
                && q1.buf == Some(Token::Operand(';'))),
        ensures
            stmts_tokens(q2.took(p2), q2.buf, v.push(st), dn),
    {
        Self::lemma_took_split(q0, q1, q2);
        Self::lemma_took_split(p2, q0, q2);
        let ts = q2.took(p2);
        let i = q0.took(p2).len() as int;
        let j = i + q1.took(q0).len();
        assert(ts.take(i) =~= q0.took(p2));
        assert(ts.subrange(i, j) =~= q1.took(q0));
        assert(after(ts, i, q2.buf) == q0.buf);
        assert(after(ts, j, q2.buf) == q1.buf);
        assert(v.push(st).drop_last() =~= v);
        assert(v.push(st).last() == st);
        let dn = split(seq![i, j], Seq::empty(), seq![ds, de]);
        assert(dn.at[0] == i && dn.at[1] == j && dn.parts[0] == ds && dn.parts[1] == de);
        assert(stmts_tokens(ts, q2.buf, v.push(st), dn));
        dn
    }

    /// `return` followed by an expression.
    proof fn lemma_stmt_return(p0: &Self, p1: &Self, p2: &Self, e: Expression, de: Split) -> (dn: Split)
        requires
            p1.extends(p0),
            p2.extends(p1),
            p1.took(p0) == opt_seq(p0.buf),
            p0.buf matches Some(t) && is_kw(t, "return"@),
            expr_tokens(p2.took(p1), p2.buf, e, de),
        ensures
            stmt_tokens(p2.took(p0), p2.buf, Statement::Return(Some(e)), dn),
    {
        Self::lemma_took_split(p0, p1, p2);
        let ts = p2.took(p0);
        assert(ts.skip(1) =~= p2.took(p1));
        let dn = split(Seq::empty(), Seq::empty(), seq![de]);
        assert(dn.parts[0] == de);
        dn
    }

    /// A keyword followed by what it introduces: `def` or `set`.
    proof fn lemma_stmt_assign(p0: &Self, p1: &Self, p2: &Self, st: Statement, da: Split) -> (dn: Split)
        requires
            p1.extends(p0),
            p2.extends(p1),
            p1.took(p0) == opt_seq(p0.buf),
            p0.buf is Some,
            (is_kw(p0.buf->Some_0, "def"@) && (st matches Statement::DefAssign(a) && def_tokens(p2.took(p1), p2.buf, a, da)))
                || (is_kw(p0.buf->Some_0, "set"@) && (st matches Statement::SetAssign(a) && set_tokens(
                p2.took(p1),
                p2.buf,
                a,
                da,
            ))),
        ensures
            stmt_tokens(p2.took(p0), p2.buf, st, dn),
    {
        Self::lemma_took_split(p0, p1, p2);
        let ts = p2.took(p0);
        assert(ts.skip(1) =~= p2.took(p1));
        let dn = split(Seq::empty(), Seq::empty(), seq![da]);
        assert(dn.parts[0] == da);
        dn
    }

    /// `if cond stmt`, with `else stmt` when `p3` is followed by `else`.
    #[verifier::rlimit(40)]
    #[verifier::spinoff_prover]
    proof fn lemma_stmt_if(
        p0: &Self,
        p1: &Self,
        p2: &Self,
        p3: &Self,
        p4: &Self,
        c: Expression,
        t: Statement,
        f: Option<Statement>,
        d0: Split,
        d1: Split,
        d2: Split,
    ) -> (dn: Split)
        requires
            p1.extends(p0),
            p2.extends(p1),
            p3.extends(p2),
            p4.extends(p3),
            p1.took(p0) == opt_seq(p0.buf),
            p0.buf matches Some(k) && is_kw(k, "if"@),
            expr_tokens(p2.took(p1), p2.buf, c, d0),
            p2.took(p1).len() > 0,
            stmt_tokens(p3.took(p2), p3.buf, t, d1),
            p3.took_lookahead(p2),
            match f {
                None => p4.took(p3).len() == 0 && p4.buf == p3.buf && !(p3.buf matches Some(k) && is_kw(k, "else"@)),
                Some(e) => p3.buf matches Some(k) && is_kw(k, "else"@) && p4.took(p3).len() >= 1 && p4.took(p3)[0]
                    == p3.buf->Some_0 && stmt_tokens(p4.took(p3).skip(1), p4.buf, e, d2),
            },
        ensures
            stmt_tokens(p4.took(p0), p4.buf, Statement::If(Box::new((c, t, f))), dn),
    {
        Self::lemma_took_split(p0, p1, p2);
        Self::lemma_took_split(p0, p2, p3);
        Self::lemma_took_split(p0, p3, p4);
        let ts = p4.took(p0);
        let i = p2.took(p0).len() as int;
        let j = p3.took(p0).len() as int;
        assert(ts.subrange(1, i) =~= p2.took(p1));
        assert(ts.subrange(i, j) =~= p3.took(p2));
        assert(ts.skip(j) =~= p4.took(p3));
        assert(ts[i] == p2.buf->Some_0);
        assert(after(ts, j, p4.buf) == p3.buf);
        if f is Some {
            assert(ts.skip(j + 1) =~= p4.took(p3).skip(1));
        }
        let dn = split(seq![i, j], Seq::empty(), seq![d0, d1, d2]);
        assert(dn.at[0] == i && dn.at[1] == j && dn.parts[0] == d0 && dn.parts[1] == d1 && dn.parts[2] == d2);
        dn
    }

    /// `while cond stmt`.
    proof fn lemma_stmt_while(p0: &Self, p1: &Self, p2: &Self, p3: &Self, c: Expression, b: Statement, d0: Split, d1: Split) -> (dn: Split)
        requires
            p1.extends(p0),
            p2.extends(p1),
            p3.extends(p2),
            p1.took(p0) == opt_seq(p0.buf),
            p0.buf matches Some(k) && is_kw(k, "while"@),
            expr_tokens(p2.took(p1), p2.buf, c, d0),
            p2.took(p1).len() > 0,
            stmt_tokens(p3.took(p2), p3.buf, b, d1),
            p3.took_lookahead(p2),
        ensures
            stmt_tokens(p3.took(p0), p3.buf, Statement::While(Box::new((c, b))), dn),
    {
        Self::lemma_took_split(p0, p1, p2);
        Self::lemma_took_split(p0, p2, p3);
        let ts = p3.took(p0);
        let i = p2.took(p0).len() as int;
        assert(ts.subrange(1, i) =~= p2.took(p1));
        assert(ts.skip(i) =~= p3.took(p2));
        assert(ts[i] == p2.buf->Some_0);
        let dn = split(seq![i], Seq::empty(), seq![d0, d1]);
        assert(dn.at[0] == i && dn.parts[0] == d0 && dn.parts[1] == d1);
        dn
    }

    /// `for (init; cond; inc) body`.
    #[verifier::rlimit(60)]
    #[verifier::spinoff_prover]
    proof fn lemma_stmt_for(
        p0: &Self,
        p2: &Self,
        p3: &Self,
        p4: &Self,
        p5: &Self,
        p6: &Self,
        p7: &Self,
        p8: &Self,
        p9: &Self,
        f: ForStatement,
        d0: Split,
        d1: Split,
        d2: Split,
        d3: Split,
    ) -> (dn: Split)
        requires
            p2.extends(p0),
            p3.extends(p2),
            p4.extends(p3),
            p5.extends(p4),
            p6.extends(p5),
            p7.extends(p6),
            p8.extends(p7),
            p9.extends(p8),
            p0.buf matches Some(k) && is_kw(k, "for"@),
            p2.took(p0) == seq![p0.buf->Some_0, Token::Operand('(')],
            stmt_tokens(p3.took(p2), p3.buf, f.init, d0),
            p4.took(p3) == seq![Token::Operand(';')],
            p3.buf == Some(Token::Operand(';')),
            expr_tokens(p5.took(p4), p5.buf, f.cond, d1),
            p6.took(p5) == seq![Token::Operand(';')],
            p5.buf == Some(Token::Operand(';')),
            stmt_tokens(p7.took(p6), p7.buf, f.inc, d2),
            p8.took(p7) == seq![Token::Operand(')')],
            p7.buf == Some(Token::Operand(')')),
            stmt_tokens(p9.took(p8), p9.buf, f.body, d3),
            p3.took(p2).len() > 0,
            p5.took(p4).len() > 0,
            p7.took(p6).len() > 0,
        ensures
            stmt_tokens(p9.took(p0), p9.buf, Statement::For(Box::new(f)), dn),
    {
        Self::lemma_took_split(p0, p2, p3);
        Self::lemma_took_split(p0, p3, p4);
        Self::lemma_took_split(p0, p4, p5);
        Self::lemma_took_split(p0, p5, p6);
        Self::lemma_took_split(p0, p6, p7);
        Self::lemma_took_split(p0, p7, p8);
        Self::lemma_took_split(p0, p8, p9);
        let ts = p9.took(p0);
        let a = p3.took(p0).len() as int;
        let b = p5.took(p0).len() as int;
        let c = p7.took(p0).len() as int;
        assert(ts.subrange(2, a) =~= p3.took(p2));
        assert(ts.subrange(a + 1, b) =~= p5.took(p4));
        assert(ts.subrange(b + 1, c) =~= p7.took(p6));
        assert(ts.skip(c + 1) =~= p9.took(p8));
        assert(ts[a] == Token::Operand(';'));
        assert(ts[b] == Token::Operand(';'));
        assert(ts[c] == Token::Operand(')'));
        let dn = split(seq![a, b, c], Seq::empty(), seq![d0, d1, d2, d3]);
        assert(dn.at[0] == a && dn.at[1] == b && dn.at[2] == c);
        assert(dn.parts[0] == d0 && dn.parts[1] == d1 && dn.parts[2] == d2 && dn.parts[3] == d3);
        dn
    }

    /// A block or an expression, taken from `p0` on.
    proof fn lemma_stmt_plain(p0: &Self, p1: &Self, st: Statement, d: Split) -> (dn: Split)
        requires
            p1.extends(p0),
            p1.took_lookahead(p0),
            p0.buf is Some,
            p0.buf == Some(Token::Operand('{')) || !starts_statement(p0.buf->Some_0),
            (p0.buf == Some(Token::Operand('{')) && (st matches Statement::Block(v) && block_tokens(p1.took(p0), v@, d)))
                || (p0.buf != Some(Token::Operand('{')) && (st matches Statement::Expr(e) && expr_tokens(
                p1.took(p0),
                p1.buf,
                e,
                d,
            ))),
        ensures
            stmt_tokens(p1.took(p0), p1.buf, st, dn),
    {
        let dn = split(Seq::empty(), Seq::empty(), seq![d]);
        assert(dn.parts[0] == d);
        dn
    }

    /// A function's tokens: the optional `extern "C"`, the return type, the
    /// name, the parameters, and `;` or the body.
    #[verifier::rlimit(60)]
    #[verifier::spinoff_prover]
    proof fn lemma_func(p0: &Self, pc: &Self, p1: &Self, p2: &Self, p3: &Self, p4: &Self, name: String, f: Function, df: Split, db: Split) -> (dn: Split)
        requires
            pc.extends(p0),
            p1.extends(pc),
            p2.extends(p1),
            p3.extends(p2),
            p4.extends(p3),
            p0.buf is Some,
            f.abi is C ==> is_kw(p0.buf->Some_0, "extern"@) && (pc.took(p0).len() == 2 && pc.took(p0)[0] == p0.buf->Some_0
                && (pc.took(p0)[1] matches Token::String(c) && c@ == "C"@)),
            f.abi is Stucker ==> !is_kw(p0.buf->Some_0, "extern"@) && pc.took(p0).len() == 0 && pc.buf == p0.buf,
            type_tokens(p1.took(pc), f.return_type@),
            p1.took_lookahead(pc),
            p2.took(p1) == seq![Token::Symbol(name)],
            bracketed_fields(p3.took(p2), '(', ')', f.params, df),
            !f.is_variadic,
            match f.body {
                None => p4.took(p3) == seq![Token::Operand(';')],
                Some(b) => block_tokens(p4.took(p3), b@, db),
            },
        ensures
            func_tokens(p4.took(p0), name, f, dn),
    {
        Self::lemma_took_split(p0, pc, p1);
        Self::lemma_took_split(p0, p1, p2);
        Self::lemma_took_split(p0, p2, p3);
        Self::lemma_took_split(p0, p3, p4);
        let ts = p4.took(p0);
        let off: int = if f.abi is C {
            2
        } else {
            0
        };
        let a0 = p1.took(p0).len() as int;
        let a1 = p3.took(p0).len() as int;
        assert(ts.subrange(off, a0) =~= p1.took(pc));
        assert(ts[a0] == Token::Symbol(name));
        assert(ts.subrange(a0 + 1, a1) =~= p3.took(p2));
        assert(ts.skip(a1) =~= p4.took(p3));
        assert(ts[0] == p0.buf->Some_0);
        if f.abi is C {
            assert(ts[1] == pc.took(p0)[1]);
        }
        let dn = split(seq![a0, a1], Seq::empty(), seq![df, db]);
        assert(dn.at[0] == a0 && dn.at[1] == a1 && dn.parts[0] == df && dn.parts[1] == db);
        dn
    }

    /// Parsing from `old` to `self` kept to the same source and did not go
    /// back.
    pub open spec fn advanced(&self, old: &Self) -> bool {
        &&& self.wf()
        &&& self.tokenizer.same_source(&old.tokenizer)
        &&& self.remaining() <= old.remaining()
        &&& self.extends(old)
        &&& self.start@ == old.start@
    }

    /// Parsing from `old` to `self` took at least one token, and every read
    /// of a token succeeded if every one had before.
    pub open spec fn consumed(&self, old: &Self) -> bool {
        &&& self.advanced(old)
        &&& self.remaining() < old.remaining()
        &&& old.unbroken@ ==> self.unbroken@
    }

    /// A parser whose lookahead is the first token of the tokenizer's input.
    #[verifier::rlimit(30)]
    #[verifier::spinoff_prover]
    pub fn from_tokenizer(tokenizer: Tokenizer<F>) -> (r: Result<Self, Error>)
        requires
            tokenizer.wf(),
        ensures
            r matches Ok(p) ==> p.wf() && p.tokenizer.same_source(&tokenizer) && p.taken@ == Seq::<Token>::empty(),
            r matches Ok(p) ==> p.unbroken@ && p.start@ == tokenizer.pos,
            r is Err ==> r matches Err(Error::Tokenizer(_)),
    {
        let mut tokenizer = tokenizer;
        let ghost t0 = tokenizer;
        let buf = match tokenizer.next_token() {
            Ok(t) => t,
            Err(e) => return Err(Error::Tokenizer(e)),
        };
        proof {
            let input = tokenizer.input@;
            let p0 = t0.pos as int;
            lemma_lexes_empty(input, p0);
            if buf is Some {
                let t = buf->Some_0;
                lemma_lexes_push(input, p0, Seq::empty(), p0, t, tokenizer.pos as int);
                assert(Seq::<Token>::empty().push(t) =~= Seq::<Token>::empty() + opt_seq(buf));
            } else {
                lemma_lexes_finish(input, p0, Seq::empty(), p0);
                assert(Seq::<Token>::empty() =~= Seq::<Token>::empty() + opt_seq(buf));
            }
        }
        Ok(Parser { tokenizer, buf, taken: Ghost(Seq::empty()), start: Ghost(t0.pos as int), unbroken: Ghost(true) })
    }

    /// A parser over the bytes of a source file.
    pub fn new(input: Vec<u8>, floats: F) -> (r: Result<Self, Error>)
        ensures
            r matches Ok(p) ==> p.wf() && p.tokenizer.input@ == input@ && p.tokenizer.floats == floats && p.taken@ == Seq::<
                Token,
            >::empty(),
            r matches Ok(p) ==> p.unbroken@ && p.start@ == 0,
            r is Err ==> r matches Err(Error::Tokenizer(_)),
    {
        Self::from_tokenizer(Tokenizer::new(input, floats))
    }

    /// The byte position reached in the input.
    pub fn loc(&self) -> (r: usize)
        ensures
            r == self.tokenizer.pos,
    {
        self.tokenizer.pos
    }

    /// The lookahead token.
    pub fn peek_token(&self) -> (r: Option<&Token>)
        ensures
            match self.buf {
                Some(t) => r == Some(&t),
                None => r is None,
            },
    {
        self.buf.as_ref()
    }

    /// Takes the lookahead token and reads the next one.
    #[verifier::rlimit(30)]
    #[verifier::spinoff_prover]
    pub fn next_token(&mut self) -> (r: Result<Option<Token>, Error>)
        requires
            old(self).wf(),
        ensures
            r matches Err(e) ==> final(self).raised(old(self).taken@.len(), e),
            final(self).advanced(old(self)),
            final(self).from_lookahead(old(self)),
            r matches Ok(t) ==> t == old(self).buf,
            r is Ok && old(self).buf is Some ==> final(self).remaining() < old(self).remaining(),
            r is Err ==> final(self).buf == old(self).buf && r matches Err(Error::Tokenizer(_)),
            r is Ok ==> final(self).taken@ == old(self).taken@ + opt_seq(old(self).buf),
            r is Ok ==> final(self).took(old(self)) == opt_seq(old(self).buf),
            r is Ok ==> final(self).unbroken@ == old(self).unbroken@,
            r is Ok && old(self).buf is None && old(self).unbroken@ ==> final(self).buf is None,
            r is Err ==> final(self).taken@ == old(self).taken@,
    {
        let ghost t0 = self.tokenizer;
        let mut new = match self.tokenizer.next_token() {
            Ok(t) => t,
            Err(e) => {
                proof {
                    self.unbroken@ = false;
                }
                return Err(Error::Tokenizer(e));
            },
        };
        core::mem::swap(&mut self.buf, &mut new);
        proof {
            let input = t0.input@;
            let before = self.taken@ + opt_seq(new);
            if self.unbroken@ {
                if self.buf is Some {
                    let t = self.buf->Some_0;
                    lemma_lexes_push(input, self.start@, before, t0.pos as int, t, self.tokenizer.pos as int);
                    assert(before.push(t) =~= before + opt_seq(self.buf));
                } else {
                    lemma_lexes_finish(input, self.start@, before, t0.pos as int);
                    assert(before =~= before + opt_seq(self.buf));
                }
            }
            self.taken@ = before;
            assert(self.took(old(self)) =~= opt_seq(new));
        }
        Ok(new)
    }

    /// Whether the lookahead is the operand `c`.
    fn peek_is_operand(&self, c: char) -> (r: bool)
        ensures
            r == (self.buf matches Some(Token::Operand(x)) && x == c),
    {
        match &self.buf {
            Some(Token::Operand(x)) => *x == c,
            _ => false,
        }
    }

    /// Whether the lookahead is the symbol `kw`.
    fn peek_is_symbol(&self, kw: &str) -> (r: bool)
        ensures
            r == (self.buf matches Some(Token::Symbol(s)) && s@ == kw@),
    {
        match &self.buf {
            Some(Token::Symbol(s)) => crate::expr::str_is(s, kw),
            _ => false,
        }
    }

    /// Takes the operand `expect`; another token is `ExpectedOperand`, the
    /// end of input `UnexpectedEof`.
    pub fn expect_operand(&mut self, expect: char) -> (r: Result<(), Error>)
        requires
            old(self).wf(),
        ensures
            r matches Err(e) ==> final(self).raised(old(self).taken@.len(), e),
            final(self).advanced(old(self)),
            final(self).from_lookahead(old(self)),
            r is Ok ==> (old(self).buf matches Some(Token::Operand(x)) && x == expect) && final(self).consumed(old(self)),
            r matches Err(Error::ExpectedOperand(x)) ==> x == expect && old(self).buf is Some && !(old(self).buf matches Some(
                Token::Operand(y),
            ) && y == expect),
            r matches Err(Error::UnexpectedEof) ==> old(self).buf is None,
            r is Err ==> (r matches Err(Error::ExpectedOperand(_)) || r matches Err(Error::UnexpectedEof) || r matches Err(
                Error::Tokenizer(_),
            )),
            r is Ok ==> final(self).took(old(self)) == seq![Token::Operand(expect)],
    {
        match self.next_token()? {
            Some(Token::Operand(ch)) => {
                if ch == expect {
                    Ok(())
                } else {
                    Err(Error::ExpectedOperand(expect))
                }
            },
            Some(_) => Err(Error::ExpectedOperand(expect)),
            None => Err(Error::UnexpectedEof),
        }
    }

    /// Takes a symbol; another token is `ExpectedSymbol`, the end of input
    /// `UnexpectedEof`.
    pub fn next_symbol(&mut self) -> (r: Result<String, Error>)
        requires
            old(self).wf(),
        ensures
            r matches Err(e) ==> final(self).raised(old(self).taken@.len(), e),
            final(self).advanced(old(self)),
            r matches Err(Error::ExpectedSymbol) ==> final(self).took(old(self)).len() > 0 && !(final(self).taken@.last() is Symbol),
            r matches Err(Error::UnknownToken) ==> !starts_expression(final(self).buf),
            final(self).from_lookahead(old(self)),
            r matches Ok(s) ==> (old(self).buf matches Some(Token::Symbol(x)) && x == s) && is_symbol_text(s@)
                && final(self).consumed(old(self)),
            r matches Err(Error::ExpectedSymbol) ==> old(self).buf is Some && !(old(self).buf is Some && old(
                self,
            ).buf->Some_0 is Symbol),
            r matches Err(Error::UnexpectedEof) ==> old(self).buf is None,
            r is Err ==> (r matches Err(Error::ExpectedSymbol) || r matches Err(Error::UnexpectedEof) || r matches Err(
                Error::Tokenizer(_),
            )),
            r matches Ok(s) ==> final(self).took(old(self)) == seq![Token::Symbol(s)],
    {
        match self.next_token()? {
            Some(Token::Symbol(symbol)) => Ok(symbol),
            Some(_) => Err(Error::ExpectedSymbol),
            None => Err(Error::UnexpectedEof),
        }
    }

    /// The operator of the lookahead token, and its precedence.
    pub fn peek_precedence(&self) -> (r: Result<Option<(String, u64)>, Error>)
        ensures
            r matches Ok(o) && match (o, precedence(self.buf)) {
                (Some((s, p)), Some((s2, p2))) => s@ == s2 && p == p2,
                (None, None) => true,
                _ => false,
            },
    {
        let o = match &self.buf {
            Some(Token::Operand(c)) => if *c == '+' {
                Some((owned("+"), 20))
            } else if *c == '-' {
                Some((owned("-"), 20))
            } else if *c == '*' {
                Some((owned("*"), 40))
            } else if *c == '/' {
                Some((owned("/"), 40))
            } else if *c == '%' {
                Some((owned("%"), 40))
            } else if *c == '&' {
                Some((owned("&"), 60))
            } else if *c == '|' {
                Some((owned("|"), 60))
            } else if *c == '^' {
                Some((owned("^"), 60))
            } else if *c == '>' {
                Some((owned(">"), 100))
            } else if *c == '<' {
                Some((owned("<"), 100))
            } else {
                None
            },
            Some(Token::Operand2(a, b)) => if *a == '<' && *b == '<' {
                Some((owned("<<"), 60))
            } else if *a == '>' && *b == '>' {
                Some((owned(">>"), 60))
            } else if *a == '&' && *b == '&' {
                Some((owned("&&"), 80))
            } else if *a == '|' && *b == '|' {
                Some((owned("||"), 80))
            } else if *a == '>' && *b == '=' {
                Some((owned(">="), 100))
            } else if *a == '<' && *b == '=' {
                Some((owned("<="), 100))
            } else if *a == '=' && *b == '=' {
                Some((owned("=="), 100))
            } else if *a == '!' && *b == '=' {
                Some((owned("!="), 100))
            } else {
                None
            },
            _ => None,
        };
        Ok(o)
    }

    /// A type: `[]T`, `&T`, or a name (a number type, `void`, `str`, or a
    /// struct).
    pub fn parse_type(&mut self) -> (r: Result<ExpressionType, Error>)
        requires
            old(self).wf(),
        ensures
            r matches Err(e) ==> final(self).raised(old(self).taken@.len(), e),
            final(self).advanced(old(self)),
            r matches Err(Error::ExpectedSymbol) ==> final(self).took(old(self)).len() > 0 && !(final(self).taken@.last() is Symbol),
            r matches Err(Error::UnknownToken) ==> !starts_expression(final(self).buf),
            r is Ok ==> final(self).consumed(old(self)),
            old(self).buf matches Some(Token::Symbol(s)) ==> (r matches Ok(t) ==> t@ == type_of_name(s@)),
            r matches Ok(t) ==> type_tokens(final(self).took(old(self)), t@) && final(self).took_lookahead(old(self)),
        decreases old(self).remaining(),
    {
        let ghost p0 = *self;
        if self.peek_is_operand('[') {
            self.next_token()?;
            let ghost p1 = *self;
            self.expect_operand(']')?;
            let ghost p2 = *self;
            let inner = self.parse_type()?;
            proof {
                Self::lemma_took_split(&p0, &p1, &p2);
                Self::lemma_took_split(&p0, &p2, self);
                let ts = self.took(&p0);
                assert(ts.skip(2) =~= self.took(&p2));
            }
            return Ok(ExpressionType::Array(Box::new(inner)));
        }
        if self.peek_is_operand('&') {
            self.next_token()?;
            let ghost p1 = *self;
            let inner = self.parse_type()?;
            proof {
                Self::lemma_took_split(&p0, &p1, self);
                let ts = self.took(&p0);
                assert(ts.skip(1) =~= self.took(&p1));
            }
            return Ok(ExpressionType::Ref(Box::new(inner)));
        }
        let sym = self.next_symbol()?;
        let t = if crate::expr::str_is(&sym, "i8") {
            ExpressionType::Number(NumberType::I8)
        } else if crate::expr::str_is(&sym, "i16") {
            ExpressionType::Number(NumberType::I16)
        } else if crate::expr::str_is(&sym, "i32") {
            ExpressionType::Number(NumberType::I32)
        } else if crate::expr::str_is(&sym, "i64") {
            ExpressionType::Number(NumberType::I64)
        } else if crate::expr::str_is(&sym, "u8") {
            ExpressionType::Number(NumberType::U8)
        } else if crate::expr::str_is(&sym, "u16") {
            ExpressionType::Number(NumberType::U16)
        } else if crate::expr::str_is(&sym, "u32") {
            ExpressionType::Number(NumberType::U32)
        } else if crate::expr::str_is(&sym, "u64") {
            ExpressionType::Number(NumberType::U64)
        } else if crate::expr::str_is(&sym, "f32") {
            ExpressionType::Number(NumberType::F32)
        } else if crate::expr::str_is(&sym, "f64") {
            ExpressionType::Number(NumberType::F64)
        } else if crate::expr::str_is(&sym, "void") {
            ExpressionType::Void
        } else if crate::expr::str_is(&sym, "str") {
            ExpressionType::Str
        } else {
            ExpressionType::Struct(sym)
        };
        Ok(t)
    }

    /// A list of `type name` pairs between `begin` and `end`, separated by
    /// optional commas.
    #[verifier::rlimit(80)]
    #[verifier::spinoff_prover]
    pub fn parse_type_array(&mut self, begin: char, end: char) -> (r: Result<Vec<(ExpressionType, String)>, Error>)
        requires
            old(self).wf(),
        ensures
            r matches Err(e) ==> final(self).raised(old(self).taken@.len(), e),
            final(self).advanced(old(self)),
            r is Ok ==> final(self).consumed(old(self)),
            r matches Ok(v) ==> forall|i: int| 0 <= i < v.len() ==> is_symbol_text((#[trigger] v@[i]).1@),
            r matches Ok(v) ==> exists|d: Split| #[trigger] is_split(d) && bracketed_fields(final(self).took(old(self)), begin, end, v, d),
            r is Ok ==> final(self).took_lookahead(old(self)),
    {
        let ghost pb = *self;
        self.expect_operand(begin)?;
        let ghost p0 = *self;
        let mut params: Vec<(ExpressionType, String)> = Vec::new();
        let ghost mut df: Split = split(Seq::empty(), Seq::empty(), Seq::empty());
        proof {
            assert(self.took(&p0) =~= Seq::<Token>::empty());
        }
        loop
            invariant_except_break
                fields_tokens(self.took(&p0), self.buf, params@, df),
                self.continues(&p0),
            invariant
                self.consumed(old(self)),
                forall|i: int| 0 <= i < params.len() ==> is_symbol_text((#[trigger] params@[i]).1@),
                pb == *old(self),
                p0.extends(&pb),
                self.extends(&p0),
                p0.took(&pb) == seq![Token::Operand(begin)],
                pb.buf == Some(Token::Operand(begin)),
            ensures
                bracketed_fields(self.took(&pb), begin, end, params, df),
                self.took_lookahead(&pb),
            decreases self.remaining(),
        {
            let ghost q0 = *self;
            if self.peek_is_operand(end) {
                self.next_token()?;
                proof {
                    Self::lemma_took_split(&pb, &p0, &q0);
                    Self::lemma_took_split(&pb, &q0, self);
                    let ts = self.took(&pb);
                    assert(ts.subrange(1, ts.len() - 1) =~= q0.took(&p0));
                    assert(ts[0] == Token::Operand(begin));
                    assert(ts[ts.len() - 1] == Token::Operand(end));
                    assert(bracketed_fields(ts, begin, end, params, df));
                    assert(self.took_lookahead(&pb));
                }
                break;
            }
            let param_type = self.parse_type()?;
            let ghost q1 = *self;
            let param_name = self.next_symbol()?;
            let ghost q2 = *self;
            let ghost tg = param_type;
            let ghost ng = param_name;
            let ghost old_params = params@;
            params.push((param_type, param_name));
            if self.peek_is_operand(',') {
                self.next_token()?;
            } else {
                proof {
                    assert(self.took(&q2) =~= Seq::<Token>::empty());
                }
            }
            proof {
                Self::lemma_took_split(&q0, &q1, &q2);
                Self::lemma_took_split(&q0, &q2, self);
                Self::lemma_took_split(&p0, &q0, self);
                let ts = self.took(&p0);
                let i = q0.took(&p0).len() as int;
                let j = i + q1.took(&q0).len();
                assert(ts.take(i) =~= q0.took(&p0));
                assert(ts.subrange(i, j) =~= q1.took(&q0));
                assert(ts[j] == Token::Symbol(ng));
                assert(after(ts, i, self.buf) == q0.buf);
                assert(params@.drop_last() =~= old_params);
                assert(params@.last() == (tg, ng));
                let dn = split(seq![i, j], Seq::empty(), seq![df]);
                assert(dn.at[0] == i && dn.at[1] == j && dn.parts[0] == df);
                assert(fields_tokens(ts, self.buf, params@, dn));
                df = dn;
            }
        }
        proof {
            assert(is_split(df));
        }
        Ok(params)
    }

    /// An expression: a primary expression followed by binary operators.
    pub fn parse_expr(&mut self) -> (r: Result<Expression, Error>)
        requires
            old(self).wf(),
        ensures
            r matches Err(e) ==> final(self).raised(old(self).taken@.len(), e),
            final(self).advanced(old(self)),
            r matches Err(Error::ExpectedSymbol) ==> final(self).took(old(self)).len() > 0 && !(final(self).taken@.last() is Symbol),
            r matches Err(Error::UnknownToken) ==> !starts_expression(final(self).buf),
            final(self).from_lookahead(old(self)),
            old(self).buf is None ==> *final(self) == *old(self),
            !starts_expression(old(self).buf) ==> r matches Err(Error::UnknownToken),
            r matches Err(e) && !(e is Tokenizer) && starts_expression(old(self).buf) ==> final(self).took(old(self)).len() >= 1
                && final(self).raised(old(self).taken@.len() + 1, r->Err_0),
            r is Ok ==> final(self).consumed(old(self)),
            r matches Ok(e) ==> (exists|d: Split| #[trigger] expr_tokens(final(self).took(old(self)), final(self).buf, e, d))
                && final(self).took_lookahead(old(self)),
        decreases old(self).remaining(), 4nat,
    {
        let ghost p0 = *self;
        let lhs = self.parse_primary()?;
        let ghost p1 = *self;
        let ghost lhs0 = lhs;
        let e = self.parse_binop(0, lhs)?;
        proof {
            Self::lemma_took_split(&p0, &p1, self);
            let ts = self.took(&p0);
            let i = p1.took(&p0).len() as int;
            assert(ts.take(i) =~= p1.took(&p0));
            assert(ts.skip(i) =~= self.took(&p1));
            assert(after(ts, i, self.buf) == p1.buf);
            let d0 = choose|d: Split| #[trigger] prim_tokens(p1.took(&p0), p1.buf, lhs0, d);
            let d1 = choose|d: Split| #[trigger] climb_tokens(lhs0, self.took(&p1), self.buf, 0, e, d);
            let sp = split(seq![i], seq![lhs0], seq![d0, d1]);
            assert(sp.parts[0] == d0 && sp.parts[1] == d1 && sp.trees[0] == lhs0 && sp.at[0] == i);
            assert(expr_tokens(ts, self.buf, e, sp));
        }
        Ok(e)
    }

    /// Precedence climbing: folds the operators of precedence at least
    /// `min_prec` into `lhs`, binding tighter operators first.
    #[verifier::rlimit(40)]
    #[verifier::spinoff_prover]
    pub fn parse_binop(&mut self, min_prec: u64, lhs: Expression) -> (r: Result<Expression, Error>)
        requires
            old(self).wf(),
        ensures
            r matches Err(e) ==> final(self).raised(old(self).taken@.len(), e),
            final(self).advanced(old(self)),
            r matches Err(Error::ExpectedSymbol) ==> final(self).took(old(self)).len() > 0 && !(final(self).taken@.last() is Symbol),
            r matches Err(Error::UnknownToken) ==> !starts_expression(final(self).buf),
            r matches Ok(e) ==> (exists|d: Split| #[trigger] climb_tokens(lhs, final(self).took(old(self)), final(self).buf, min_prec, e, d))
                && final(self).continues(old(self)),
            (match precedence(old(self).buf) {
                Some((_, p)) => p < min_prec,
                None => true,
            }) ==> (r == Ok::<Expression, Error>(lhs) && *final(self) == *old(self)),
        decreases old(self).remaining(), 5nat,
    {
        let ghost p0 = *self;
        let ghost lhs0 = lhs;
        let mut cur = lhs;
        let ghost mut ds: Split = split(Seq::empty(), Seq::empty(), Seq::empty());
        proof {
            assert(self.took(&p0) =~= Seq::<Token>::empty());
        }
        loop
            invariant
                self.advanced(&p0),
                p0 == *old(self),
                lhs0 == lhs,
                steps_tokens(lhs0, self.took(&p0), self.buf, min_prec, cur, ds),
                self.continues(&p0),
                (*self == p0 && cur == lhs0) || (self.taken@.len() > p0.taken@.len() && (precedence(p0.buf) matches Some(
                    (_, pp),
                ) && pp >= min_prec)),
            decreases self.remaining(),
        {
            let ghost q0 = *self;
            let ghost lhs_before = cur;
            let (op, prec) = match self.peek_precedence()? {
                Some(x) => x,
                None => {
                    proof {
                        let sp = split(Seq::empty(), Seq::empty(), seq![ds]);
                        assert(sp.parts[0] == ds);
                        assert(climb_tokens(lhs0, self.took(&p0), self.buf, min_prec, cur, sp));
                    }
                    return Ok(cur);
                },
            };
            if prec < min_prec {
                proof {
                    let sp = split(Seq::empty(), Seq::empty(), seq![ds]);
                    assert(sp.parts[0] == ds);
                    assert(climb_tokens(lhs0, self.took(&p0), self.buf, min_prec, cur, sp));
                }
                return Ok(cur);
            }
            let ghost opg = op;
            proof {
                assert(self.buf is Some);
            }
            self.next_token()?;
            let ghost q1 = *self;
            let mut rhs = self.parse_primary()?;
            let ghost q2 = *self;
            let ghost rhs0 = rhs;
            let ghost mut dc: Split = split(Seq::empty(), Seq::empty(), Seq::empty());
            match self.peek_precedence()? {
                Some((_, next_prec)) => {
                    if prec < next_prec {
                        rhs = self.parse_binop(prec + 1, rhs)?;
                        proof {
                            dc = choose|d: Split| #[trigger] climb_tokens(rhs0, self.took(&q2), self.buf, (prec + 1) as u64, rhs, d);
                        }
                    } else {
                        proof {
                            assert(self.took(&q2) =~= Seq::<Token>::empty());
                            let se = split(Seq::empty(), Seq::empty(), Seq::empty());
                            assert(steps_tokens(rhs0, self.took(&q2), self.buf, (prec + 1) as u64, rhs0, se));
                            dc = split(Seq::empty(), Seq::empty(), seq![se]);
                            assert(dc.parts[0] == se);
                        }
                    }
                },
                None => {
                    proof {
                        assert(self.took(&q2) =~= Seq::<Token>::empty());
                        let se = split(Seq::empty(), Seq::empty(), Seq::empty());
                        assert(steps_tokens(rhs0, self.took(&q2), self.buf, (prec + 1) as u64, rhs0, se));
                        dc = split(Seq::empty(), Seq::empty(), seq![se]);
                        assert(dc.parts[0] == se);
                    }
                },
            }
            let ghost rhs1 = rhs;
            proof {
                let dp = choose|d: Split| #[trigger] prim_tokens(q2.took(&q1), q2.buf, rhs0, d);
                ds = Self::lemma_binop_step(&p0, &q0, &q1, &q2, self, lhs0, lhs_before, opg, prec, min_prec, rhs0, rhs1, ds, dp, dc);
            }
            cur = Expression::BinOp(Box::new((cur, op, rhs)));
        }
    }

    /// A primary expression followed by field accesses `.f` and indexing
    /// `[i]`.
    #[verifier::rlimit(80)]
    #[verifier::spinoff_prover]
    pub fn parse_primary(&mut self) -> (r: Result<Expression, Error>)
        requires
            old(self).wf(),
        ensures
            r matches Err(e) ==> final(self).raised(old(self).taken@.len(), e),
            final(self).advanced(old(self)),
            r matches Err(Error::ExpectedSymbol) ==> final(self).took(old(self)).len() > 0 && !(final(self).taken@.last() is Symbol),
            r matches Err(Error::UnknownToken) ==> !starts_expression(final(self).buf),
            final(self).from_lookahead(old(self)),
            old(self).buf is None ==> *final(self) == *old(self),
            !starts_expression(old(self).buf) ==> r matches Err(Error::UnknownToken),
            r matches Err(e) && !(e is Tokenizer) && starts_expression(old(self).buf) ==> final(self).took(old(self)).len() >= 1
                && final(self).raised(old(self).taken@.len() + 1, r->Err_0),
            r is Ok ==> final(self).consumed(old(self)),
            r matches Ok(e) ==> (exists|d: Split| #[trigger] prim_tokens(final(self).took(old(self)), final(self).buf, e, d))
                && final(self).took_lookahead(old(self)),
        decreases old(self).remaining(), 3nat,
    {
        let ghost p0 = *self;
        let mut expr = self.parse_primary_inner()?;
        let ghost mut dch: Split = split(Seq::empty(), Seq::empty(), Seq::empty());
        proof {
            let di = choose|d: Split| #[trigger] inner_tokens(self.took(&p0), self.buf, expr, d);
            dch = split(Seq::empty(), Seq::empty(), seq![di]);
            assert(dch.parts[0] == di);
        }
        loop
            invariant
                self.consumed(&p0),
                p0 == *old(self),
                chain_tokens(self.took(&p0), self.buf, expr, dch),
                self.took_lookahead(&p0),
                starts_expression(p0.buf),
            ensures
                !is_op(self.buf, '.') && !is_op(self.buf, '['),
            decreases self.remaining(),
        {
            let ghost q0 = *self;
            let ghost before = expr;
            if self.peek_is_operand('.') {
                self.next_token()?;
                let ghost q1 = *self;
                let field = self.next_symbol()?;
                let ghost f = field;
                expr = Expression::FieldAccess(Box::new((expr, field)));
                proof {
                    Self::lemma_took_split(&q0, &q1, self);
                    Self::lemma_took_split(&p0, &q0, self);
                    let ts = self.took(&p0);
                    assert(ts.take(ts.len() - 2) =~= q0.took(&p0));
                    assert(ts[ts.len() - 2] == Token::Operand('.'));
                    assert(ts[ts.len() - 1] == Token::Symbol(f));
                    let dn = split(Seq::empty(), Seq::empty(), seq![dch]);
                    assert(dn.parts[0] == dch);
                    assert(chain_tokens(ts, self.buf, expr, dn));
                    dch = dn;
                }
            } else if self.peek_is_operand('[') {
                self.next_token()?;
                let ghost q1 = *self;
                let idx = self.parse_expr()?;
                let ghost q2 = *self;
                let ghost ig = idx;
                self.expect_operand(']')?;
                expr = Expression::ArrayAccess(Box::new((expr, idx)));
                proof {
                    Self::lemma_took_split(&q0, &q1, &q2);
                    Self::lemma_took_split(&q0, &q2, self);
                    Self::lemma_took_split(&p0, &q0, self);
                    let ts = self.took(&p0);
                    let i = q0.took(&p0).len() as int;
                    assert(ts.take(i) =~= q0.took(&p0));
                    assert(ts[i] == Token::Operand('['));
                    assert(ts.subrange(i + 1, ts.len() - 1) =~= q2.took(&q1));
                    assert(ts[ts.len() - 1] == Token::Operand(']'));
                    let de = choose|d: Split| #[trigger] expr_tokens(q2.took(&q1), q2.buf, ig, d);
                    let dn = split(seq![i], Seq::empty(), seq![dch, de]);
                    assert(dn.at[0] == i && dn.parts[0] == dch && dn.parts[1] == de);
                    assert(chain_tokens(ts, self.buf, expr, dn));
                    dch = dn;
                }
            } else {
                break;
            }
        }
        proof {
            let dp = split(Seq::empty(), Seq::empty(), seq![dch]);
            assert(dp.parts[0] == dch);
            assert(prim_tokens(self.took(&p0), self.buf, expr, dp));
        }
        Ok(expr)
    }

    /// A primary expression: `&x`, `*x`, `[len]T`, `as(T)x`, a string, a
    /// name or call, a number, or a parenthesized expression.
    #[verifier::rlimit(60)]
    #[verifier::spinoff_prover]
    pub fn parse_primary_inner(&mut self) -> (r: Result<Expression, Error>)
        requires
            old(self).wf(),
        ensures
            r matches Err(e) ==> final(self).raised(old(self).taken@.len(), e),
            final(self).advanced(old(self)),
            r matches Err(Error::ExpectedSymbol) ==> final(self).took(old(self)).len() > 0 && !(final(self).taken@.last() is Symbol),
            r matches Err(Error::UnknownToken) ==> !starts_expression(final(self).buf),
            final(self).from_lookahead(old(self)),
            old(self).buf is None ==> *final(self) == *old(self),
            r matches Err(e) && !(e is Tokenizer) && starts_expression(old(self).buf) ==> final(self).took(old(self)).len() >= 1
                && final(self).raised(old(self).taken@.len() + 1, r->Err_0),
            r is Ok ==> final(self).consumed(old(self)),
            match old(self).buf {
                Some(Token::Operand(c)) => !(c == '&' || c == '*' || c == '[' || c == '(') ==> r matches Err(
                    Error::UnknownToken,
                ),
                Some(Token::Operand2(_, _)) => r matches Err(Error::UnknownToken),
                None => r matches Err(Error::UnknownToken),
                _ => true,
            },
            r matches Ok(e) ==> (exists|d: Split| #[trigger] inner_tokens(final(self).took(old(self)), final(self).buf, e, d))
                && final(self).took_lookahead(old(self)),
        decreases old(self).remaining(), 2nat,
    {
        let ghost p0 = *self;
        if self.peek_is_operand('&') {
            self.next_token()?;
            let ghost p1 = *self;
            let x = self.parse_primary()?;
            proof {
                Self::lemma_took_split(&p0, &p1, self);
                assert(self.took(&p0).skip(1) =~= self.took(&p1));
                let dx = choose|d: Split| #[trigger] prim_tokens(self.took(&p1), self.buf, x, d);
                let dn = split(Seq::empty(), Seq::empty(), seq![dx]);
                assert(dn.parts[0] == dx);
                assert(inner_tokens(self.took(&p0), self.buf, Expression::Ref(Box::new(x)), dn));
            }
            return Ok(Expression::Ref(Box::new(x)));
        }
        if self.peek_is_operand('*') {
            self.next_token()?;
            let ghost p1 = *self;
            let x = self.parse_primary()?;
            proof {
                Self::lemma_took_split(&p0, &p1, self);
                assert(self.took(&p0).skip(1) =~= self.took(&p1));
                let dx = choose|d: Split| #[trigger] prim_tokens(self.took(&p1), self.buf, x, d);
                let dn = split(Seq::empty(), Seq::empty(), seq![dx]);
                assert(dn.parts[0] == dx);
                assert(inner_tokens(self.took(&p0), self.buf, Expression::Deref(Box::new(x)), dn));
            }
            return Ok(Expression::Deref(Box::new(x)));
        }
        if self.peek_is_operand('[') {
            self.next_token()?;
            let ghost p1 = *self;
            let len = self.parse_expr()?;
            let ghost p2 = *self;
            self.expect_operand(']')?;
            let ghost p3 = *self;
            let ty = self.parse_type()?;
            let ghost lg = len;
            let ghost tg = ty;
            proof {
                Self::lemma_took_split(&p0, &p1, &p2);
                Self::lemma_took_split(&p0, &p2, &p3);
                Self::lemma_took_split(&p0, &p3, self);
                let ts = self.took(&p0);
                let i = p2.took(&p0).len() as int;
                assert(ts.subrange(1, i) =~= p2.took(&p1));
                assert(ts[i] == Token::Operand(']'));
                assert(ts.skip(i + 1) =~= self.took(&p3));
                let de = choose|d: Split| #[trigger] expr_tokens(p2.took(&p1), p2.buf, lg, d);
                let dn = split(seq![i], Seq::empty(), seq![de]);
                assert(dn.at[0] == i && dn.parts[0] == de);
                assert(inner_tokens(ts, self.buf, Expression::InitArray(Box::new((lg, tg))), dn));
            }
            return Ok(Expression::InitArray(Box::new((len, ty))));
        }
        if self.peek_is_symbol("as") {
            self.next_token()?;
            let ghost p1 = *self;
            self.expect_operand('(')?;
            let ghost p2 = *self;
            let ty = self.parse_type()?;
            let ghost p3 = *self;
            self.expect_operand(')')?;
            let ghost p4 = *self;
            let x = self.parse_primary()?;
            let ghost tg = ty;
            let ghost xg = x;
            proof {
                Self::lemma_took_split(&p0, &p1, &p2);
                Self::lemma_took_split(&p0, &p2, &p3);
                Self::lemma_took_split(&p0, &p3, &p4);
                Self::lemma_took_split(&p0, &p4, self);
                let ts = self.took(&p0);
                let i = p3.took(&p0).len() as int;
                assert(ts[1] == Token::Operand('('));
                assert(ts.subrange(2, i) =~= p3.took(&p2));
                assert(ts[i] == Token::Operand(')'));
                assert(ts.skip(i + 1) =~= self.took(&p4));
                let dx = choose|d: Split| #[trigger] prim_tokens(self.took(&p4), self.buf, xg, d);
                let dn = split(seq![i], Seq::empty(), seq![dx]);
                assert(dn.at[0] == i && dn.parts[0] == dx);
                assert(inner_tokens(ts, self.buf, Expression::As(Box::new((tg, xg))), dn));
            }
            return Ok(Expression::As(Box::new((ty, x))));
        }
        let ghost leaf = split(Seq::empty(), Seq::empty(), seq![split(Seq::empty(), Seq::empty(), Seq::empty())]);
        match &self.buf {
            Some(Token::String(_)) => {
                let t = self.next_token()?;
                match t {
                    Some(Token::String(s)) => {
                        proof {
                            assert(inner_tokens(self.took(&p0), self.buf, Expression::String(s), leaf));
                        }
                        Ok(Expression::String(s))
                    },
                    _ => Err(Error::UnknownToken),
                }
            },
            Some(Token::Symbol(_)) => {
                let r = self.parse_ident();
                proof {
                    if r is Ok {
                        let e = r->Ok_0;
                        let di = choose|d: Split| #[trigger] ident_tokens(self.took(&p0), self.buf, e, d);
                        let dn = split(Seq::empty(), Seq::empty(), seq![di]);
                        assert(dn.parts[0] == di);
                        assert(inner_tokens(self.took(&p0), self.buf, e, dn));
                    }
                }
                r
            },
            Some(Token::Number(_)) => self.parse_number(),
            Some(Token::Operand(c)) => {
                if *c == '(' {
                    self.parse_paren()
                } else {
                    Err(Error::UnknownToken)
                }
            },
            _ => Err(Error::UnknownToken),
        }
    }

    /// A name, or a call `name(args, ...)`.
    #[verifier::rlimit(40)]
    #[verifier::spinoff_prover]
    fn parse_ident(&mut self) -> (r: Result<Expression, Error>)
        requires
            old(self).wf(),
        ensures
            r matches Err(e) ==> final(self).raised(old(self).taken@.len(), e),
            final(self).advanced(old(self)),
            r matches Err(Error::ExpectedSymbol) ==> final(self).took(old(self)).len() > 0 && !(final(self).taken@.last() is Symbol),
            r matches Err(Error::UnknownToken) ==> !starts_expression(final(self).buf),
            final(self).from_lookahead(old(self)),
            r matches Err(e) && !(e is Tokenizer) && old(self).buf is Some && old(self).buf->Some_0 is Symbol ==> final(self).took(old(self)).len() >= 1
                && final(self).raised(old(self).taken@.len() + 1, r->Err_0),
            r is Ok ==> final(self).consumed(old(self)),
            r matches Ok(e) ==> (exists|d: Split| #[trigger] ident_tokens(final(self).took(old(self)), final(self).buf, e, d))
                && final(self).took_lookahead(old(self)),
        decreases old(self).remaining(), 1nat,
    {
        let ghost p0 = *self;
        let ident = self.next_symbol()?;
        if !self.peek_is_operand('(') {
            proof {
                let dn = split(Seq::empty(), Seq::empty(), Seq::empty());
                assert(ident_tokens(self.took(&p0), self.buf, Expression::Symbol(ident), dn));
            }
            return Ok(Expression::Symbol(ident));
        }
        let ghost p1 = *self;
        self.next_token()?;
        let ghost p2 = *self;
        let ghost k = ident;
        let mut args: Vec<Expression> = Vec::new();
        let ghost mut da: Split = split(Seq::empty(), Seq::empty(), Seq::empty());
        proof {
            Self::lemma_took_split(&p0, &p1, &p2);
            assert(self.took(&p2) =~= Seq::<Token>::empty());
        }
        loop
            invariant
                self.consumed(&p0),
                p0 == *old(self),
                p2.extends(&p0),
                self.extends(&p2),
                p2.took(&p0) == seq![Token::Symbol(k), Token::Operand('(')],
                p0.buf == Some(Token::Symbol(k)),
                self.took_lookahead(&p0),
                args_tokens(self.took(&p2), self.buf, args@, da),
                self.continues(&p2),
                ident == k,
            decreases self.remaining(),
        {
            let ghost q0 = *self;
            if self.peek_is_operand(')') {
                self.next_token()?;
                proof {
                    Self::lemma_took_split(&p0, &p2, &q0);
                    Self::lemma_took_split(&p0, &q0, self);
                    let ts = self.took(&p0);
                    assert(ts.subrange(2, ts.len() - 1) =~= q0.took(&p2));
                    assert(ts[ts.len() - 1] == Token::Operand(')'));
                    let dn = split(Seq::empty(), Seq::empty(), seq![da]);
                    assert(dn.parts[0] == da);
                    assert(ident_tokens(ts, self.buf, Expression::Call(ident, args), dn));
                    assert(self.took_lookahead(&p0));
                }
                return Ok(Expression::Call(ident, args));
            }
            if self.buf.is_none() {
                return Err(Error::ExpectedOperand(')'));
            }
            let arg = self.parse_expr()?;
            let ghost q1 = *self;
            let ghost ag = arg;
            let ghost old_args = args@;
            args.push(arg);
            if self.peek_is_operand(',') {
                self.next_token()?;
            } else {
                proof {
                    assert(self.took(&q1) =~= Seq::<Token>::empty());
                }
            }
            proof {
                let de = choose|d: Split| #[trigger] expr_tokens(q1.took(&q0), q1.buf, ag, d);
                da = Self::lemma_args_step(&p2, &q0, &q1, self, old_args, ag, da, de);
                assert(old_args.push(ag) =~= args@);
            }
        }
    }

    /// A number literal.
    pub fn parse_number(&mut self) -> (r: Result<Expression, Error>)
        requires
            old(self).wf(),
        ensures
            r matches Err(e) ==> final(self).raised(old(self).taken@.len(), e),
            final(self).advanced(old(self)),
            r matches Err(Error::ExpectedSymbol) ==> final(self).took(old(self)).len() > 0 && !(final(self).taken@.last() is Symbol),
            r matches Err(Error::UnknownToken) ==> !starts_expression(final(self).buf),
            final(self).from_lookahead(old(self)),
            r matches Err(e) && !(e is Tokenizer) && old(self).buf is Some && old(self).buf->Some_0 is Number ==> final(self).took(old(self)).len() >= 1
                && final(self).raised(old(self).taken@.len() + 1, r->Err_0),
            r is Ok ==> final(self).consumed(old(self)),
            r matches Ok(e) ==> (old(self).buf matches Some(Token::Number(n)) && e == Expression::Number(n)),
            !(old(self).buf is Some && old(self).buf->Some_0 is Number) ==> r is Err,
            r matches Ok(e) ==> (exists|d: Split| #[trigger] inner_tokens(final(self).took(old(self)), final(self).buf, e, d))
                && final(self).took_lookahead(old(self)),
    {
        let ghost p0 = *self;
        match self.next_token()? {
            Some(Token::Number(number)) => {
                proof {
                    let leaf = split(Seq::empty(), Seq::empty(), seq![split(Seq::empty(), Seq::empty(), Seq::empty())]);
                    assert(inner_tokens(self.took(&p0), self.buf, Expression::Number(number), leaf));
                }
                Ok(Expression::Number(number))
            },
            _ => Err(Error::ExpectedNumber),
        }
    }

    /// `( expr )`.
    #[verifier::rlimit(40)]
    #[verifier::spinoff_prover]
    pub fn parse_paren(&mut self) -> (r: Result<Expression, Error>)
        requires
            old(self).wf(),
        ensures
            r matches Err(e) ==> final(self).raised(old(self).taken@.len(), e),
            final(self).advanced(old(self)),
            r matches Err(Error::ExpectedSymbol) ==> final(self).took(old(self)).len() > 0 && !(final(self).taken@.last() is Symbol),
            r matches Err(Error::UnknownToken) ==> !starts_expression(final(self).buf),
            final(self).from_lookahead(old(self)),
            r matches Err(e) && !(e is Tokenizer) && old(self).buf == Some(Token::Operand('(')) ==> final(self).took(old(self)).len() >= 1
                && final(self).raised(old(self).taken@.len() + 1, r->Err_0),
            r is Ok ==> final(self).consumed(old(self)),
            r matches Ok(e) ==> (exists|d: Split| #[trigger] inner_tokens(final(self).took(old(self)), final(self).buf, e, d))
                && final(self).took_lookahead(old(self)),
        decreases old(self).remaining(), 1nat,
    {
        let ghost p0 = *self;
        self.expect_operand('(')?;
        let ghost p1 = *self;
        let expr = self.parse_expr()?;
        let ghost p2 = *self;
        self.expect_operand(')')?;
        proof {
            Self::lemma_took_split(&p0, &p1, &p2);
            Self::lemma_took_split(&p0, &p2, self);
            let ts = self.took(&p0);
            assert(ts.subrange(1, ts.len() - 1) =~= p2.took(&p1));
            assert(ts[0] == Token::Operand('('));
            assert(ts[ts.len() - 1] == Token::Operand(')'));
            let de = choose|d: Split| #[trigger] expr_tokens(p2.took(&p1), p2.buf, expr, d);
            let dn = split(Seq::empty(), Seq::empty(), seq![de]);
            assert(dn.parts[0] == de);
            assert(inner_tokens(ts, self.buf, expr, dn));
        }
        Ok(expr)
    }

    /// `while cond body`, its keyword at hand.
    #[verifier::rlimit(60)]
    #[verifier::spinoff_prover]
    fn parse_while(&mut self) -> (r: Result<Statement, Error>)
        requires
            old(self).wf(),
            old(self).buf matches Some(t) && is_kw(t, "while"@),
        ensures
            r matches Err(e) ==> final(self).raised(old(self).taken@.len(), e),
            final(self).advanced(old(self)),
            r matches Err(Error::ExpectedSymbol) ==> final(self).took(old(self)).len() > 0 && !(final(self).taken@.last() is Symbol),
            r matches Err(Error::UnknownToken) ==> !starts_expression(final(self).buf),
            final(self).from_lookahead(old(self)),
            old(self).buf is None ==> *final(self) == *old(self),
            (old(self).buf matches Some(t) && !starts_statement(t)) && !starts_expression(old(self).buf) ==> r matches Err(
                Error::UnknownToken,
            ),
            r is Ok ==> final(self).consumed(old(self)),
            old(self).buf is None ==> r matches Err(Error::UnexpectedEof),
            r matches Ok(st) ==> exists|d: Split| #[trigger] is_split(d) && stmt_tokens(final(self).took(old(self)), final(self).buf, st, d),
            r is Ok ==> final(self).took_lookahead(old(self)),
            r matches Err(e) && !(e is Tokenizer) && ((old(self).buf matches Some(t) && starts_statement(t)) || starts_expression(
                old(self).buf,
            )) ==> final(self).took(old(self)).len() >= 1
                && final(self).raised(old(self).taken@.len() + 1, r->Err_0),
            (old(self).buf matches Some(t) && is_kw(t, "breakpoint"@)) ==> (r == Ok::<Statement, Error>(Statement::Breakpoint)
                || r matches Err(Error::Tokenizer(_))),
            r matches Err(e) && !(e is Tokenizer) && (old(self).buf matches Some(t) && is_kw(t, "return"@)) ==> final(self).failed_from(old(self), 1, r->Err_0, false),
            r matches Err(e) && !(e is Tokenizer) && (old(self).buf matches Some(t) && is_kw(t, "while"@)) ==> final(self).failed_from(old(self), 1, r->Err_0, false)
                || exists|k: int, c: Expression, d: Split| k >= 2 && #[trigger] expr_tokens(
                final(self).took(old(self)).subrange(1, k),
                after(final(self).took(old(self)), k, final(self).buf),
                c,
                d,
            ) && final(self).failed_from(old(self), k, r->Err_0, true),
        decreases old(self).remaining(), 0nat,
    {
        let ghost p0 = *self;
        proof {
            reveal_strlit("breakpoint");
            reveal_strlit("return");
            reveal_strlit("while");
            assert("breakpoint"@.len() == 10 && "return"@.len() == 6 && "while"@.len() == 5);
        }
        self.next_token()?;
        let ghost p1 = *self;
        let condition = match self.parse_expr() {
            Ok(x) => x,
            Err(er) => {
                proof {
                    Self::lemma_took_split(&p0, &p1, self);
                    assert(after(self.took(&p0), 1, self.buf) == p1.buf);
                    if !(er is Tokenizer) {
                        assert(self.failed_from(&p0, 1, er, false));
                    }
                }
                return Err(er);
            },
        };
        let ghost p2 = *self;
        let ghost cw = condition;
        let body = match self.parse_stmt() {
            Ok(x) => x,
            Err(er) => {
                proof {
                    Self::lemma_took_split(&p0, &p1, &p2);
                    Self::lemma_took_split(&p0, &p2, self);
                    let k = p2.took(&p0).len() as int;
                    let ts = self.took(&p0);
                    assert(ts.subrange(1, k) =~= p2.took(&p1));
                    assert(after(ts, k, self.buf) == p2.buf);
                    let dc = choose|d: Split| #[trigger] expr_tokens(p2.took(&p1), p2.buf, cw, d);
                    assert(expr_tokens(ts.subrange(1, k), after(ts, k, self.buf), cw, dc));
                    if !(er is Tokenizer) {
                        assert(self.failed_from(&p0, k, er, true));
                    }
                }
                return Err(er);
            },
        };
        let ghost cg = condition;
        let ghost bg = body;
        proof {
            let d0 = choose|d: Split| #[trigger] expr_tokens(p2.took(&p1), p2.buf, cg, d);
            let d1 = choose|d: Split| #[trigger] is_split(d) && stmt_tokens(self.took(&p2), self.buf, bg, d);
            let dn = Self::lemma_stmt_while(&p0, &p1, &p2, self, cg, bg, d0, d1);
            assert(is_split(dn));
        }
        return Ok(Statement::While(Box::new((condition, body))));
    }

    /// `if cond t` or `if cond t else f`, its keyword at hand.
    #[verifier::rlimit(80)]
    #[verifier::spinoff_prover]
    fn parse_if(&mut self) -> (r: Result<Statement, Error>)
        requires
            old(self).wf(),
            old(self).buf matches Some(t) && is_kw(t, "if"@),
        ensures
            r matches Err(e) ==> final(self).raised(old(self).taken@.len(), e),
            final(self).advanced(old(self)),
            r matches Err(Error::ExpectedSymbol) ==> final(self).took(old(self)).len() > 0 && !(final(self).taken@.last() is Symbol),
            r matches Err(Error::UnknownToken) ==> !starts_expression(final(self).buf),
            final(self).from_lookahead(old(self)),
            old(self).buf is None ==> *final(self) == *old(self),
            (old(self).buf matches Some(t) && !starts_statement(t)) && !starts_expression(old(self).buf) ==> r matches Err(
                Error::UnknownToken,
            ),
            r is Ok ==> final(self).consumed(old(self)),
            old(self).buf is None ==> r matches Err(Error::UnexpectedEof),
            r matches Ok(st) ==> exists|d: Split| #[trigger] is_split(d) && stmt_tokens(final(self).took(old(self)), final(self).buf, st, d),
            r is Ok ==> final(self).took_lookahead(old(self)),
            r matches Err(e) && !(e is Tokenizer) && ((old(self).buf matches Some(t) && starts_statement(t)) || starts_expression(
                old(self).buf,
            )) ==> final(self).took(old(self)).len() >= 1
                && final(self).raised(old(self).taken@.len() + 1, r->Err_0),
            (old(self).buf matches Some(t) && is_kw(t, "breakpoint"@)) ==> (r == Ok::<Statement, Error>(Statement::Breakpoint)
                || r matches Err(Error::Tokenizer(_))),
            r matches Err(e) && !(e is Tokenizer) && (old(self).buf matches Some(t) && is_kw(t, "return"@)) ==> final(self).failed_from(old(self), 1, r->Err_0, false),
            r matches Err(e) && !(e is Tokenizer) && (old(self).buf matches Some(t) && is_kw(t, "while"@)) ==> final(self).failed_from(old(self), 1, r->Err_0, false)
                || exists|k: int, c: Expression, d: Split| k >= 2 && #[trigger] expr_tokens(
                final(self).took(old(self)).subrange(1, k),
                after(final(self).took(old(self)), k, final(self).buf),
                c,
                d,
            ) && final(self).failed_from(old(self), k, r->Err_0, true),
            r matches Err(e) && !(e is Tokenizer) && (old(self).buf matches Some(t) && is_kw(t, "if"@)) ==> final(self).failed_from(old(self), 1, r->Err_0, false)
                || (exists|k: int, c: Expression, d: Split| k >= 2 && #[trigger] expr_tokens(
                final(self).took(old(self)).subrange(1, k),
                after(final(self).took(old(self)), k, final(self).buf),
                c,
                d,
            ) && final(self).failed_from(old(self), k, r->Err_0, true)) || (exists|
                i: int,
                j: int,
                c: Expression,
                st: Statement,
                d1: Split,
                d2: Split,
            |
                #![trigger expr_tokens(final(self).took(old(self)).subrange(1, i), Some(final(self).took(old(self))[i]), c, d1), stmt_tokens(final(self).took(old(self)).subrange(i, j), Some(final(self).took(old(self))[j]), st, d2)]
                2 <= i < j < final(self).took(old(self)).len() && expr_tokens(
                final(self).took(old(self)).subrange(1, i),
                Some(final(self).took(old(self))[i]),
                c,
                d1,
            ) && stmt_tokens(final(self).took(old(self)).subrange(i, j), Some(final(self).took(old(self))[j]), st, d2)
                && is_kw(final(self).took(old(self))[j], "else"@) && final(self).failed_from(old(self), j + 1, r->Err_0, true)),
        decreases old(self).remaining(), 0nat,
    {
        let ghost p0 = *self;
        let ghost leaf = split(Seq::empty(), Seq::empty(), Seq::empty());
        proof {
            reveal_strlit("breakpoint");
            reveal_strlit("return");
            reveal_strlit("while");
            reveal_strlit("if");
            assert("breakpoint"@.len() == 10 && "return"@.len() == 6 && "while"@.len() == 5 && "if"@.len() == 2);
        }
        self.next_token()?;
        let ghost p1 = *self;
        let condition = self.parse_expr()?;
        let ghost p2 = *self;
        let true_block = self.parse_stmt()?;
        let ghost p3 = *self;
        let ghost cg = condition;
        let ghost tg = true_block;
        let ghost mut d2: Split = leaf;
        let false_block = if self.peek_is_symbol("else") {
            self.next_token()?;
            let ghost p4 = *self;
            let fb = self.parse_stmt()?;
            proof {
                Self::lemma_took_split(&p3, &p4, self);
                assert(self.took(&p3).skip(1) =~= self.took(&p4));
                d2 = choose|d: Split| #[trigger] is_split(d) && stmt_tokens(self.took(&p4), self.buf, fb, d);
            }
            Some(fb)
        } else {
            proof {
                assert(self.took(&p3) =~= Seq::<Token>::empty());
            }
            None
        };
        let ghost fg = false_block;
        proof {
            let d0 = choose|d: Split| #[trigger] expr_tokens(p2.took(&p1), p2.buf, cg, d);
            let d1 = choose|d: Split| #[trigger] is_split(d) && stmt_tokens(p3.took(&p2), p3.buf, tg, d);
            let dn = Self::lemma_stmt_if(&p0, &p1, &p2, &p3, self, cg, tg, fg, d0, d1, d2);
            assert(is_split(dn));
        }
        return Ok(Statement::If(Box::new((condition, true_block, false_block))));
    }

    /// A statement: `return`, `def`, `set`, `breakpoint`, `if`, `while`,
    /// `for`, a block, or an expression.
    #[verifier::rlimit(100)]
    #[verifier::spinoff_prover]
    pub fn parse_stmt(&mut self) -> (r: Result<Statement, Error>)
        requires
            old(self).wf(),
        ensures
            r matches Err(e) ==> final(self).raised(old(self).taken@.len(), e),
            final(self).advanced(old(self)),
            r matches Err(Error::ExpectedSymbol) ==> final(self).took(old(self)).len() > 0 && !(final(self).taken@.last() is Symbol),
            r matches Err(Error::UnknownToken) ==> !starts_expression(final(self).buf),
            final(self).from_lookahead(old(self)),
            old(self).buf is None ==> *final(self) == *old(self),
            (old(self).buf matches Some(t) && !starts_statement(t)) && !starts_expression(old(self).buf) ==> r matches Err(
                Error::UnknownToken,
            ),
            r is Ok ==> final(self).consumed(old(self)),
            old(self).buf is None ==> r matches Err(Error::UnexpectedEof),
            r matches Ok(st) ==> exists|d: Split| #[trigger] is_split(d) && stmt_tokens(final(self).took(old(self)), final(self).buf, st, d),
            r is Ok ==> final(self).took_lookahead(old(self)),
            r matches Err(e) && !(e is Tokenizer) && ((old(self).buf matches Some(t) && starts_statement(t)) || starts_expression(
                old(self).buf,
            )) ==> final(self).took(old(self)).len() >= 1
                && final(self).raised(old(self).taken@.len() + 1, r->Err_0),
            (old(self).buf matches Some(t) && is_kw(t, "breakpoint"@)) ==> (r == Ok::<Statement, Error>(Statement::Breakpoint)
                || r matches Err(Error::Tokenizer(_))),
            r matches Err(e) && !(e is Tokenizer) && (old(self).buf matches Some(t) && is_kw(t, "return"@)) ==> final(self).failed_from(old(self), 1, r->Err_0, false),
            r matches Err(e) && !(e is Tokenizer) && (old(self).buf matches Some(t) && is_kw(t, "while"@)) ==> final(self).failed_from(old(self), 1, r->Err_0, false)
                || exists|k: int, c: Expression, d: Split| k >= 2 && #[trigger] expr_tokens(
                final(self).took(old(self)).subrange(1, k),
                after(final(self).took(old(self)), k, final(self).buf),
                c,
                d,
            ) && final(self).failed_from(old(self), k, r->Err_0, true),
            r matches Err(e) && !(e is Tokenizer) && (old(self).buf matches Some(t) && is_kw(t, "if"@)) ==> final(self).failed_from(old(self), 1, r->Err_0, false)
                || (exists|k: int, c: Expression, d: Split| k >= 2 && #[trigger] expr_tokens(
                final(self).took(old(self)).subrange(1, k),
                after(final(self).took(old(self)), k, final(self).buf),
                c,
                d,
            ) && final(self).failed_from(old(self), k, r->Err_0, true)) || (exists|
                i: int,
                j: int,
                c: Expression,
                st: Statement,
                d1: Split,
                d2: Split,
            |
                #![trigger expr_tokens(final(self).took(old(self)).subrange(1, i), Some(final(self).took(old(self))[i]), c, d1), stmt_tokens(final(self).took(old(self)).subrange(i, j), Some(final(self).took(old(self))[j]), st, d2)]
                2 <= i < j < final(self).took(old(self)).len() && expr_tokens(
                final(self).took(old(self)).subrange(1, i),
                Some(final(self).took(old(self))[i]),
                c,
                d1,
            ) && stmt_tokens(final(self).took(old(self)).subrange(i, j), Some(final(self).took(old(self))[j]), st, d2)
                && is_kw(final(self).took(old(self))[j], "else"@) && final(self).failed_from(old(self), j + 1, r->Err_0, true)),
        decreases old(self).remaining(), 1nat,
    {
        let ghost p0 = *self;
        let ghost leaf = split(Seq::empty(), Seq::empty(), Seq::empty());
        if self.buf.is_none() {
            return Err(Error::UnexpectedEof);
        }
        proof {
            reveal_strlit("breakpoint");
            reveal_strlit("return");
            reveal_strlit("def");
            reveal_strlit("set");
            reveal_strlit("while");
            reveal_strlit("if");
            reveal_strlit("for");
            assert("breakpoint"@.len() == 10 && "return"@.len() == 6 && "def"@.len() == 3 && "set"@.len() == 3);
            assert("while"@.len() == 5 && "if"@.len() == 2 && "for"@.len() == 3 && "while"@[0] != "return"@[0]);
        }
        if self.peek_is_symbol("return") {
            self.next_token()?;
            let ghost p1 = *self;
            if self.peek_is_operand(';') {
                proof {
                    assert(stmt_tokens(self.took(&p0), self.buf, Statement::Return(None), leaf));
                    assert(is_split(leaf));
                }
                return Ok(Statement::Return(None));
            }
            let e = match self.parse_expr() {
                Ok(x) => x,
                Err(er) => {
                    proof {
                        Self::lemma_took_split(&p0, &p1, self);
                        assert(after(self.took(&p0), 1, self.buf) == p1.buf);
                        if !(er is Tokenizer) {
                            assert(self.failed_from(&p0, 1, er, false));
                        }
                    }
                    return Err(er);
                },
            };
            let ghost eg = e;
            proof {
                let de = choose|d: Split| #[trigger] expr_tokens(self.took(&p1), self.buf, eg, d);
                let dn = Self::lemma_stmt_return(&p0, &p1, self, eg, de);
                assert(is_split(dn));
            }
            return Ok(Statement::Return(Some(e)));
        }
        if self.peek_is_symbol("def") {
            self.next_token()?;
            let ghost p1 = *self;
            let a = self.parse_def_assignment()?;
            let ghost ag = a;
            proof {
                let da = choose|d: Split| #[trigger] is_split(d) && def_tokens(self.took(&p1), self.buf, ag, d);
                let dn = Self::lemma_stmt_assign(&p0, &p1, self, Statement::DefAssign(ag), da);
                assert(is_split(dn));
            }
            return Ok(Statement::DefAssign(a));
        }
        if self.peek_is_symbol("set") {
            self.next_token()?;
            let ghost p1 = *self;
            let a = self.parse_set_assignment()?;
            let ghost ag = a;
            proof {
                let da = choose|d: Split| #[trigger] is_split(d) && set_tokens(self.took(&p1), self.buf, ag, d);
                let dn = Self::lemma_stmt_assign(&p0, &p1, self, Statement::SetAssign(ag), da);
                assert(is_split(dn));
            }
            return Ok(Statement::SetAssign(a));
        }
        if self.peek_is_symbol("breakpoint") {
            self.next_token()?;
            let ghost p1 = *self;
            if self.peek_is_operand(';') {
                self.next_token()?;
                proof {
                    Self::lemma_took_split(&p0, &p1, self);
                }
            }
            proof {
                assert(stmt_tokens(self.took(&p0), self.buf, Statement::Breakpoint, leaf));
                assert(is_split(leaf));
            }
            return Ok(Statement::Breakpoint);
        }
        if self.peek_is_symbol("if") {
            return self.parse_if();
        }
        if self.peek_is_symbol("while") {
            return self.parse_while();
        }
        if self.peek_is_symbol("for") {
            self.next_token()?;
            let ghost p1 = *self;
            self.expect_operand('(')?;
            let ghost p2 = *self;
            let init = self.parse_stmt()?;
            let ghost p3 = *self;
            self.expect_operand(';')?;
            let ghost p4 = *self;
            let cond = self.parse_expr()?;
            let ghost p5 = *self;
            self.expect_operand(';')?;
            let ghost p6 = *self;
            let inc = self.parse_stmt()?;
            let ghost p7 = *self;
            self.expect_operand(')')?;
            let ghost p8 = *self;
            let body = self.parse_stmt()?;
            let f = ForStatement { init, cond, inc, body };
            proof {
                Self::lemma_took_split(&p0, &p1, &p2);
                assert(p2.took(&p0) =~= seq![p0.buf->Some_0, Token::Operand('(')]);
                let d0 = choose|d: Split| #[trigger] is_split(d) && stmt_tokens(p3.took(&p2), p3.buf, f.init, d);
                let d1 = choose|d: Split| #[trigger] expr_tokens(p5.took(&p4), p5.buf, f.cond, d);
                let d2 = choose|d: Split| #[trigger] is_split(d) && stmt_tokens(p7.took(&p6), p7.buf, f.inc, d);
                let d3 = choose|d: Split| #[trigger] is_split(d) && stmt_tokens(self.took(&p8), self.buf, f.body, d);
                let dn = Self::lemma_stmt_for(&p0, &p2, &p3, &p4, &p5, &p6, &p7, &p8, self, f, d0, d1, d2, d3);
                assert(is_split(dn));
            }
            return Ok(Statement::For(Box::new(f)));
        }
        if self.peek_is_operand('{') {
            let b = self.parse_block()?;
            let ghost bg = b;
            proof {
                let db = choose|d: Split| #[trigger] is_split(d) && block_tokens(self.took(&p0), bg@, d);
                let dn = Self::lemma_stmt_plain(&p0, self, Statement::Block(bg), db);
                assert(is_split(dn));
            }
            return Ok(Statement::Block(b));
        }
        let e = self.parse_expr()?;
        let ghost eg = e;
        proof {
            let de = choose|d: Split| #[trigger] expr_tokens(self.took(&p0), self.buf, eg, d);
            let dn = Self::lemma_stmt_plain(&p0, self, Statement::Expr(eg), de);
            assert(is_split(dn));
        }
        Ok(Statement::Expr(e))
    }

    /// `set dest = src` or `set *dest = src`.
    #[verifier::rlimit(40)]
    #[verifier::spinoff_prover]
    pub fn parse_set_assignment(&mut self) -> (r: Result<SetAssignment, Error>)
        requires
            old(self).wf(),
        ensures
            r matches Err(e) ==> final(self).raised(old(self).taken@.len(), e),
            final(self).advanced(old(self)),
            r matches Err(Error::ExpectedSymbol) ==> final(self).took(old(self)).len() > 0 && !(final(self).taken@.last() is Symbol),
            r matches Err(Error::UnknownToken) ==> !starts_expression(final(self).buf),
            r is Ok ==> final(self).consumed(old(self)),
            r matches Ok(a) ==> a.deref == (old(self).buf matches Some(Token::Operand(c)) && c == '*'),
            r matches Ok(a) ==> exists|d: Split| #[trigger] is_split(d) && set_tokens(final(self).took(old(self)), final(self).buf, a, d),
            r is Ok ==> final(self).took_lookahead(old(self)),
    {
        let ghost p0 = *self;
        let deref = if self.peek_is_operand('*') {
            self.next_token()?;
            true
        } else {
            false
        };
        let ghost p1 = *self;
        proof {
            if !deref {
                assert(self.took(&p0) =~= Seq::<Token>::empty());
            }
        }
        let var_dest = self.parse_expr()?;
        let ghost p2 = *self;
        self.expect_operand('=')?;
        let ghost p3 = *self;
        let var_src = self.parse_expr()?;
        let a = SetAssignment { var_dest, var_src, deref };
        proof {
            Self::lemma_took_split(&p0, &p1, &p2);
            Self::lemma_took_split(&p0, &p2, &p3);
            Self::lemma_took_split(&p0, &p3, self);
            let ts = self.took(&p0);
            let off: int = if deref {
                1
            } else {
                0
            };
            let i = p2.took(&p0).len() as int;
            assert(ts.subrange(off, i) =~= p2.took(&p1));
            assert(ts[i] == Token::Operand('='));
            assert(ts.skip(i + 1) =~= self.took(&p3));
            let d0 = choose|d: Split| #[trigger] expr_tokens(p2.took(&p1), p2.buf, a.var_dest, d);
            let d1 = choose|d: Split| #[trigger] expr_tokens(self.took(&p3), self.buf, a.var_src, d);
            let dn = split(seq![i], Seq::empty(), seq![d0, d1]);
            assert(dn.at[0] == i && dn.parts[0] == d0 && dn.parts[1] == d1);
            assert(set_tokens(ts, self.buf, a, dn));
            assert(is_split(dn));
        }
        Ok(a)
    }

    /// `def T name` or `def T name = value`.
    #[verifier::rlimit(40)]
    #[verifier::spinoff_prover]
    pub fn parse_def_assignment(&mut self) -> (r: Result<DefAssignment, Error>)
        requires
            old(self).wf(),
        ensures
            r matches Err(e) ==> final(self).raised(old(self).taken@.len(), e),
            final(self).advanced(old(self)),
            r matches Err(Error::ExpectedSymbol) ==> final(self).took(old(self)).len() > 0 && !(final(self).taken@.last() is Symbol),
            r matches Err(Error::UnknownToken) ==> !starts_expression(final(self).buf),
            r is Ok ==> final(self).consumed(old(self)),
            r matches Ok(a) ==> is_symbol_text(a.var_name@),
            r matches Ok(a) ==> exists|d: Split| #[trigger] is_split(d) && def_tokens(final(self).took(old(self)), final(self).buf, a, d),
            r is Ok ==> final(self).took_lookahead(old(self)),
    {
        let ghost p0 = *self;
        let var_type = self.parse_type()?;
        let ghost p1 = *self;
        let var_name = self.next_symbol()?;
        let ghost p2 = *self;
        let ghost leaf = split(Seq::empty(), Seq::empty(), Seq::empty());
        if self.peek_is_operand(';') {
            let a = DefAssignment { var_type, var_name, var_value: None };
            proof {
                Self::lemma_took_split(&p0, &p1, self);
                let ts = self.took(&p0);
                let i = p1.took(&p0).len() as int;
                assert(ts.take(i) =~= p1.took(&p0));
                let dn = split(seq![i], Seq::empty(), seq![leaf]);
                assert(dn.at[0] == i);
                assert(def_tokens(ts, self.buf, a, dn));
                assert(is_split(dn));
            }
            return Ok(a);
        }
        self.expect_operand('=')?;
        let ghost p3 = *self;
        let var_value = self.parse_expr()?;
        let ghost vg = var_value;
        let a = DefAssignment { var_type, var_name, var_value: Some(var_value) };
        proof {
            Self::lemma_took_split(&p0, &p1, &p2);
            Self::lemma_took_split(&p0, &p2, &p3);
            Self::lemma_took_split(&p0, &p3, self);
            let ts = self.took(&p0);
            let i = p1.took(&p0).len() as int;
            assert(ts.take(i) =~= p1.took(&p0));
            assert(ts[i + 1] == Token::Operand('='));
            assert(ts.skip(i + 2) =~= self.took(&p3));
            let de = choose|d: Split| #[trigger] expr_tokens(self.took(&p3), self.buf, vg, d);
            let dn = split(seq![i], Seq::empty(), seq![de]);
            assert(dn.at[0] == i && dn.parts[0] == de);
            assert(def_tokens(ts, self.buf, a, dn));
            assert(is_split(dn));
        }
        Ok(a)
    }

    /// `{ stmt; ... }`: statements, each followed by an optional `;`.
    #[verifier::rlimit(40)]
    #[verifier::spinoff_prover]
    pub fn parse_block(&mut self) -> (r: Result<Vec<Statement>, Error>)
        requires
            old(self).wf(),
        ensures
            r matches Err(e) ==> final(self).raised(old(self).taken@.len(), e),
            final(self).advanced(old(self)),
            r matches Err(Error::ExpectedSymbol) ==> final(self).took(old(self)).len() > 0 && !(final(self).taken@.last() is Symbol),
            r matches Err(Error::UnknownToken) ==> !starts_expression(final(self).buf),
            final(self).from_lookahead(old(self)),
            r is Ok ==> final(self).consumed(old(self)),
            r matches Ok(v) ==> exists|d: Split| #[trigger] is_split(d) && block_tokens(final(self).took(old(self)), v@, d),
            r is Ok ==> final(self).took_lookahead(old(self)),
            r matches Err(e) && !(e is Tokenizer) && old(self).buf == Some(Token::Operand('{')) ==> final(self).took(old(self)).len() >= 1
                && final(self).raised(old(self).taken@.len() + 1, r->Err_0),
            r matches Err(e) && !(e is Tokenizer) && old(self).buf == Some(Token::Operand('{')) ==> exists|k: int|
                #[trigger] final(self).block_failed_at(old(self), k, r->Err_0),
        decreases old(self).remaining(), 0nat,
    {
        let ghost pb = *self;
        self.expect_operand('{')?;
        let ghost p0 = *self;
        let mut body: Vec<Statement> = Vec::new();
        let ghost mut ds: Split = split(Seq::empty(), Seq::empty(), Seq::empty());
        proof {
            assert(self.took(&p0) =~= Seq::<Token>::empty());
        }
        loop
            invariant_except_break
                stmts_tokens(self.took(&p0), self.buf, body@, ds),
                self.continues(&p0),
            invariant
                self.consumed(old(self)),
                pb == *old(self),
                p0.extends(&pb),
                self.extends(&p0),
                p0.took(&pb) == seq![Token::Operand('{')],
                pb.buf == Some(Token::Operand('{')),
                self.taken@.len() >= pb.taken@.len() + 1,
                self.took_lookahead(&pb),
            ensures
                block_tokens(self.took(&pb), body@, split(Seq::empty(), Seq::empty(), seq![ds])),
                self.took_lookahead(&pb),
            decreases self.remaining(),
        {
            let ghost q0 = *self;
            if self.peek_is_operand('}') {
                self.next_token()?;
                proof {
                    Self::lemma_took_split(&pb, &p0, &q0);
                    Self::lemma_took_split(&pb, &q0, self);
                    let ts = self.took(&pb);
                    assert(ts.subrange(1, ts.len() - 1) =~= q0.took(&p0));
                    let dn = split(Seq::empty(), Seq::empty(), seq![ds]);
                    assert(dn.parts[0] == ds);
                    assert(block_tokens(ts, body@, dn));
                }
                break;
            }
            if self.buf.is_none() {
                proof {
                    let k = self.took(&pb).len() as int;
                    Self::lemma_took_split(&pb, &p0, self);
                    assert(self.took(&pb).subrange(1, k) =~= self.took(&p0));
                    assert(self.block_failed_at(&pb, k, Error::ExpectedOperand('}')));
                }
                return Err(Error::ExpectedOperand('}'));
            }
            let stmt = match self.parse_stmt() {
                Ok(st) => st,
                Err(e) => {
                    proof {
                        let k = q0.took(&pb).len() as int;
                        Self::lemma_took_split(&pb, &p0, &q0);
                        Self::lemma_took_split(&pb, &q0, self);
                        assert(self.took(&pb).subrange(1, k) =~= q0.took(&p0));
                        assert(after(self.took(&pb), k, self.buf) == q0.buf);
                        if !(e is Tokenizer) {
                            assert(self.block_failed_at(&pb, k, e));
                        }
                    }
                    return Err(e);
                },
            };
            let ghost q1 = *self;
            let ghost sg = stmt;
            let ghost old_body = body@;
            if self.peek_is_operand(';') {
                self.next_token()?;
            } else {
                proof {
                    assert(self.took(&q1) =~= Seq::<Token>::empty());
                }
            }
            body.push(stmt);
            proof {
                let dst = choose|d: Split| #[trigger] stmt_tokens(q1.took(&q0), q1.buf, sg, d);
                ds = Self::lemma_stmts_step(&p0, &q0, &q1, self, old_body, sg, ds, dst);
                assert(old_body.push(sg) =~= body@);
            }
        }
        proof {
            assert(is_split(split(Seq::empty(), Seq::empty(), seq![ds])));
        }
        Ok(body)
    }

    /// A function: `[extern "C"] T name(T a, ...)` followed by `;` (a
    /// declaration) or a block.
    #[verifier::rlimit(40)]
    #[verifier::spinoff_prover]
    pub fn parse_func(&mut self) -> (r: Result<(String, Function), Error>)
        requires
            old(self).wf(),
        ensures
            r matches Err(e) ==> final(self).raised(old(self).taken@.len(), e),
            final(self).advanced(old(self)),
            r is Ok ==> final(self).consumed(old(self)),
            r matches Ok((name, f)) ==> is_symbol_text(name@) && !f.is_variadic && (f.abi is C <==> (old(self).buf matches Some(
                Token::Symbol(x),
            ) && x@ == "extern"@)),
            r matches Ok((name, f)) ==> exists|d: Split| #[trigger] is_split(d) && func_tokens(final(self).took(old(self)), name, f, d),
            r is Ok ==> final(self).took_lookahead(old(self)),
    {
        let ghost p0 = *self;
        let abi = if self.peek_is_symbol("extern") {
            self.next_token()?;
            let ghost pa = *self;
            match self.next_token()? {
                Some(Token::String(s)) => {
                    if crate::expr::str_is(&s, "C") {
                        proof {
                            Self::lemma_took_split(&p0, &pa, self);
                            assert(self.took(&p0) =~= seq![p0.buf->Some_0, Token::String(s)]);
                        }
                        Abi::C
                    } else {
                        return Err(Error::UnknownToken);
                    }
                },
                _ => return Err(Error::UnknownToken),
            }
        } else {
            proof {
                assert(self.took(&p0) =~= Seq::<Token>::empty());
            }
            Abi::Stucker
        };
        let ghost pc = *self;
        let return_type = self.parse_type()?;
        let ghost p1 = *self;
        let func_name = self.next_symbol()?;
        let ghost p2 = *self;
        let params = self.parse_type_array('(', ')')?;
        let ghost p3 = *self;
        let ghost leaf = split(Seq::empty(), Seq::empty(), Seq::empty());
        if self.peek_is_operand(';') {
            self.next_token()?;
            let f = Function { return_type, params, body: None, abi, is_variadic: false };
            proof {
                let df = choose|d: Split| #[trigger] is_split(d) && bracketed_fields(p3.took(&p2), '(', ')', f.params, d);
                let dn = Self::lemma_func(&p0, &pc, &p1, &p2, &p3, self, func_name, f, df, leaf);
                assert(is_split(dn));
                Self::lemma_took_split(&p0, &pc, self);
            }
            return Ok((func_name, f));
        }
        let body = self.parse_block()?;
        let f = Function { return_type, params, body: Some(body), abi, is_variadic: false };
        proof {
            let df = choose|d: Split| #[trigger] is_split(d) && bracketed_fields(p3.took(&p2), '(', ')', f.params, d);
            let b = f.body->Some_0;
            let db = choose|d: Split| #[trigger] is_split(d) && block_tokens(self.took(&p3), b@, d);
            let dn = Self::lemma_func(&p0, &pc, &p1, &p2, &p3, self, func_name, f, df, db);
            assert(is_split(dn));
            Self::lemma_took_split(&p0, &pc, self);
        }
        Ok((func_name, f))
    }

    /// `struct Name { T field, ... }`; a field name used twice is
    /// `DuplicateField`.
    pub fn parse_struct(&mut self) -> (r: Result<(String, Struct), Error>)
        requires
            old(self).wf(),
        ensures
            r matches Err(e) ==> final(self).raised(old(self).taken@.len(), e),
            final(self).advanced(old(self)),
            r is Ok ==> final(self).consumed(old(self)),
            r matches Ok((name, st)) ==> is_symbol_text(name@) && distinct_fields(st.0@),
            r matches Ok((name, st)) ==> exists|d: Split| #[trigger] is_split(d) && struct_tokens(final(self).took(old(self)), name, st, d),
            r is Ok ==> final(self).took_lookahead(old(self)),
    {
        let ghost p0 = *self;
        let kw = self.next_symbol()?;
        if !crate::expr::str_is(&kw, "struct") {
            proof {
                let t = self.took(&p0);
                assert(t.len() == 1);
                assert(self.taken@.len() == p0.taken@.len() + 1);
                assert(t[0] == self.taken@[p0.taken@.len() as int]);
            }
            return Err(Error::ExpectedStruct);
        }
        let ghost p1 = *self;
        let name = self.next_symbol()?;
        let ghost p2 = *self;
        let body = self.parse_type_array('{', '}')?;
        let ghost ng = name;
        let ghost bg = body;
        let ghost mut dsv: Split = split(Seq::empty(), Seq::empty(), Seq::empty());
        proof {
            Self::lemma_took_split(&p0, &p1, &p2);
            Self::lemma_took_split(&p0, &p2, self);
            let ts = self.took(&p0);
            assert(ts.skip(2) =~= self.took(&p2));
            dsv = choose|d: Split| #[trigger] is_split(d) && bracketed_fields(self.took(&p2), '{', '}', bg, d);
            assert(struct_tokens(ts, ng, Struct(bg), dsv));
            let t2 = self.took(&p2);
            assert(self.taken@[self.taken@.len() - 1] == t2[t2.len() - 1]);
            assert(self.taken@.len() > p0.taken@.len());
        }
        let ghost p3 = *self;
        let mut j: usize = 0;
        while j < body.len()
            invariant
                j <= body.len(),
                distinct_fields(body@.take(j as int)),
                self.consumed(old(self)),
                *self == p3,
                body == bg,
                p3.taken@.len() > old(self).taken@.len() && p3.taken@[p3.taken@.len() - 1] == Token::Operand('}'),
            decreases body.len() - j,
        {
            let mut i: usize = 0;
            while i < j
                invariant
                    i <= j < body.len(),
                    forall|k: int| 0 <= k < i ==> body@[k].1@ != body@[j as int].1@,
                    self.consumed(old(self)),
                    *self == p3,
                    body == bg,
                    p3.taken@.len() > old(self).taken@.len() && p3.taken@[p3.taken@.len() - 1] == Token::Operand('}'),
                decreases j - i,
            {
                if body[i].1 == body[j].1 {
                    return Err(Error::DuplicateField(body[j].1.clone()));
                }
                i = i + 1;
            }
            proof {
                let t = body@.take(j + 1);
                assert forall|a: int, b: int| 0 <= a < b < t.len() implies (#[trigger] t[a]).1@ != (#[trigger] t[b]).1@ by {
                    if b < j {
                        assert(body@.take(j as int)[a] == t[a]);
                        assert(body@.take(j as int)[b] == t[b]);
                    }
                }
            }
            j = j + 1;
        }
        proof {
            assert(body@.take(j as int) =~= body@);
            assert(is_split(dsv));
        }
        Ok((name, Struct(body)))
    }

    /// The next top-level definition: a struct or a function; `None` at the
    /// end of input.
    pub fn next_global(&mut self) -> (r: Result<Option<(String, GlobalValue)>, Error>)
        requires
            old(self).wf(),
        ensures
            r matches Err(e) ==> final(self).raised(old(self).taken@.len(), e),
            final(self).advanced(old(self)),
            old(self).buf is None <==> r matches Ok(None),
            old(self).buf is None ==> *final(self) == *old(self),
            old(self).buf is Some && !(old(self).buf->Some_0 is Symbol) ==> r matches Err(Error::ExpectedSymbol),
            r matches Ok(Some((name, v))) ==> final(self).consumed(old(self)) && is_symbol_text(name@) && (v matches GlobalValue::Struct(
                st,
            ) ==> distinct_fields(st.0@)),
            r matches Ok(Some((name, v))) ==> exists|d: Split| #[trigger] is_split(d) && global_tokens(final(self).took(old(self)), name, v, d),
            r matches Ok(Some(_)) ==> final(self).took_lookahead(old(self)),
    {
        let ghost p0 = *self;
        if self.buf.is_none() {
            return Ok(None);
        }
        if self.peek_is_symbol("struct") {
            let (name, st) = self.parse_struct()?;
            let ghost g = GlobalValue::Struct(st);
            proof {
                let d = choose|d: Split| #[trigger] is_split(d) && struct_tokens(self.took(&p0), name, st, d);
                assert(global_tokens(self.took(&p0), name, g, d));
            }
            return Ok(Some((name, GlobalValue::Struct(st))));
        }
        match &self.buf {
            Some(Token::Symbol(_)) => {
                let (name, function) = self.parse_func()?;
                let ghost g = GlobalValue::Function(function);
                proof {
                    let d = choose|d: Split| #[trigger] is_split(d) && func_tokens(self.took(&p0), name, function, d);
                    assert(global_tokens(self.took(&p0), name, g, d));
                }
                Ok(Some((name, GlobalValue::Function(function))))
            },
            _ => Err(Error::ExpectedSymbol),
        }
    }
}

} // verus!
