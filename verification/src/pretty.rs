//! The debugging text of syntax trees: what a tree prints as, written the
//! way the source reads, with names quoted.
//!
//! Float literals are printed by the caller's `FloatBits`, since floating
//! point stays outside the verified code. The text of a tree is therefore
//! specified up to the texts of its float literals, which are taken in the
//! order the text shows them.
use vstd::prelude::*;
use vstd::string::StrSliceExecFns;

use crate::ast::{
    type_text, DefAssignment, Expression, ExpressionType, Function, GlobalValue, Number, SetAssignment, Statement,
    Struct,
};
use crate::nasm::{chars_to_string, owned, replace_chars, replaced};
use crate::text::{dec, i64_text, int_dec, u64_text};
use crate::tokenize::FloatBits;

verus! {

/// Name for the text `<str as Debug>::fmt` writes for a string.
pub uninterp spec fn str_debug(s: Seq<char>) -> Seq<char>;

/// The `Debug` text of a string (`format!("{:?}", s)`): the string in
/// double quotes, with its characters escaped as `char::escape_debug` does.
/// Nothing else is assumed of it than that it is a function of the string.
#[verifier::external_body]
pub(crate) fn debug_str(s: &str) -> (r: String)
    ensures
        r@ == str_debug(s@),
{
    format!("{:?}", s)
}

/// The text of a number literal: its value and its type's suffix; `f` is
/// the text of a float literal's value.
pub open spec fn number_text(n: Number, f: Seq<char>) -> Seq<char> {
    match n {
        Number::I8(x) => int_dec(x as int) + "i8"@,
        Number::I16(x) => int_dec(x as int) + "i16"@,
        Number::I32(x) => int_dec(x as int) + "i32"@,
        Number::I64(x) => int_dec(x as int) + "i64"@,
        Number::U8(x) => dec(x as nat) + "u8"@,
        Number::U16(x) => dec(x as nat) + "u16"@,
        Number::U32(x) => dec(x as nat) + "u32"@,
        Number::U64(x) => dec(x as nat) + "u64"@,
        Number::F32(_) => f + "f32"@,
        Number::F64(_) => f + "f64"@,
    }
}

/// A string literal's text: quoted, with `"` written `\"` and then every
/// backslash doubled (so a quote shows as `\\"`).
pub open spec fn string_lit_text(s: Seq<char>) -> Seq<char> {
    seq!['"'] + replaced(replaced(s, seq!['"'], seq!['\\', '"']), seq!['\\'], seq!['\\', '\\']) + seq!['"']
}

/// How many float literals an expression holds.
pub open spec fn expr_floats(e: &Expression) -> nat
    decreases e, 0nat,
{
    match e {
        Expression::Call(_, args) => exprs_floats(args@),
        Expression::Number(n) => if n is F32 || n is F64 {
            1
        } else {
            0
        },
        Expression::Symbol(_) => 0,
        Expression::BinOp(b) => expr_floats(&b.0) + expr_floats(&b.2),
        Expression::Ref(x) => expr_floats(x),
        Expression::Deref(x) => expr_floats(x),
        Expression::As(b) => expr_floats(&b.1),
        Expression::InitArray(b) => expr_floats(&b.0),
        Expression::FieldAccess(b) => expr_floats(&b.0),
        Expression::ArrayAccess(b) => expr_floats(&b.0) + expr_floats(&b.1),
        Expression::String(_) => 0,
    }
}

/// How many float literals a list of expressions holds.
pub open spec fn exprs_floats(s: Seq<Expression>) -> nat
    decreases s, 1nat,
{
    if s.len() == 0 {
        0
    } else {
        exprs_floats(s.drop_last()) + expr_floats(&s.last())
    }
}

/// The text of an expression whose float literals print as `fl`, in order.
pub open spec fn expr_text(e: &Expression, fl: Seq<Seq<char>>) -> Seq<char>
    decreases e, 0nat,
{
    match e {
        Expression::Call(k, args) => k@ + "("@ + exprs_text(args@, fl) + ")"@,
        Expression::Number(n) => number_text(*n, fl[0]),
        Expression::Symbol(s) => str_debug(s@),
        Expression::BinOp(b) => {
            let c = expr_floats(&b.0) as int;
            "("@ + expr_text(&b.0, fl.take(c)) + " "@ + b.1@ + " "@ + expr_text(&b.2, fl.skip(c)) + ")"@
        },
        Expression::Ref(x) => "&("@ + expr_text(x, fl) + ")"@,
        Expression::Deref(x) => "*("@ + expr_text(x, fl) + ")"@,
        Expression::As(b) => "as("@ + type_text(b.0@) + ")("@ + expr_text(&b.1, fl) + ")"@,
        Expression::InitArray(b) => "["@ + expr_text(&b.0, fl) + "]"@ + type_text(b.1@),
        Expression::FieldAccess(b) => "("@ + expr_text(&b.0, fl) + ")."@ + b.1@,
        Expression::ArrayAccess(b) => {
            let c = expr_floats(&b.0) as int;
            "("@ + expr_text(&b.0, fl.take(c)) + ")["@ + expr_text(&b.1, fl.skip(c)) + "]"@
        },
        Expression::String(s) => string_lit_text(s@),
    }
}

/// The texts of a list of expressions, separated by `, `.
pub open spec fn exprs_text(s: Seq<Expression>, fl: Seq<Seq<char>>) -> Seq<char>
    decreases s, 1nat,
{
    if s.len() == 0 {
        Seq::empty()
    } else if s.len() == 1 {
        expr_text(&s[0], fl)
    } else {
        let c = exprs_floats(s.drop_last()) as int;
        exprs_text(s.drop_last(), fl.take(c)) + ", "@ + expr_text(&s.last(), fl.skip(c))
    }
}

/// Joining one more expression's text onto the texts of the ones before it.
proof fn lemma_exprs_step(s: Seq<Expression>, i: int, fl: Seq<Seq<char>>, f: Seq<Seq<char>>)
    requires
        0 <= i < s.len(),
        fl.len() == exprs_floats(s.take(i)),
        f.len() == expr_floats(&s[i]),
    ensures
        exprs_floats(s.take(i + 1)) == fl.len() + f.len(),
        exprs_text(s.take(i + 1), fl + f) == if i == 0 {
            expr_text(&s[i], f)
        } else {
            exprs_text(s.take(i), fl) + ", "@ + expr_text(&s[i], f)
        },
{
    let t = s.take(i + 1);
    assert(t.drop_last() =~= s.take(i));
    assert(t.last() == s[i]);
    assert((fl + f).take(fl.len() as int) =~= fl);
    assert((fl + f).skip(fl.len() as int) =~= f);
    if i == 0 {
        assert(t[0] == s[0]);
        assert(fl.len() == 0);
        assert(fl + f =~= f);
    }
}

impl Expression {
    /// The expression's debugging text: calls as `f(a, b)`, operations
    /// parenthesised as `(a op b)`, names quoted, literals with their type
    /// suffix. Float literals are printed by `floats`.
    pub fn debug_text<F: FloatBits>(&self, floats: &F) -> (r: String)
        ensures
            exists|fl: Seq<Seq<char>>| fl.len() == expr_floats(self) && r@ == #[trigger] expr_text(self, fl),
        decreases self,
    {
        match self {
            Expression::Call(k, args) => {
                let mut out = owned(k.as_str());
                out.append("(");
                let mut i: usize = 0;
                let ghost mut fl: Seq<Seq<char>> = Seq::empty();
                let ghost prefix = out@;
                assert(args@.take(0) =~= Seq::<Expression>::empty());
                while i < args.len()
                    invariant
                        i <= args.len(),
                        *self == Expression::Call(*k, *args),
                        prefix == k@ + "("@,
                        fl.len() == exprs_floats(args@.take(i as int)),
                        out@ == prefix + exprs_text(args@.take(i as int), fl),
                    decreases args.len() - i,
                {
                    proof {
                        assert(decreases_to!(*self => self->Call_1));
                        assert(self->Call_1 == *args);
                        assert(decreases_to!(*args => args@));
                        assert(decreases_to!(args@ => args@[i as int]));
                    }
                    let a = args[i].debug_text(floats);
                    let ghost f = choose|f: Seq<Seq<char>>| f.len() == expr_floats(&args@[i as int]) && a@ == #[trigger] expr_text(&args@[i as int], f);
                    proof {
                        lemma_exprs_step(args@, i as int, fl, f);
                    }
                    if i > 0 {
                        out.append(", ");
                    }
                    out.append(a.as_str());
                    proof {
                        if i == 0 {
                            assert(exprs_text(args@.take(0), fl) =~= Seq::<char>::empty());
                        }
                        fl = fl + f;
                    }
                    i = i + 1;
                }
                assert(args@.take(i as int) =~= args@);
                out.append(")");
                assert(out@ =~= expr_text(self, fl));
                out
            },
            Expression::Number(n) => {
                let (out, Ghost(f)) = number_debug(n, floats);
                proof {
                    if n is F32 || n is F64 {
                        assert(seq![f][0] == f);
                        assert(out@ == expr_text(self, seq![f]));
                    } else {
                        assert(out@ == expr_text(self, Seq::empty()));
                    }
                }
                out
            },
            Expression::Symbol(s) => {
                let out = debug_str(s.as_str());
                assert(out@ == expr_text(self, Seq::empty()));
                out
            },
            Expression::BinOp(b) => {
                let l = b.0.debug_text(floats);
                let ghost fl = choose|f: Seq<Seq<char>>| f.len() == expr_floats(&b.0) && l@ == #[trigger] expr_text(&b.0, f);
                let rt = b.2.debug_text(floats);
                let ghost fr = choose|f: Seq<Seq<char>>| f.len() == expr_floats(&b.2) && rt@ == #[trigger] expr_text(&b.2, f);
                let mut out = owned("(");
                out.append(l.as_str());
                out.append(" ");
                out.append(b.1.as_str());
                out.append(" ");
                out.append(rt.as_str());
                out.append(")");
                proof {
                    let all = fl + fr;
                    assert(all.take(fl.len() as int) =~= fl);
                    assert(all.skip(fl.len() as int) =~= fr);
                    assert(out@ =~= expr_text(self, all));
                }
                out
            },
            Expression::Ref(x) => {
                let inner = x.debug_text(floats);
                let ghost f = choose|f: Seq<Seq<char>>| f.len() == expr_floats(x) && inner@ == #[trigger] expr_text(x, f);
                let mut out = owned("&(");
                out.append(inner.as_str());
                out.append(")");
                assert(out@ =~= expr_text(self, f));
                out
            },
            Expression::Deref(x) => {
                let inner = x.debug_text(floats);
                let ghost f = choose|f: Seq<Seq<char>>| f.len() == expr_floats(x) && inner@ == #[trigger] expr_text(x, f);
                let mut out = owned("*(");
                out.append(inner.as_str());
                out.append(")");
                assert(out@ =~= expr_text(self, f));
                out
            },
            Expression::As(b) => {
                let inner = b.1.debug_text(floats);
                let ghost f = choose|f: Seq<Seq<char>>| f.len() == expr_floats(&b.1) && inner@ == #[trigger] expr_text(&b.1, f);
                let ty = b.0.to_string();
                let mut out = owned("as(");
                out.append(ty.as_str());
                out.append(")(");
                out.append(inner.as_str());
                out.append(")");
                assert(out@ =~= expr_text(self, f));
                out
            },
            Expression::InitArray(b) => {
                let inner = b.0.debug_text(floats);
                let ghost f = choose|f: Seq<Seq<char>>| f.len() == expr_floats(&b.0) && inner@ == #[trigger] expr_text(&b.0, f);
                let ty = b.1.to_string();
                let mut out = owned("[");
                out.append(inner.as_str());
                out.append("]");
                out.append(ty.as_str());
                assert(out@ =~= expr_text(self, f));
                out
            },
            Expression::FieldAccess(b) => {
                let inner = b.0.debug_text(floats);
                let ghost f = choose|f: Seq<Seq<char>>| f.len() == expr_floats(&b.0) && inner@ == #[trigger] expr_text(&b.0, f);
                let mut out = owned("(");
                out.append(inner.as_str());
                out.append(").");
                out.append(b.1.as_str());
                assert(out@ =~= expr_text(self, f));
                out
            },
            Expression::ArrayAccess(b) => {
                let l = b.0.debug_text(floats);
                let ghost fl = choose|f: Seq<Seq<char>>| f.len() == expr_floats(&b.0) && l@ == #[trigger] expr_text(&b.0, f);
                let rt = b.1.debug_text(floats);
                let ghost fr = choose|f: Seq<Seq<char>>| f.len() == expr_floats(&b.1) && rt@ == #[trigger] expr_text(&b.1, f);
                let mut out = owned("(");
                out.append(l.as_str());
                out.append(")[");
                out.append(rt.as_str());
                out.append("]");
                proof {
                    let all = fl + fr;
                    assert(all.take(fl.len() as int) =~= fl);
                    assert(all.skip(fl.len() as int) =~= fr);
                    assert(out@ =~= expr_text(self, all));
                }
                out
            },
            Expression::String(s) => {
                let out = string_lit(s.as_str());
                assert(out@ == expr_text(self, Seq::empty()));
                out
            },
        }
    }
}

/// A number literal's text, with the text `floats` gives a float's value.
fn number_debug<F: FloatBits>(n: &Number, floats: &F) -> (r: (String, Ghost<Seq<char>>))
    ensures
        r.0@ == number_text(*n, r.1@),
        !(n is F32 || n is F64) ==> r.1@ == Seq::<char>::empty(),
{
    match n {
        Number::I8(x) => (cat_suffix(i64_text(*x as i64), "i8"), Ghost(Seq::empty())),
        Number::I16(x) => (cat_suffix(i64_text(*x as i64), "i16"), Ghost(Seq::empty())),
        Number::I32(x) => (cat_suffix(i64_text(*x as i64), "i32"), Ghost(Seq::empty())),
        Number::I64(x) => (cat_suffix(i64_text(*x), "i64"), Ghost(Seq::empty())),
        Number::U8(x) => (cat_suffix(u64_text(*x as u64), "u8"), Ghost(Seq::empty())),
        Number::U16(x) => (cat_suffix(u64_text(*x as u64), "u16"), Ghost(Seq::empty())),
        Number::U32(x) => (cat_suffix(u64_text(*x as u64), "u32"), Ghost(Seq::empty())),
        Number::U64(x) => (cat_suffix(u64_text(*x), "u64"), Ghost(Seq::empty())),
        Number::F32(bits) => {
            let t = floats.single_text(*bits);
            let ghost f = t@;
            (cat_suffix(t, "f32"), Ghost(f))
        },
        Number::F64(bits) => {
            let t = floats.double_text(*bits);
            let ghost f = t@;
            (cat_suffix(t, "f64"), Ghost(f))
        },
    }
}

fn cat_suffix(a: String, b: &str) -> (r: String)
    ensures
        r@ == a@ + b@,
{
    let mut a = a;
    a.append(b);
    a
}

fn str_chars(s: &str) -> (r: Vec<char>)
    ensures
        r@ == s@,
{
    let n = s.unicode_len();
    let mut v: Vec<char> = Vec::new();
    let mut i: usize = 0;
    while i < n
        invariant
            i <= n,
            n == s@.len(),
            v@ == s@.take(i as int),
        decreases n - i,
    {
        v.push(s.get_char(i));
        assert(s@.take(i + 1) =~= s@.take(i as int).push(s@[i as int]));
        i = i + 1;
    }
    assert(s@.take(i as int) =~= s@);
    v
}

/// A string literal's text (see `string_lit_text`).
fn string_lit(s: &str) -> (r: String)
    ensures
        r@ == string_lit_text(s@),
{
    let chars = str_chars(s);
    let quote: Vec<char> = vec!['"'];
    let escaped_quote: Vec<char> = vec!['\\', '"'];
    let backslash: Vec<char> = vec!['\\'];
    let two_backslashes: Vec<char> = vec!['\\', '\\'];
    assert(quote@ =~= seq!['"']);
    assert(escaped_quote@ =~= seq!['\\', '"']);
    assert(backslash@ =~= seq!['\\']);
    assert(two_backslashes@ =~= seq!['\\', '\\']);
    let once = replace_chars(&chars, &quote, &escaped_quote);
    let twice = replace_chars(&once, &backslash, &two_backslashes);
    let mut out: Vec<char> = vec!['"'];
    let mut i: usize = 0;
    let ghost head = out@;
    while i < twice.len()
        invariant
            i <= twice.len(),
            out@ == head + twice@.take(i as int),
        decreases twice.len() - i,
    {
        out.push(twice[i]);
        assert(twice@.take(i + 1) =~= twice@.take(i as int).push(twice@[i as int]));
        i = i + 1;
    }
    out.push('"');
    assert(twice@.take(i as int) =~= twice@);
    assert(out@ =~= string_lit_text(s@));
    chars_to_string(&out)
}


/// How many float literals a statement holds.
pub open spec fn stmt_floats(s: &Statement) -> nat
    decreases s, 0nat,
{
    match s {
        Statement::DefAssign(d) => def_floats(d),
        Statement::SetAssign(x) => expr_floats(&x.var_dest) + expr_floats(&x.var_src),
        Statement::Return(r) => match r {
            Some(e) => expr_floats(e),
            None => 0,
        },
        Statement::Expr(e) => expr_floats(e),
        Statement::Block(v) => stmts_floats(v@),
        Statement::If(b) => expr_floats(&b.0) + stmt_floats(&b.1) + match &b.2 {
            Some(e) => stmt_floats(e),
            None => 0,
        },
        Statement::While(b) => expr_floats(&b.0) + stmt_floats(&b.1),
        Statement::For(f) => stmt_floats(&f.init) + expr_floats(&f.cond) + stmt_floats(&f.inc) + stmt_floats(
            &f.body,
        ),
        Statement::Breakpoint => 0,
    }
}

/// How many float literals a list of statements holds.
pub open spec fn stmts_floats(s: Seq<Statement>) -> nat
    decreases s, 1nat,
{
    if s.len() == 0 {
        0
    } else {
        stmts_floats(s.drop_last()) + stmt_floats(&s.last())
    }
}

/// How many float literals a definition holds.
pub open spec fn def_floats(d: &DefAssignment) -> nat {
    match &d.var_value {
        Some(x) => expr_floats(x),
        None => 0,
    }
}

/// The text of a definition: `T "name" = value`, or `T "name";` without a
/// value.
pub open spec fn def_text(d: &DefAssignment, fl: Seq<Seq<char>>) -> Seq<char> {
    match &d.var_value {
        Some(x) => type_text(d.var_type@) + " "@ + str_debug(d.var_name@) + " = "@ + expr_text(x, fl),
        None => type_text(d.var_type@) + " "@ + str_debug(d.var_name@) + ";"@,
    }
}

/// The text of an assignment: `dest = src`, with a leading `*` when it
/// writes through a reference.
pub open spec fn set_text(x: &SetAssignment, fl: Seq<Seq<char>>) -> Seq<char> {
    let c = expr_floats(&x.var_dest) as int;
    (if x.deref {
        "*"@
    } else {
        Seq::empty()
    }) + expr_text(&x.var_dest, fl.take(c)) + " = "@ + expr_text(&x.var_src, fl.skip(c))
}

/// The text of a statement whose float literals print as `fl`, in order.
pub open spec fn stmt_text(s: &Statement, fl: Seq<Seq<char>>) -> Seq<char>
    decreases s, 0nat,
{
    match s {
        Statement::DefAssign(d) => "def "@ + def_text(d, fl) + ";"@,
        Statement::SetAssign(x) => "set "@ + set_text(x, fl) + ";"@,
        Statement::Return(r) => match r {
            Some(e) => "return "@ + expr_text(e, fl) + ";"@,
            None => "return;"@,
        },
        Statement::Expr(e) => expr_text(e, fl) + ";"@,
        Statement::Block(v) => "{ "@ + stmts_text(v@, fl) + " }"@,
        Statement::If(b) => {
            let c0 = expr_floats(&b.0) as int;
            let c1 = stmt_floats(&b.1) as int;
            "if ("@ + expr_text(&b.0, fl.take(c0)) + ") "@ + stmt_text(&b.1, fl.skip(c0).take(c1)) + " else "@
                + match &b.2 {
                Some(e) => "Some("@ + stmt_text(e, fl.skip(c0 + c1)) + ")"@,
                None => "None"@,
            }
        },
        Statement::While(b) => {
            let c0 = expr_floats(&b.0) as int;
            "while ("@ + expr_text(&b.0, fl.take(c0)) + ") "@ + stmt_text(&b.1, fl.skip(c0))
        },
        Statement::For(f) => {
            let c0 = stmt_floats(&f.init) as int;
            let c1 = expr_floats(&f.cond) as int;
            let c2 = stmt_floats(&f.inc) as int;
            "for ("@ + stmt_text(&f.init, fl.take(c0)) + "; "@ + expr_text(&f.cond, fl.skip(c0).take(c1)) + "; "@
                + stmt_text(&f.inc, fl.skip(c0 + c1).take(c2)) + ") "@ + stmt_text(&f.body, fl.skip(c0 + c1 + c2))
        },
        Statement::Breakpoint => "breakpoint;"@,
    }
}

/// The texts of a list of statements, separated by spaces.
pub open spec fn stmts_text(s: Seq<Statement>, fl: Seq<Seq<char>>) -> Seq<char>
    decreases s, 1nat,
{
    if s.len() == 0 {
        Seq::empty()
    } else if s.len() == 1 {
        stmt_text(&s[0], fl)
    } else {
        let c = stmts_floats(s.drop_last()) as int;
        stmts_text(s.drop_last(), fl.take(c)) + " "@ + stmt_text(&s.last(), fl.skip(c))
    }
}

/// Joining one more statement's text onto the texts of the ones before it.
proof fn lemma_stmts_step(s: Seq<Statement>, i: int, fl: Seq<Seq<char>>, f: Seq<Seq<char>>)
    requires
        0 <= i < s.len(),
        fl.len() == stmts_floats(s.take(i)),
        f.len() == stmt_floats(&s[i]),
    ensures
        stmts_floats(s.take(i + 1)) == fl.len() + f.len(),
        stmts_text(s.take(i + 1), fl + f) == if i == 0 {
            stmt_text(&s[i], f)
        } else {
            stmts_text(s.take(i), fl) + " "@ + stmt_text(&s[i], f)
        },
{
    let t = s.take(i + 1);
    assert(t.drop_last() =~= s.take(i));
    assert(t.last() == s[i]);
    assert((fl + f).take(fl.len() as int) =~= fl);
    assert((fl + f).skip(fl.len() as int) =~= f);
    if i == 0 {
        assert(t[0] == s[0]);
        assert(fl + f =~= f);
    }
}

/// The text of a typed name: `T name`.
pub open spec fn field_text(p: (ExpressionType, String)) -> Seq<char> {
    type_text(p.0@) + " "@ + p.1@
}

/// The texts of typed names, separated by `, `.
pub open spec fn fields_text(s: Seq<(ExpressionType, String)>) -> Seq<char>
    decreases s.len(),
{
    if s.len() == 0 {
        Seq::empty()
    } else if s.len() == 1 {
        field_text(s[0])
    } else {
        fields_text(s.drop_last()) + ", "@ + field_text(s.last())
    }
}

/// How many float literals a function holds.
pub open spec fn function_floats(f: &Function) -> nat {
    match &f.body {
        Some(b) => stmts_floats(b@),
        None => 0,
    }
}

/// The text of a function: `T (params) { body }`, or `T (params);` when it
/// is only declared.
pub open spec fn function_text(f: &Function, fl: Seq<Seq<char>>) -> Seq<char> {
    type_text(f.return_type@) + " ("@ + fields_text(f.params@) + ")"@ + match &f.body {
        Some(b) => " { "@ + stmts_text(b@, fl) + " }"@,
        None => ";"@,
    }
}

/// The text of a struct: `{ T a, U b }`.
pub open spec fn struct_text(s: &Struct) -> Seq<char> {
    "{ "@ + fields_text(s.0@) + " }"@
}

/// How many float literals a top-level definition holds.
pub open spec fn global_floats(g: &GlobalValue) -> nat {
    match g {
        GlobalValue::Function(f) => function_floats(f),
        GlobalValue::Struct(_) => 0,
    }
}

/// The text of a top-level definition: `fn ...` or `struct ...`.
pub open spec fn global_text(g: &GlobalValue, fl: Seq<Seq<char>>) -> Seq<char> {
    match g {
        GlobalValue::Function(f) => "fn "@ + function_text(f, fl),
        GlobalValue::Struct(s) => "struct "@ + struct_text(s),
    }
}

/// The texts of typed names, separated by `, `.
fn fields_debug(v: &Vec<(ExpressionType, String)>) -> (r: String)
    ensures
        r@ == fields_text(v@),
{
    let mut out = String::new();
    let mut i: usize = 0;
    assert(v@.take(0) =~= Seq::<(ExpressionType, String)>::empty());
    while i < v.len()
        invariant
            i <= v.len(),
            out@ == fields_text(v@.take(i as int)),
        decreases v.len() - i,
    {
        let t = v[i].0.to_string();
        let ghost before = out@;
        if i > 0 {
            out.append(", ");
        }
        out.append(t.as_str());
        out.append(" ");
        out.append(v[i].1.as_str());
        proof {
            let s = v@.take(i + 1);
            assert(s.drop_last() =~= v@.take(i as int));
            assert(s.last() == v@[i as int]);
            if i == 0 {
                assert(s[0] == v@[0]);
                assert(out@ =~= field_text(v@[0]));
            } else {
                assert(out@ =~= before + ", "@ + field_text(v@[i as int]));
            }
        }
        i = i + 1;
    }
    assert(v@.take(i as int) =~= v@);
    out
}

/// The texts of a list of statements, separated by spaces.
fn stmts_debug<F: FloatBits>(v: &Vec<Statement>, floats: &F) -> (r: String)
    ensures
        exists|fl: Seq<Seq<char>>| fl.len() == stmts_floats(v@) && r@ == #[trigger] stmts_text(v@, fl),
    decreases v@, 1nat,
{
    let mut out = String::new();
    let mut i: usize = 0;
    let ghost mut fl: Seq<Seq<char>> = Seq::empty();
    assert(v@.take(0) =~= Seq::<Statement>::empty());
    while i < v.len()
        invariant
            i <= v.len(),
            fl.len() == stmts_floats(v@.take(i as int)),
            out@ == stmts_text(v@.take(i as int), fl),
        decreases v.len() - i,
    {
        proof {
            assert(decreases_to!(v@ => v@[i as int]));
        }
        let a = v[i].debug_text(floats);
        let ghost f = choose|f: Seq<Seq<char>>| f.len() == stmt_floats(&v@[i as int]) && a@ == #[trigger] stmt_text(&v@[i as int], f);
        proof {
            lemma_stmts_step(v@, i as int, fl, f);
        }
        let ghost before = out@;
        if i > 0 {
            out.append(" ");
        }
        out.append(a.as_str());
        proof {
            if i == 0 {
                assert(out@ =~= a@);
            } else {
                assert(out@ =~= before + " "@ + a@);
            }
            fl = fl + f;
        }
        i = i + 1;
    }
    assert(v@.take(i as int) =~= v@);
    out
}

impl Statement {
    /// The statement's debugging text: each statement with its keyword and
    /// its `;`, blocks as `{ a b }`, an `if` with its else branch as an
    /// `Option`. Float literals are printed by `floats`.
    pub fn debug_text<F: FloatBits>(&self, floats: &F) -> (r: String)
        ensures
            exists|fl: Seq<Seq<char>>| fl.len() == stmt_floats(self) && r@ == #[trigger] stmt_text(self, fl),
        decreases self, 0nat,
    {
        match self {
            Statement::DefAssign(d) => {
                let inner = d.debug_text(floats);
                let ghost f = choose|f: Seq<Seq<char>>| f.len() == def_floats(d) && inner@ == #[trigger] def_text(d, f);
                let mut out = owned("def ");
                out.append(inner.as_str());
                out.append(";");
                assert(out@ =~= stmt_text(self, f));
                out
            },
            Statement::SetAssign(x) => {
                let inner = x.debug_text(floats);
                let ghost f = choose|f: Seq<Seq<char>>| f.len() == expr_floats(&x.var_dest) + expr_floats(&x.var_src) && inner@ == #[trigger] set_text(x, f);
                let mut out = owned("set ");
                out.append(inner.as_str());
                out.append(";");
                assert(out@ =~= stmt_text(self, f));
                out
            },
            Statement::Return(r) => match r {
                Some(e) => {
                    let inner = e.debug_text(floats);
                    let ghost f = choose|f: Seq<Seq<char>>| f.len() == expr_floats(e) && inner@ == #[trigger] expr_text(e, f);
                    let mut out = owned("return ");
                    out.append(inner.as_str());
                    out.append(";");
                    assert(out@ =~= stmt_text(self, f));
                    out
                },
                None => {
                    let out = owned("return;");
                    assert(out@ =~= stmt_text(self, Seq::empty()));
                    out
                },
            },
            Statement::Expr(e) => {
                let inner = e.debug_text(floats);
                let ghost f = choose|f: Seq<Seq<char>>| f.len() == expr_floats(e) && inner@ == #[trigger] expr_text(e, f);
                let mut out = inner;
                out.append(";");
                assert(out@ =~= stmt_text(self, f));
                out
            },
            Statement::Block(v) => {
                proof {
                    assert(decreases_to!(*self => self->Block_0));
                    assert(decreases_to!(self->Block_0 => v@));
                }
                let inner = stmts_debug(v, floats);
                let ghost f = choose|f: Seq<Seq<char>>| f.len() == stmts_floats(v@) && inner@ == #[trigger] stmts_text(v@, f);
                let mut out = owned("{ ");
                out.append(inner.as_str());
                out.append(" }");
                assert(out@ =~= stmt_text(self, f));
                out
            },
            Statement::If(b) => {
                let c = b.0.debug_text(floats);
                let ghost f0 = choose|f: Seq<Seq<char>>| f.len() == expr_floats(&b.0) && c@ == #[trigger] expr_text(&b.0, f);
                let t = b.1.debug_text(floats);
                let ghost f1 = choose|f: Seq<Seq<char>>| f.len() == stmt_floats(&b.1) && t@ == #[trigger] stmt_text(&b.1, f);
                let mut out = owned("if (");
                out.append(c.as_str());
                out.append(") ");
                out.append(t.as_str());
                out.append(" else ");
                let ghost mut f2: Seq<Seq<char>> = Seq::empty();
                match &b.2 {
                    Some(e) => {
                        let x = e.debug_text(floats);
                        proof {
                            f2 = choose|f: Seq<Seq<char>>| f.len() == stmt_floats(e) && x@ == #[trigger] stmt_text(e, f);
                        }
                        out.append("Some(");
                        out.append(x.as_str());
                        out.append(")");
                    },
                    None => {
                        out.append("None");
                    },
                }
                proof {
                    let all = f0 + f1 + f2;
                    assert(all.take(f0.len() as int) =~= f0);
                    assert(all.skip(f0.len() as int).take(f1.len() as int) =~= f1);
                    assert(all.skip((f0.len() + f1.len()) as int) =~= f2);
                    assert(out@ =~= stmt_text(self, all));
                }
                out
            },
            Statement::While(b) => {
                let c = b.0.debug_text(floats);
                let ghost f0 = choose|f: Seq<Seq<char>>| f.len() == expr_floats(&b.0) && c@ == #[trigger] expr_text(&b.0, f);
                let t = b.1.debug_text(floats);
                let ghost f1 = choose|f: Seq<Seq<char>>| f.len() == stmt_floats(&b.1) && t@ == #[trigger] stmt_text(&b.1, f);
                let mut out = owned("while (");
                out.append(c.as_str());
                out.append(") ");
                out.append(t.as_str());
                proof {
                    let all = f0 + f1;
                    assert(all.take(f0.len() as int) =~= f0);
                    assert(all.skip(f0.len() as int) =~= f1);
                    assert(out@ =~= stmt_text(self, all));
                }
                out
            },
            Statement::For(fs) => {
                let a = fs.init.debug_text(floats);
                let ghost f0 = choose|f: Seq<Seq<char>>| f.len() == stmt_floats(&fs.init) && a@ == #[trigger] stmt_text(&fs.init, f);
                let c = fs.cond.debug_text(floats);
                let ghost f1 = choose|f: Seq<Seq<char>>| f.len() == expr_floats(&fs.cond) && c@ == #[trigger] expr_text(&fs.cond, f);
                let n = fs.inc.debug_text(floats);
                let ghost f2 = choose|f: Seq<Seq<char>>| f.len() == stmt_floats(&fs.inc) && n@ == #[trigger] stmt_text(&fs.inc, f);
                let bd = fs.body.debug_text(floats);
                let ghost f3 = choose|f: Seq<Seq<char>>| f.len() == stmt_floats(&fs.body) && bd@ == #[trigger] stmt_text(&fs.body, f);
                let mut out = owned("for (");
                out.append(a.as_str());
                out.append("; ");
                out.append(c.as_str());
                out.append("; ");
                out.append(n.as_str());
                out.append(") ");
                out.append(bd.as_str());
                proof {
                    let all = f0 + f1 + f2 + f3;
                    assert(all.take(f0.len() as int) =~= f0);
                    assert(all.skip(f0.len() as int).take(f1.len() as int) =~= f1);
                    assert(all.skip((f0.len() + f1.len()) as int).take(f2.len() as int) =~= f2);
                    assert(all.skip((f0.len() + f1.len() + f2.len()) as int) =~= f3);
                    assert(out@ =~= stmt_text(self, all));
                }
                out
            },
            Statement::Breakpoint => {
                let out = owned("breakpoint;");
                assert(out@ =~= stmt_text(self, Seq::empty()));
                out
            },
        }
    }
}

impl DefAssignment {
    /// The definition's debugging text (see `def_text`).
    pub fn debug_text<F: FloatBits>(&self, floats: &F) -> (r: String)
        ensures
            exists|fl: Seq<Seq<char>>| fl.len() == def_floats(self) && r@ == #[trigger] def_text(self, fl),
    {
        let ty = self.var_type.to_string();
        let name = debug_str(self.var_name.as_str());
        let mut out = ty;
        out.append(" ");
        out.append(name.as_str());
        match &self.var_value {
            Some(x) => {
                let v = x.debug_text(floats);
                let ghost f = choose|f: Seq<Seq<char>>| f.len() == expr_floats(x) && v@ == #[trigger] expr_text(x, f);
                out.append(" = ");
                out.append(v.as_str());
                assert(out@ =~= def_text(self, f));
                out
            },
            None => {
                out.append(";");
                assert(out@ =~= def_text(self, Seq::empty()));
                out
            },
        }
    }
}

impl SetAssignment {
    /// The assignment's debugging text (see `set_text`).
    pub fn debug_text<F: FloatBits>(&self, floats: &F) -> (r: String)
        ensures
            exists|fl: Seq<Seq<char>>| fl.len() == expr_floats(&self.var_dest) + expr_floats(&self.var_src) && r@
                == #[trigger] set_text(self, fl),
    {
        let d = self.var_dest.debug_text(floats);
        let ghost f0 = choose|f: Seq<Seq<char>>| f.len() == expr_floats(&self.var_dest) && d@ == #[trigger] expr_text(&self.var_dest, f);
        let s = self.var_src.debug_text(floats);
        let ghost f1 = choose|f: Seq<Seq<char>>| f.len() == expr_floats(&self.var_src) && s@ == #[trigger] expr_text(&self.var_src, f);
        let mut out = String::new();
        if self.deref {
            out.append("*");
        }
        out.append(d.as_str());
        out.append(" = ");
        out.append(s.as_str());
        proof {
            let all = f0 + f1;
            assert(all.take(f0.len() as int) =~= f0);
            assert(all.skip(f0.len() as int) =~= f1);
            assert(out@ =~= set_text(self, all));
        }
        out
    }
}

impl Function {
    /// The function's debugging text (see `function_text`).
    pub fn debug_text<F: FloatBits>(&self, floats: &F) -> (r: String)
        ensures
            exists|fl: Seq<Seq<char>>| fl.len() == function_floats(self) && r@ == #[trigger] function_text(self, fl),
    {
        let mut out = self.return_type.to_string();
        out.append(" (");
        let ps = fields_debug(&self.params);
        out.append(ps.as_str());
        out.append(")");
        match &self.body {
            Some(b) => {
                let inner = stmts_debug(b, floats);
                let ghost f = choose|f: Seq<Seq<char>>| f.len() == stmts_floats(b@) && inner@ == #[trigger] stmts_text(b@, f);
                out.append(" { ");
                out.append(inner.as_str());
                out.append(" }");
                assert(out@ =~= function_text(self, f));
                out
            },
            None => {
                out.append(";");
                assert(out@ =~= function_text(self, Seq::empty()));
                out
            },
        }
    }
}

impl Struct {
    /// The struct's debugging text (see `struct_text`).
    pub fn debug_text(&self) -> (r: String)
        ensures
            r@ == struct_text(self),
    {
        let mut out = owned("{ ");
        let fs = fields_debug(&self.0);
        out.append(fs.as_str());
        out.append(" }");
        out
    }
}

impl GlobalValue {
    /// The definition's debugging text (see `global_text`).
    pub fn debug_text<F: FloatBits>(&self, floats: &F) -> (r: String)
        ensures
            exists|fl: Seq<Seq<char>>| fl.len() == global_floats(self) && r@ == #[trigger] global_text(self, fl),
    {
        match self {
            GlobalValue::Function(f) => {
                let inner = f.debug_text(floats);
                let ghost fl = choose|x: Seq<Seq<char>>| x.len() == function_floats(f) && inner@ == #[trigger] function_text(f, x);
                let mut out = owned("fn ");
                out.append(inner.as_str());
                assert(out@ =~= global_text(self, fl));
                out
            },
            GlobalValue::Struct(s) => {
                let inner = s.debug_text();
                let mut out = owned("struct ");
                out.append(inner.as_str());
                assert(out@ =~= global_text(self, Seq::empty()));
                out
            },
        }
    }
}

} // verus!
