//! What the compiler's tables mean, stated apart from the tables: the
//! relation each comparison tests, the order in which operators bind, the
//! type a literal's suffix names, when a loop or an `if` leaves, and where
//! the arguments of a C call go.
use vstd::prelude::*;

use crate::ast::{Number, NumberType};
use crate::expr::{and_or_text, c_arg_reg, operator_text, ord_suffix, ord_text};
use crate::nasm::{is_signed, label, line, local_name, num_size, op_bitshift_text, op_implied_text, op_text, RegisterSize};
use crate::parse::precedence;
use crate::statement::{for_code, if_code, while_code};
use crate::tokenize::{is_digit_byte, is_pair, num_text, number_outcome, NumText, Token};

verus! {

/// What the condition code `cc` (of `set<cc>` or `j<cc>`) tests after
/// `cmp x, y` on registers holding the signed values `a` and `b`.
pub open spec fn cc_holds(cc: Seq<char>, a: int, b: int) -> bool {
    if cc == seq!['e'] {
        a == b
    } else if cc == seq!['n', 'e'] {
        a != b
    } else if cc == seq!['g'] {
        a > b
    } else if cc == seq!['g', 'e'] {
        a >= b
    } else if cc == seq!['l'] {
        a < b
    } else if cc == seq!['l', 'e'] {
        a <= b
    } else {
        false
    }
}

/// The comparison operators of the language.
pub open spec fn is_comparison(op: Seq<char>) -> bool {
    op == seq!['=', '='] || op == seq!['!', '='] || op == seq!['<'] || op == seq!['<', '='] || op == seq!['>'] || op
        == seq!['>', '=']
}

/// The relation the comparison operator `op` states between its operands.
pub open spec fn relation(op: Seq<char>, a: int, b: int) -> bool {
    if op == seq!['=', '='] {
        a == b
    } else if op == seq!['!', '='] {
        a != b
    } else if op == seq!['<'] {
        a < b
    } else if op == seq!['<', '='] {
        a <= b
    } else if op == seq!['>'] {
        a > b
    } else {
        a >= b
    }
}

/// The characters of the operator and condition-code literals.
proof fn lemma_operator_literals()
    ensures
        "=="@ == seq!['=', '='],
        "=="@.len() == 2 && "=="@[0] == '=' && "=="@[1] == '=',
        "!="@ == seq!['!', '='],
        "!="@.len() == 2 && "!="@[0] == '!' && "!="@[1] == '=',
        "<"@ == seq!['<'],
        "<"@.len() == 1 && "<"@[0] == '<',
        "<="@ == seq!['<', '='],
        "<="@.len() == 2 && "<="@[0] == '<' && "<="@[1] == '=',
        ">"@ == seq!['>'],
        ">"@.len() == 1 && ">"@[0] == '>',
        ">="@ == seq!['>', '='],
        ">="@.len() == 2 && ">="@[0] == '>' && ">="@[1] == '=',
        "e"@ == seq!['e'],
        "e"@.len() == 1 && "e"@[0] == 'e',
        "ne"@ == seq!['n', 'e'],
        "ne"@.len() == 2 && "ne"@[0] == 'n' && "ne"@[1] == 'e',
        "g"@ == seq!['g'],
        "g"@.len() == 1 && "g"@[0] == 'g',
        "ge"@ == seq!['g', 'e'],
        "ge"@.len() == 2 && "ge"@[0] == 'g' && "ge"@[1] == 'e',
        "l"@ == seq!['l'],
        "l"@.len() == 1 && "l"@[0] == 'l',
        "le"@ == seq!['l', 'e'],
        "le"@.len() == 2 && "le"@[0] == 'l' && "le"@[1] == 'e',
        "&&"@ == seq!['&', '&'],
        "&&"@.len() == 2 && "&&"@[0] == '&' && "&&"@[1] == '&',
        "||"@ == seq!['|', '|'],
        "||"@.len() == 2 && "||"@[0] == '|' && "||"@[1] == '|',
        "and"@ == seq!['a', 'n', 'd'],
        "and"@.len() == 3 && "and"@[0] == 'a' && "and"@[1] == 'n' && "and"@[2] == 'd',
        "or"@ == seq!['o', 'r'],
        "or"@.len() == 2 && "or"@[0] == 'o' && "or"@[1] == 'r',
        "+"@ == seq!['+'],
        "+"@.len() == 1 && "+"@[0] == '+',
        "-"@ == seq!['-'],
        "-"@.len() == 1 && "-"@[0] == '-',
        "*"@ == seq!['*'],
        "*"@.len() == 1 && "*"@[0] == '*',
        "/"@ == seq!['/'],
        "/"@.len() == 1 && "/"@[0] == '/',
        "%"@ == seq!['%'],
        "%"@.len() == 1 && "%"@[0] == '%',
        "&"@ == seq!['&'],
        "&"@.len() == 1 && "&"@[0] == '&',
        "|"@ == seq!['|'],
        "|"@.len() == 1 && "|"@[0] == '|',
        "^"@ == seq!['^'],
        "^"@.len() == 1 && "^"@[0] == '^',
        "<<"@ == seq!['<', '<'],
        "<<"@.len() == 2 && "<<"@[0] == '<' && "<<"@[1] == '<',
        ">>"@ == seq!['>', '>'],
        ">>"@.len() == 2 && ">>"@[0] == '>' && ">>"@[1] == '>',
{
    reveal_strlit("==");
    assert("=="@ =~= seq!['=', '=']);
    reveal_strlit("!=");
    assert("!="@ =~= seq!['!', '=']);
    reveal_strlit("<");
    assert("<"@ =~= seq!['<']);
    reveal_strlit("<=");
    assert("<="@ =~= seq!['<', '=']);
    reveal_strlit(">");
    assert(">"@ =~= seq!['>']);
    reveal_strlit(">=");
    assert(">="@ =~= seq!['>', '=']);
    reveal_strlit("e");
    assert("e"@ =~= seq!['e']);
    reveal_strlit("ne");
    assert("ne"@ =~= seq!['n', 'e']);
    reveal_strlit("g");
    assert("g"@ =~= seq!['g']);
    reveal_strlit("ge");
    assert("ge"@ =~= seq!['g', 'e']);
    reveal_strlit("l");
    assert("l"@ =~= seq!['l']);
    reveal_strlit("le");
    assert("le"@ =~= seq!['l', 'e']);
    reveal_strlit("&&");
    assert("&&"@ =~= seq!['&', '&']);
    reveal_strlit("||");
    assert("||"@ =~= seq!['|', '|']);
    reveal_strlit("and");
    assert("and"@ =~= seq!['a', 'n', 'd']);
    reveal_strlit("or");
    assert("or"@ =~= seq!['o', 'r']);
    reveal_strlit("+");
    assert("+"@ =~= seq!['+']);
    reveal_strlit("-");
    assert("-"@ =~= seq!['-']);
    reveal_strlit("*");
    assert("*"@ =~= seq!['*']);
    reveal_strlit("/");
    assert("/"@ =~= seq!['/']);
    reveal_strlit("%");
    assert("%"@ =~= seq!['%']);
    reveal_strlit("&");
    assert("&"@ =~= seq!['&']);
    reveal_strlit("|");
    assert("|"@ =~= seq!['|']);
    reveal_strlit("^");
    assert("^"@ =~= seq!['^']);
    reveal_strlit("<<");
    assert("<<"@ =~= seq!['<', '<']);
    reveal_strlit(">>");
    assert(">>"@ =~= seq!['>', '>']);
}

/// Each comparison sets its byte by the condition code of its own relation:
/// after `cmp` of the left operand with the right one, the code holds
/// exactly when the operator's relation holds between them (`==` sets when
/// they are equal, `!=` when they differ, and so on).
pub proof fn law_comparison_tests_its_relation(op: Seq<char>, a: int, b: int)
    requires
        is_comparison(op),
    ensures
        cc_holds(ord_suffix(op), a, b) == relation(op, a, b),
{
    lemma_operator_literals();
}

/// The code of a comparison loads the left operand and the right one,
/// compares them, and sets the result byte by a condition code that holds
/// exactly when the operator's relation holds between the operands.
pub proof fn law_comparison_code(
    op: Seq<char>,
    lt: NumberType,
    li: (u16, Seq<u16>),
    rt: NumberType,
    ri: (u16, Seq<u16>),
    sp: u16,
)
    requires
        is_comparison(op),
    ensures
        exists|cc: Seq<char>|
            operator_text(op, lt, li, rt, ri, sp) == ord_text(lt, li, rt, ri, sp, cc) && forall|a: int, b: int|
                #[trigger] cc_holds(cc, a, b) == relation(op, a, b),
{
    lemma_operator_literals();
    reveal(operator_text);
    let cc = ord_suffix(op);
    assert forall|a: int, b: int| #[trigger] cc_holds(cc, a, b) == relation(op, a, b) by {
        law_comparison_tests_its_relation(op, a, b);
    }
    assert(operator_text(op, lt, li, rt, ri, sp) == ord_text(lt, li, rt, ri, sp, cc));
}

/// The boolean the instruction `instr` computes from two booleans held as
/// bytes that are 0 or 1.
pub open spec fn bool_instr(instr: Seq<char>, p: bool, q: bool) -> bool {
    if instr == seq!['a', 'n', 'd'] {
        p && q
    } else if instr == seq!['o', 'r'] {
        p || q
    } else if instr == seq!['x', 'o', 'r'] {
        p != q
    } else {
        false
    }
}

/// `&&` and `||` turn each operand into a truth value and combine the two by
/// an instruction that computes, respectively, their conjunction and their
/// disjunction.
pub proof fn law_logical_operators(
    lt: NumberType,
    li: (u16, Seq<u16>),
    rt: NumberType,
    ri: (u16, Seq<u16>),
    sp: u16,
)
    ensures
        exists|instr: Seq<char>|
            operator_text("&&"@, lt, li, rt, ri, sp) == and_or_text(lt, li, rt, ri, sp, instr) && forall|p: bool, q: bool|
                #[trigger] bool_instr(instr, p, q) == (p && q),
        exists|instr: Seq<char>|
            operator_text("||"@, lt, li, rt, ri, sp) == and_or_text(lt, li, rt, ri, sp, instr) && forall|p: bool, q: bool|
                #[trigger] bool_instr(instr, p, q) == (p || q),
{
    lemma_operator_literals();
    reveal(operator_text);
    assert(operator_text("&&"@, lt, li, rt, ri, sp) == and_or_text(lt, li, rt, ri, sp, "and"@));
    assert(operator_text("||"@, lt, li, rt, ri, sp) == and_or_text(lt, li, rt, ri, sp, "or"@));
    assert forall|p: bool, q: bool| #[trigger] bool_instr("and"@, p, q) == (p && q) by {}
    assert forall|p: bool, q: bool| #[trigger] bool_instr("or"@, p, q) == (p || q) by {}
}

/// The registers that carry the first six integer arguments of a C call, in
/// the System V order, at each width: `rdi`, `rsi`, `rdx`, `rcx`, `r8`, `r9`.
pub open spec fn sysv_argument_registers(size: RegisterSize) -> Seq<Seq<char>> {
    match size {
        RegisterSize::S64 => seq!["rdi"@, "rsi"@, "rdx"@, "rcx"@, "r8"@, "r9"@],
        RegisterSize::S32 => seq!["edi"@, "esi"@, "edx"@, "ecx"@, "r8d"@, "r9d"@],
        RegisterSize::S16 => seq!["di"@, "si"@, "dx"@, "cx"@, "r8w"@, "r9w"@],
        RegisterSize::S8 => seq!["dil"@, "sil"@, "dl"@, "cl"@, "r8b"@, "r9b"@],
    }
}

/// Argument `i < 6` of a C call goes into the `i`-th System V argument
/// register, at the width of its type.
pub proof fn law_c_arguments_in_system_v_order(i: int, size: RegisterSize)
    requires
        0 <= i < 6,
    ensures
        c_arg_reg(i, size) == sysv_argument_registers(size)[i],
{
}

/// How tightly an operator token binds, by its kind alone: `+ -`, then
/// `* / %`, then the bitwise operators and the shifts, then `&& ||`, then the
/// comparisons, each kind binding tighter than the one before; 0 for a token
/// that is no binary operator.
pub open spec fn binding_rank(t: Option<Token>) -> int {
    match t {
        Some(Token::Operand(c)) => if c == '+' || c == '-' {
            1
        } else if c == '*' || c == '/' || c == '%' {
            2
        } else if c == '&' || c == '|' || c == '^' {
            3
        } else if c == '<' || c == '>' {
            5
        } else {
            0
        },
        Some(Token::Operand2(a, b)) => if (a == '<' && b == '<') || (a == '>' && b == '>') {
            3
        } else if (a == '&' && b == '&') || (a == '|' && b == '|') {
            4
        } else if b == '=' && (a == '<' || a == '>' || a == '=' || a == '!') {
            5
        } else {
            0
        },
        _ => 0,
    }
}

/// The precedence the parser gives a token, 0 for one that is no operator.
pub open spec fn prec_of(t: Option<Token>) -> int {
    match precedence(t) {
        Some((_, p)) => p as int,
        None => 0,
    }
}

/// The characters of an operator token.
pub open spec fn token_text(t: Option<Token>) -> Seq<char> {
    match t {
        Some(Token::Operand(c)) => seq![c],
        Some(Token::Operand2(a, b)) => seq![a, b],
        _ => Seq::empty(),
    }
}

/// The parser reads a binary operator exactly where a token is one, names
/// it by the token's own characters, and binds it by its kind: of two
/// operators the one of the tighter kind has the higher precedence, and
/// operators of one kind share one. So `&&` and `||` bind looser than every
/// comparison, and `a < b && c < d` groups as `(a < b) && (c < d)`.
pub proof fn law_operator_precedence(t1: Option<Token>, t2: Option<Token>)
    ensures
        precedence(t1) is Some <==> binding_rank(t1) > 0,
        precedence(t1) matches Some((name, _)) ==> name == token_text(t1),
        precedence(t1) is Some && precedence(t2) is Some ==> ((prec_of(t1) < prec_of(t2)) <==> (
        binding_rank(t1) < binding_rank(t2))),
        precedence(t1) is Some && precedence(t2) is Some ==> ((prec_of(t1) == prec_of(t2)) <==> (
        binding_rank(t1) == binding_rank(t2))),
{
    lemma_operator_literals();
    match t1 {
        Some(Token::Operand(c)) => {
            assert(seq![c] =~= seq![c]);
        },
        Some(Token::Operand2(a, b)) => {},
        _ => {},
    }
}

/// The bytes of a number type's name, as a literal's suffix writes them.
pub open spec fn suffix_bytes(t: NumberType) -> Seq<u8> {
    t.spec_name().map_values(|c: char| c as u8)
}

/// Every byte is a decimal digit.
pub open spec fn all_digits(d: Seq<u8>) -> bool {
    forall|i: int| 0 <= i < d.len() ==> is_digit_byte(#[trigger] d[i])
}

/// The bytes of the suffixes.
proof fn lemma_suffix_bytes(t: NumberType)
    ensures
        suffix_bytes(t) == match t {
            NumberType::I8 => seq![105u8, 56u8],
            NumberType::I16 => seq![105u8, 49u8, 54u8],
            NumberType::I32 => seq![105u8, 51u8, 50u8],
            NumberType::I64 => seq![105u8, 54u8, 52u8],
            NumberType::U8 => seq![117u8, 56u8],
            NumberType::U16 => seq![117u8, 49u8, 54u8],
            NumberType::U32 => seq![117u8, 51u8, 50u8],
            NumberType::U64 => seq![117u8, 54u8, 52u8],
            NumberType::F32 => seq![102u8, 51u8, 50u8],
            NumberType::F64 => seq![102u8, 54u8, 52u8],
        },
{
    reveal_strlit("i8");
    reveal_strlit("i16");
    reveal_strlit("i32");
    reveal_strlit("i64");
    reveal_strlit("u8");
    reveal_strlit("u16");
    reveal_strlit("u32");
    reveal_strlit("u64");
    reveal_strlit("f32");
    reveal_strlit("f64");
    let n = t.spec_name();
    assert(n =~= match t {
        NumberType::I8 => seq!['i', '8'],
        NumberType::I16 => seq!['i', '1', '6'],
        NumberType::I32 => seq!['i', '3', '2'],
        NumberType::I64 => seq!['i', '6', '4'],
        NumberType::U8 => seq!['u', '8'],
        NumberType::U16 => seq!['u', '1', '6'],
        NumberType::U32 => seq!['u', '3', '2'],
        NumberType::U64 => seq!['u', '6', '4'],
        NumberType::F32 => seq!['f', '3', '2'],
        NumberType::F64 => seq!['f', '6', '4'],
    });
    assert(suffix_bytes(t) =~= match t {
        NumberType::I8 => seq![105u8, 56u8],
        NumberType::I16 => seq![105u8, 49u8, 54u8],
        NumberType::I32 => seq![105u8, 51u8, 50u8],
        NumberType::I64 => seq![105u8, 54u8, 52u8],
        NumberType::U8 => seq![117u8, 56u8],
        NumberType::U16 => seq![117u8, 49u8, 54u8],
        NumberType::U32 => seq![117u8, 51u8, 50u8],
        NumberType::U64 => seq![117u8, 54u8, 52u8],
        NumberType::F32 => seq![102u8, 51u8, 50u8],
        NumberType::F64 => seq![102u8, 54u8, 52u8],
    });
}

/// A literal's type suffix names its type: digits followed by the name of
/// a number type read as a literal of that type, the digits being its
/// text; and a literal read from such text without error has that type.
pub proof fn law_suffix_names_the_type(t: NumberType, d: Seq<u8>, n: Number)
    requires
        d.len() >= 1,
        all_digits(d),
    ensures
        num_text(d + suffix_bytes(t)) == if t.is_float() {
            NumText::Float(t, d)
        } else {
            NumText::Int(t, d)
        },
        number_outcome(d + suffix_bytes(t), Ok(n)) ==> n.spec_numtype() == t,
{
    lemma_suffix_bytes(t);
    let sb = suffix_bytes(t);
    let x = d + sb;
    let k = x.len() as int;
    assert(is_digit_byte(d[d.len() - 1]));
    assert(x[d.len() - 1] == d[d.len() - 1]);
    assert forall|i: int| 0 <= i < x.len() implies #[trigger] x[i] != 46 by {
        if i < d.len() {
            assert(x[i] == d[i]);
            assert(is_digit_byte(d[i]));
        }
    }
    assert(!crate::tokenize::has_dot(x));
    assert(x.take(k - sb.len()) =~= d);
    assert(x[k - 1] == sb[sb.len() - 1]);
    assert(x[k - 2] == sb[sb.len() - 2]);
    if sb.len() == 3 {
        assert(x[k - 3] == sb[0]);
    } else {
        assert(x[k - 3] == d[d.len() - 1]);
    }
}

/// Digits with no suffix read as an `i32` literal.
pub proof fn law_plain_digits_are_i32(d: Seq<u8>)
    requires
        d.len() >= 1,
        all_digits(d),
    ensures
        num_text(d) == NumText::Int(NumberType::I32, d),
{
    assert forall|i: int| 0 <= i < d.len() implies #[trigger] d[i] != 46 by {
        assert(is_digit_byte(d[i]));
    }
    let k = d.len() as int;
    assert(is_digit_byte(d[k - 1]));
    if k >= 2 {
        assert(is_digit_byte(d[k - 2]));
    }
    if k >= 3 {
        assert(is_digit_byte(d[k - 3]));
    }
}

/// The text of a loop whose labels are `top` and `exit`: the loop label,
/// the condition's code `c` and its test against zero, a jump out by the
/// condition code `cc`, the body `b`, a jump back, and the exit label.
pub open spec fn loop_text(c: Seq<char>, b: Seq<char>, top: Seq<char>, exit: Seq<char>, cc: Seq<char>) -> Seq<char> {
    label(top) + c + line("cmp rbx, 0"@) + line("j"@ + cc + " "@ + exit) + b + line("jmp "@ + top) + label(exit)
}

proof fn lemma_je(x: Seq<char>)
    ensures
        "je "@ + x == "j"@ + seq!['e'] + " "@ + x,
{
    reveal_strlit("je ");
    reveal_strlit("j");
    reveal_strlit(" ");
    assert("je "@ =~= "j"@ + seq!['e'] + " "@);
}

/// A condition code that holds, after the condition is compared with zero,
/// exactly when the condition is zero.
pub open spec fn leaves_on_zero(cc: Seq<char>) -> bool {
    forall|x: int| #[trigger] cc_holds(cc, x, 0) <==> x == 0
}

/// A `while` loop is the loop text around its condition and its body, and
/// it leaves exactly when the condition is zero.
pub proof fn law_while_leaves_when_the_condition_is_zero(w0: Seq<char>, c: Seq<char>, b: Seq<char>, w1: Seq<char>, u: usize)
    requires
        while_code(w0, c, b, w1, u),
    ensures
        w0.is_prefix_of(w1),
        exists|cc: Seq<char>, top: Seq<char>, exit: Seq<char>|
            #[trigger] loop_text(c, b, top, exit, cc) == w1.skip(w0.len() as int) && leaves_on_zero(cc),
{
    let cc = seq!['e'];
    assert forall|x: int| #[trigger] cc_holds(cc, x, 0) <==> x == 0 by {}
    let top = local_name("while_body"@, u as nat);
    let exit = local_name("while_return"@, u as nat);
    lemma_je(exit);
    let t = loop_text(c, b, top, exit, cc);
    assert(w1 =~= w0 + t);
    assert(w1.skip(w0.len() as int) =~= t);
}

/// A `for` loop leaves as a `while` loop does: it is its initial statement
/// followed by the same loop text, around its condition and its body
/// followed by its step, and it leaves exactly when the condition is zero.
pub proof fn law_for_leaves_as_while_does(
    w0: Seq<char>,
    i: Seq<char>,
    c: Seq<char>,
    b: Seq<char>,
    k: Seq<char>,
    w1: Seq<char>,
    u: usize,
)
    requires
        for_code(w0, i, c, b, k, w1, u),
    ensures
        (w0 + i).is_prefix_of(w1),
        exists|cc: Seq<char>, top: Seq<char>, exit: Seq<char>|
            #[trigger] loop_text(c, b + k, top, exit, cc) == w1.skip((w0 + i).len() as int) && leaves_on_zero(cc),
{
    let cc = seq!['e'];
    assert forall|x: int| #[trigger] cc_holds(cc, x, 0) <==> x == 0 by {}
    let top = local_name("for_body"@, u as nat);
    let exit = local_name("for_return"@, u as nat);
    lemma_je(exit);
    let t = loop_text(c, b + k, top, exit, cc);
    assert(w1 =~= (w0 + i) + t);
    assert(w1.skip((w0 + i).len() as int) =~= t);
}

/// An `if` tests its condition and jumps to its other branch exactly when
/// the condition is zero.
pub proof fn law_if_skips_its_branch_when_the_condition_is_zero(
    w0: Seq<char>,
    c: Seq<char>,
    t: Seq<char>,
    f: Seq<char>,
    w1: Seq<char>,
    u: usize,
    has_else: bool,
)
    requires
        if_code(w0, c, t, f, w1, u, has_else),
    ensures
        w0.is_prefix_of(w1),
        exists|cc: Seq<char>, other: Seq<char>, rest: Seq<char>|
            #[trigger] (c + line("cmp rbx, 0"@) + line("j"@ + cc + " "@ + other) + rest) == w1.skip(w0.len() as int)
                && leaves_on_zero(cc),
{
    let cc = seq!['e'];
    assert forall|x: int| #[trigger] cc_holds(cc, x, 0) <==> x == 0 by {}
    let exit = local_name("if_return"@, u as nat);
    let other = local_name("if_false"@, u as nat);
    lemma_je(other);
    let rest = t + line("jmp "@ + exit) + label(other) + f + label(exit);
    let x = c + line("cmp rbx, 0"@) + line("j"@ + cc + " "@ + other) + rest;
    assert(w1 =~= w0 + x);
    assert(w1.skip(w0.len() as int) =~= x);
}

/// The characters of the instruction names.
proof fn lemma_mnemonic_literals()
    ensures
        "add"@ == seq!['a', 'd', 'd'],
        "addss"@ == seq!['a', 'd', 'd', 's', 's'],
        "addsd"@ == seq!['a', 'd', 'd', 's', 'd'],
        "sub"@ == seq!['s', 'u', 'b'],
        "subss"@ == seq!['s', 'u', 'b', 's', 's'],
        "subsd"@ == seq!['s', 'u', 'b', 's', 'd'],
        "imul"@ == seq!['i', 'm', 'u', 'l'],
        "mul"@ == seq!['m', 'u', 'l'],
        "idiv"@ == seq!['i', 'd', 'i', 'v'],
        "div"@ == seq!['d', 'i', 'v'],
        "xor"@ == seq!['x', 'o', 'r'],
        "shl"@ == seq!['s', 'h', 'l'],
        "shr"@ == seq!['s', 'h', 'r'],
{
    reveal_strlit("add");
    assert("add"@ =~= seq!['a', 'd', 'd']);
    reveal_strlit("addss");
    assert("addss"@ =~= seq!['a', 'd', 'd', 's', 's']);
    reveal_strlit("addsd");
    assert("addsd"@ =~= seq!['a', 'd', 'd', 's', 'd']);
    reveal_strlit("sub");
    assert("sub"@ =~= seq!['s', 'u', 'b']);
    reveal_strlit("subss");
    assert("subss"@ =~= seq!['s', 'u', 'b', 's', 's']);
    reveal_strlit("subsd");
    assert("subsd"@ =~= seq!['s', 'u', 'b', 's', 'd']);
    reveal_strlit("imul");
    assert("imul"@ =~= seq!['i', 'm', 'u', 'l']);
    reveal_strlit("mul");
    assert("mul"@ =~= seq!['m', 'u', 'l']);
    reveal_strlit("idiv");
    assert("idiv"@ =~= seq!['i', 'd', 'i', 'v']);
    reveal_strlit("div");
    assert("div"@ =~= seq!['d', 'i', 'v']);
    reveal_strlit("xor");
    assert("xor"@ =~= seq!['x', 'o', 'r']);
    reveal_strlit("shl");
    assert("shl"@ =~= seq!['s', 'h', 'l']);
    reveal_strlit("shr");
    assert("shr"@ =~= seq!['s', 'h', 'r']);
}

/// The operator of the language that the x86 instruction `m` computes
/// from two operands (in its integer form, or its `ss` (f32) and `sd` (f64)
/// float forms); empty for any other instruction.
pub open spec fn mnemonic_operator(m: Seq<char>) -> Seq<char> {
    if m == seq!['a', 'd', 'd'] || m == seq!['a', 'd', 'd', 's', 's'] || m == seq!['a', 'd', 'd', 's', 'd'] {
        seq!['+']
    } else if m == seq!['s', 'u', 'b'] || m == seq!['s', 'u', 'b', 's', 's'] || m == seq!['s', 'u', 'b', 's', 'd'] {
        seq!['-']
    } else if m == seq!['i', 'm', 'u', 'l'] || m == seq!['m', 'u', 'l'] {
        seq!['*']
    } else if m == seq!['i', 'd', 'i', 'v'] || m == seq!['d', 'i', 'v'] {
        seq!['/']
    } else if m == seq!['a', 'n', 'd'] {
        seq!['&']
    } else if m == seq!['o', 'r'] {
        seq!['|']
    } else if m == seq!['x', 'o', 'r'] {
        seq!['^']
    } else if m == seq!['s', 'h', 'l'] {
        seq!['<', '<']
    } else if m == seq!['s', 'h', 'r'] {
        seq!['>', '>']
    } else {
        Seq::empty()
    }
}

/// The instruction treats its operands as signed integers.
pub open spec fn mnemonic_signed(m: Seq<char>) -> bool {
    m == seq!['i', 'm', 'u', 'l'] || m == seq!['i', 'd', 'i', 'v']
}

/// The float type the instruction works on, if it is a float instruction.
pub open spec fn mnemonic_float(m: Seq<char>) -> Option<NumberType> {
    if m == seq!['a', 'd', 'd', 's', 's'] || m == seq!['s', 'u', 'b', 's', 's'] {
        Some(NumberType::F32)
    } else if m == seq!['a', 'd', 'd', 's', 'd'] || m == seq!['s', 'u', 'b', 's', 'd'] {
        Some(NumberType::F64)
    } else {
        None
    }
}

/// The float type of a number type, if it is one.
pub open spec fn float_of(t: NumberType) -> Option<NumberType> {
    if t == NumberType::F32 {
        Some(NumberType::F32)
    } else if t == NumberType::F64 {
        Some(NumberType::F64)
    } else {
        None
    }
}

/// The arithmetic, bitwise and shift operators.
pub open spec fn is_arithmetic(op: Seq<char>) -> bool {
    op == seq!['+'] || op == seq!['-'] || op == seq!['*'] || op == seq!['/'] || op == seq!['%'] || op == seq!['&'] || op
        == seq!['|'] || op == seq!['^'] || op == seq!['<', '<'] || op == seq!['>', '>']
}

/// Each arithmetic operator is compiled to the instruction that computes
/// it (`%` to the division, taking the remainder): `+` and `-` in the float
/// form of a float type; `*`, `/` and `%` signed exactly for a signed type;
/// the shifts with the shift count in `cl`.
#[verifier::rlimit(60)]
#[verifier::spinoff_prover]
pub proof fn law_arithmetic_instructions(
    op: Seq<char>,
    lt: NumberType,
    li: (u16, Seq<u16>),
    rt: NumberType,
    ri: (u16, Seq<u16>),
    sp: u16,
)
    requires
        is_arithmetic(op),
    ensures
        exists|m: Seq<char>|
            #![trigger mnemonic_operator(m)]
            mnemonic_operator(m) == (if op == seq!['%'] {
                seq!['/']
            } else {
                op
            }) && {
                let size = num_size(lt);
                let text = operator_text(op, lt, li, rt, ri, sp);
                &&& (op == seq!['+'] || op == seq!['-']) ==> text == op_text(m, size, li, ri, sp) && mnemonic_float(m)
                    == float_of(lt)
                &&& (op == seq!['*'] || op == seq!['/'] || op == seq!['%']) ==> text == op_implied_text(
                    m,
                    size,
                    li,
                    ri,
                    op == seq!['%'],
                    sp,
                ) && mnemonic_signed(m) == is_signed(lt)
                &&& (op == seq!['&'] || op == seq!['|'] || op == seq!['^']) ==> text == op_text(m, size, li, ri, sp)
                &&& (op == seq!['<', '<'] || op == seq!['>', '>']) ==> text == op_bitshift_text(m, size, li, ri, sp)
            },
{
    lemma_operator_literals();
    lemma_mnemonic_literals();
    reveal(operator_text);
    let size = num_size(lt);
    let text = operator_text(op, lt, li, rt, ri, sp);
    if op == seq!['+'] {
        let m = crate::nasm::pick_op(lt, "add"@, "addss"@, "addsd"@);
        assert(text == op_text(m, size, li, ri, sp));
        assert(mnemonic_operator(m) == op && mnemonic_float(m) == float_of(lt));
    } else if op == seq!['-'] {
        let m = crate::nasm::pick_op(lt, "sub"@, "subss"@, "subsd"@);
        assert(text == op_text(m, size, li, ri, sp));
        assert(mnemonic_operator(m) == op && mnemonic_float(m) == float_of(lt));
    } else if op == seq!['*'] {
        let m = if is_signed(lt) { "imul"@ } else { "mul"@ };
        assert(text == op_implied_text(m, size, li, ri, false, sp));
        assert(mnemonic_operator(m) == op && mnemonic_signed(m) == is_signed(lt));
    } else if op == seq!['/'] || op == seq!['%'] {
        let m = if is_signed(lt) { "idiv"@ } else { "div"@ };
        assert(text == op_implied_text(m, size, li, ri, op == seq!['%'], sp));
        assert(mnemonic_operator(m) == seq!['/'] && mnemonic_signed(m) == is_signed(lt));
    } else if op == seq!['&'] {
        assert(text == op_text("and"@, size, li, ri, sp));
        assert(mnemonic_operator("and"@) == op);
    } else if op == seq!['|'] {
        assert(text == op_text("or"@, size, li, ri, sp));
        assert(mnemonic_operator("or"@) == op);
    } else if op == seq!['^'] {
        assert(text == op_text("xor"@, size, li, ri, sp));
        assert(mnemonic_operator("xor"@) == op);
    } else if op == seq!['<', '<'] {
        assert(text == op_bitshift_text("shl"@, size, li, ri, sp));
        assert(mnemonic_operator("shl"@) == op);
    } else {
        assert(text == op_bitshift_text("shr"@, size, li, ri, sp));
        assert(mnemonic_operator("shr"@) == op);
    }
}

/// The two-character operators the tokenizer reads as one token are
/// exactly the two-character operators the parser knows.
pub proof fn law_operator_pairs(a: u8, b: u8)
    ensures
        is_pair(a, b) <==> precedence(Some(Token::Operand2(a as char, b as char))) is Some,
{
}

/// The condition code `&&` and `||` set each operand's byte by.
pub open spec fn truth_cc() -> Seq<char> {
    seq!['n', 'e']
}

/// `&&` and `||` load each operand, test it against zero and set its byte
/// by `truth_cc`, which holds exactly when the operand is not zero, then
/// combine the two bytes by the instruction `instr` and push the result.
pub proof fn law_logical_operands_are_tested_against_zero(
    lt: NumberType,
    li: (u16, Seq<u16>),
    rt: NumberType,
    ri: (u16, Seq<u16>),
    sp: u16,
    instr: Seq<char>,
)
    ensures
        forall|x: int| #[trigger] cc_holds(truth_cc(), x, 0) <==> x != 0,
        and_or_text(lt, li, rt, ri, sp, instr) == crate::expr::mov_num_text(lt, li, sp, "bl"@, "bx"@, "ebx"@, "rbx"@, "rcx"@)
            + line("cmp rbx, 0"@) + line("set"@ + truth_cc() + " bl"@) + crate::expr::mov_num_text(
            rt,
            ri,
            sp,
            "cl"@,
            "cx"@,
            "ecx"@,
            "rcx"@,
            "rdx"@,
        ) + line("cmp rcx, 0"@) + line("set"@ + truth_cc() + " cl"@) + line(instr + " bl, cl"@)
            + crate::nasm::push_register_text("bl"@, RegisterSize::S8),
{
    reveal_strlit("setne bl");
    reveal_strlit("setne cl");
    reveal_strlit("set");
    reveal_strlit(" bl");
    reveal_strlit(" cl");
    assert("setne bl"@ =~= "set"@ + truth_cc() + " bl"@);
    assert("setne cl"@ =~= "set"@ + truth_cc() + " cl"@);
}

/// The letter a number type's name begins with: `f` for floats, `i` for
/// signed integers, `u` for unsigned ones.
pub open spec fn kind_letter(t: NumberType) -> char {
    if t.is_float() {
        'f'
    } else if is_signed(t) {
        'i'
    } else {
        'u'
    }
}

/// A number type's name is its kind letter followed by its width in bits,
/// its register width is its size, and the code generator and the
/// tokenizer agree on which types are signed.
pub proof fn law_number_type_names(t: NumberType)
    ensures
        t.spec_name() == seq![kind_letter(t)] + crate::text::dec(8 * t.spec_size_bytes() as nat),
        num_size(t).spec_size_bytes() == t.spec_size_bytes(),
        is_signed(t) == crate::tokenize::is_signed_type(t),
{
    reveal_with_fuel(crate::text::dec, 3);
    reveal_strlit("i8");
    reveal_strlit("i16");
    reveal_strlit("i32");
    reveal_strlit("i64");
    reveal_strlit("u8");
    reveal_strlit("u16");
    reveal_strlit("u32");
    reveal_strlit("u64");
    reveal_strlit("f32");
    reveal_strlit("f64");
    let d = crate::text::dec(8 * t.spec_size_bytes() as nat);
    assert(crate::text::dec(8) =~= seq!['8']);
    assert(crate::text::dec(1) =~= seq!['1']);
    assert(crate::text::dec(3) =~= seq!['3']);
    assert(crate::text::dec(6) =~= seq!['6']);
    assert(crate::text::dec(16) =~= seq!['1', '6']);
    assert(crate::text::dec(32) =~= seq!['3', '2']);
    assert(crate::text::dec(64) =~= seq!['6', '4']);
    assert(t.spec_name() =~= seq![kind_letter(t)] + d);
}

/// The range of an integer type is that of its width: `2^(bits-1)` values
/// either side of zero for a signed type, `0` to `2^bits - 1` for an
/// unsigned one.
pub proof fn law_integer_ranges(t: NumberType)
    requires
        !t.is_float(),
    ensures
        crate::tokenize::type_max(t) + 1 == vstd::arithmetic::power2::pow2(
            (8 * t.spec_size_bytes() - if is_signed(t) {
                1int
            } else {
                0int
            }) as nat,
        ),
        crate::tokenize::type_min(t) == if is_signed(t) {
            -(crate::tokenize::type_max(t) + 1)
        } else {
            0
        },
{
    vstd::arithmetic::power2::lemma2_to64();
    vstd::arithmetic::power2::lemma2_to64_rest();
    match t {
        NumberType::I8 => assert(vstd::arithmetic::power2::pow2(7) == 128),
        NumberType::I16 => assert(vstd::arithmetic::power2::pow2(15) == 32768),
        NumberType::I32 => assert(vstd::arithmetic::power2::pow2(31) == 0x8000_0000),
        NumberType::I64 => assert(vstd::arithmetic::power2::pow2(63) == 0x8000_0000_0000_0000),
        NumberType::U8 => assert(vstd::arithmetic::power2::pow2(8) == 256),
        NumberType::U16 => assert(vstd::arithmetic::power2::pow2(16) == 65536),
        NumberType::U32 => assert(vstd::arithmetic::power2::pow2(32) == 0x1_0000_0000),
        NumberType::U64 => assert(vstd::arithmetic::power2::pow2(64) == 0x1_0000_0000_0000_0000),
        _ => {},
    }
}

/// The value of an integer literal.
pub open spec fn int_value(n: Number) -> int {
    match n {
        Number::I8(x) => x as int,
        Number::I16(x) => x as int,
        Number::I32(x) => x as int,
        Number::I64(x) => x as int,
        Number::U8(x) => x as int,
        Number::U16(x) => x as int,
        Number::U32(x) => x as int,
        Number::U64(x) => x as int,
        _ => 0,
    }
}

/// A value in an integer type's range makes a literal of that type and
/// that value.
pub proof fn law_integer_literals_keep_type_and_value(t: NumberType, v: int)
    requires
        !t.is_float(),
        crate::tokenize::type_min(t) <= v <= crate::tokenize::type_max(t),
    ensures
        crate::tokenize::int_number(t, v).spec_numtype() == t,
        int_value(crate::tokenize::int_number(t, v)) == v,
{
}

/// The register of a width, among the four widths of one register.
pub open spec fn reg_of_width(size: RegisterSize, r8: Seq<char>, r16: Seq<char>, r32: Seq<char>, r64: Seq<char>) -> Seq<char> {
    match size {
        RegisterSize::S8 => r8,
        RegisterSize::S16 => r16,
        RegisterSize::S32 => r32,
        RegisterSize::S64 => r64,
    }
}

/// The NASM size keyword of an operand of `n` bytes.
pub open spec fn size_keyword(n: u16) -> Seq<char> {
    if n == 1 {
        "byte"@
    } else if n == 2 {
        "word"@
    } else if n == 4 {
        "dword"@
    } else {
        "qword"@
    }
}

/// An integer is loaded into the register of its type's width, reading as
/// many bytes as the type has.
pub proof fn law_numbers_load_at_their_width(
    t: NumberType,
    r8: Seq<char>,
    r16: Seq<char>,
    r32: Seq<char>,
    r64: Seq<char>,
    sreg: Seq<char>,
)
    requires
        !t.is_float(),
    ensures
        crate::expr::mov_num_line(t, r8, r16, r32, r64, sreg) == line(
            "mov "@ + reg_of_width(num_size(t), r8, r16, r32, r64) + ", "@ + size_keyword(t.spec_size_bytes()) + " ["@
                + sreg + "+8]"@,
        ),
{
    reveal_strlit(", byte [");
    reveal_strlit(", word [");
    reveal_strlit(", dword [");
    reveal_strlit(", qword [");
    reveal_strlit(", ");
    reveal_strlit(" [");
    reveal_strlit("byte");
    reveal_strlit("word");
    reveal_strlit("dword");
    reveal_strlit("qword");
    let k = size_keyword(t.spec_size_bytes());
    let r = reg_of_width(num_size(t), r8, r16, r32, r64);
    let w = match num_size(t) {
        RegisterSize::S8 => ", byte ["@,
        RegisterSize::S16 => ", word ["@,
        RegisterSize::S32 => ", dword ["@,
        RegisterSize::S64 => ", qword ["@,
    };
    assert(w =~= ", "@ + k + " ["@);
    assert("mov "@ + r + ", "@ + k + " ["@ =~= "mov "@ + r + w);
    match t {
        NumberType::I8 | NumberType::U8 => {
            assert(r == r8 && w == ", byte ["@);
            assert("mov "@ + r + ", "@ + k + " ["@ + sreg + "+8]"@ =~= "mov "@ + r8 + ", byte ["@ + sreg + "+8]"@);
            assert(crate::expr::mov_num_line(t, r8, r16, r32, r64, sreg) == line("mov "@ + r8 + ", byte ["@ + sreg + "+8]"@));
        },
        NumberType::I16 | NumberType::U16 => {
            assert(r == r16 && w == ", word ["@);
            assert("mov "@ + r + ", "@ + k + " ["@ + sreg + "+8]"@ =~= "mov "@ + r16 + ", word ["@ + sreg + "+8]"@);
            assert(crate::expr::mov_num_line(t, r8, r16, r32, r64, sreg) == line("mov "@ + r16 + ", word ["@ + sreg + "+8]"@));
        },
        NumberType::I32 | NumberType::U32 => {
            assert(r == r32 && w == ", dword ["@);
            assert("mov "@ + r + ", "@ + k + " ["@ + sreg + "+8]"@ =~= "mov "@ + r32 + ", dword ["@ + sreg + "+8]"@);
            assert(crate::expr::mov_num_line(t, r8, r16, r32, r64, sreg) == line("mov "@ + r32 + ", dword ["@ + sreg + "+8]"@));
        },
        _ => {
            assert(r == r64 && w == ", qword ["@);
            assert("mov "@ + r + ", "@ + k + " ["@ + sreg + "+8]"@ =~= "mov "@ + r64 + ", qword ["@ + sreg + "+8]"@);
            assert(crate::expr::mov_num_line(t, r8, r16, r32, r64, sreg) == line("mov "@ + r64 + ", qword ["@ + sreg + "+8]"@));
        },
    }
}

/// The registers `rax`, `rbx`, `rcx` and `rdx` at each width, as the code
/// generator names them.
pub open spec fn general_registers(size: RegisterSize) -> (Seq<char>, Seq<char>, Seq<char>, Seq<char>) {
    match size {
        RegisterSize::S64 => ("rax"@, "rbx"@, "rcx"@, "rdx"@),
        RegisterSize::S32 => ("eax"@, "ebx"@, "ecx"@, "edx"@),
        RegisterSize::S16 => ("ax"@, "bx"@, "cx"@, "dx"@),
        RegisterSize::S8 => ("al"@, "bl"@, "cl"@, "dl"@),
    }
}

/// Each width names the `a`, `b`, `c` and `d` registers by their own parts.
pub proof fn law_register_names(size: RegisterSize)
    ensures
        (size.spec_a(), size.spec_b(), size.spec_c(), size.spec_d()) == general_registers(size),
        size.spec_size_bytes() == match size {
            RegisterSize::S64 => 8u16,
            RegisterSize::S32 => 4u16,
            RegisterSize::S16 => 2u16,
            RegisterSize::S8 => 1u16,
        },
{
}

/// The type of a binary operation: a comparison or `&&`/`||` gives the
/// byte its set instruction writes (`u8`); `+ - * / % & | ^` need operands
/// of one type and give that type; a shift gives the left operand's type.
pub proof fn law_binary_operation_types(op: Seq<char>, l: NumberType, r: NumberType)
    ensures
        (is_comparison(op) || op == seq!['&', '&'] || op == seq!['|', '|']) ==> (crate::expr::binop_typed(op, l, r) is Some
            ==> crate::expr::binop_typed(op, l, r) == Some(crate::ast::TypeModel::Number(NumberType::U8))),
        is_arithmetic(op) && crate::expr::binop_typed(op, l, r) is Some ==> crate::expr::binop_typed(op, l, r) == Some(
            crate::ast::TypeModel::Number(l),
        ),
        is_arithmetic(op) && op != seq!['<', '<'] && op != seq!['>', '>'] && crate::expr::binop_typed(op, l, r) is Some
            ==> l == r,
{
    lemma_operator_literals();
}

/// A comparison loads its left operand into one register and its right
/// operand into another, compares the left register with the right one
/// (in that order, so the condition code relates left to right), and sets
/// and pushes the low byte of the left register.
pub proof fn law_comparison_compares_left_with_right(
    lt: NumberType,
    li: (u16, Seq<u16>),
    rt: NumberType,
    ri: (u16, Seq<u16>),
    sp: u16,
    cc: Seq<char>,
)
    ensures
        exists|x: (Seq<char>, Seq<char>, Seq<char>, Seq<char>), y: (Seq<char>, Seq<char>, Seq<char>, Seq<char>), a: Seq<char>|
            #![trigger crate::expr::mov_num_text(lt, li, sp, x.0, x.1, x.2, x.3, a), crate::expr::mov_num_text(rt, ri, sp, y.0, y.1, y.2, y.3, a)]
            x.3 != y.3 && ord_text(lt, li, rt, ri, sp, cc) == crate::expr::mov_num_text(lt, li, sp, x.0, x.1, x.2, x.3, a)
                + crate::expr::mov_num_text(rt, ri, sp, y.0, y.1, y.2, y.3, a) + line("cmp "@ + x.3 + ", "@ + y.3) + line(
                "set"@ + cc + " "@ + x.0,
            ) + crate::nasm::push_register_text(x.0, RegisterSize::S8),
{
    reveal_strlit("rbx");
    reveal_strlit("rcx");
    reveal_strlit("cmp rbx, rcx");
    reveal_strlit("cmp ");
    reveal_strlit(", ");
    reveal_strlit(" bl");
    reveal_strlit(" ");
    reveal_strlit("bl");
    assert("rbx"@[1] != "rcx"@[1]);
    assert("cmp rbx, rcx"@ =~= "cmp "@ + "rbx"@ + ", "@ + "rcx"@);
    assert("set"@ + cc + " bl"@ =~= "set"@ + cc + " "@ + "bl"@);
    let x = ("bl"@, "bx"@, "ebx"@, "rbx"@);
    let y = ("cl"@, "cx"@, "ecx"@, "rcx"@);
    assert(ord_text(lt, li, rt, ri, sp, cc) == crate::expr::mov_num_text(lt, li, sp, x.0, x.1, x.2, x.3, "rdx"@)
        + crate::expr::mov_num_text(rt, ri, sp, y.0, y.1, y.2, y.3, "rdx"@) + line("cmp "@ + x.3 + ", "@ + y.3) + line(
        "set"@ + cc + " "@ + x.0,
    ) + crate::nasm::push_register_text(x.0, RegisterSize::S8));
}

/// Argument `i < 6` of a C call of number type `t` is moved into the
/// `i`-th System V argument register at the width of `t`.
pub proof fn law_c_arguments_at_their_width(i: int, t: NumberType, idx: (u16, Seq<u16>), sp: u16)
    requires
        0 <= i < 6,
    ensures
        exists|p: Seq<char>|
            #![trigger p.len()]
            crate::expr::c_arg_text(i, t, idx, sp) == p + line(
                "mov "@ + sysv_argument_registers(num_size(t))[i] + ", [r10+8]"@,
            ),
{
    law_c_arguments_in_system_v_order(i, num_size(t));
    let p = line("xor "@ + c_arg_reg(i, RegisterSize::S64) + ", "@ + c_arg_reg(i, RegisterSize::S64))
        + crate::nasm::idx2addr_text("r10"@, idx.0, idx.1, sp);
    assert(p.len() >= 0);
}

/// Dereferencing a reference gives back the referred value's type, and a
/// reference to a value has the type `&T` of a value of type `T`.
pub proof fn law_deref_undoes_ref(d: &crate::codegen::DefinitionTable, v: crate::codegen::VarsModel, x: crate::ast::Expression)
    ensures
        crate::expr::typed(d, v, &crate::ast::Expression::Deref(Box::new(crate::ast::Expression::Ref(Box::new(x)))))
            == crate::expr::typed(d, v, &x),
        crate::expr::typed(d, v, &crate::ast::Expression::Ref(Box::new(x))) == match crate::expr::typed(d, v, &x) {
            Some(t) => Some(crate::ast::TypeModel::Ref(Box::new(t))),
            None => None,
        },
{
}

/// Arrays are made with a `u64` length and indexed with a `u16`; indexing
/// a reference to an array of `T` gives a reference to a `T`; a static
/// string is a `u64`; a number literal has its own type.
pub proof fn law_array_and_literal_types(d: &crate::codegen::DefinitionTable, v: crate::codegen::VarsModel, e: crate::ast::Expression)
    ensures
        e matches crate::ast::Expression::InitArray(b) ==> (crate::expr::typed(d, v, &e) is Some ==> crate::expr::typed(
            d,
            v,
            &b.0,
        ) == Some(crate::ast::TypeModel::Number(NumberType::U64)) && crate::expr::typed(d, v, &e) == Some(
            crate::ast::TypeModel::Array(Box::new(b.1@)),
        )),
        e matches crate::ast::Expression::ArrayAccess(b) ==> (crate::expr::typed(d, v, &e) is Some ==> crate::expr::typed(
            d,
            v,
            &b.1,
        ) == Some(crate::ast::TypeModel::Number(NumberType::U16)) && exists|el: crate::ast::TypeModel|
            crate::expr::typed(d, v, &b.0) == Some(
                crate::ast::TypeModel::Ref(Box::new(crate::ast::TypeModel::Array(Box::new(el)))),
            ) && crate::expr::typed(d, v, &e) == Some(crate::ast::TypeModel::Ref(Box::new(el)))),
        e is String ==> crate::expr::typed(d, v, &e) == Some(crate::ast::TypeModel::Number(NumberType::U64)),
        e matches crate::ast::Expression::Number(n) ==> crate::expr::typed(d, v, &e) == Some(
            crate::ast::TypeModel::Number(n.spec_numtype()),
        ),
{
    if let crate::ast::Expression::ArrayAccess(b) = e {
        if crate::expr::typed(d, v, &e) is Some {
            if let Some(crate::ast::TypeModel::Ref(t)) = crate::expr::typed(d, v, &b.0) {
                if let crate::ast::TypeModel::Array(el) = *t {
                    assert(crate::expr::typed(d, v, &e) == Some(crate::ast::TypeModel::Ref(el)));
                }
            }
        }
    }
}

} // verus!
