//! Code generation for statements and top-level definitions.
use vstd::prelude::*;

use crate::ast::{
    DefAssignment, Expression, ExpressionType, ForStatement, Function, GlobalValue, NumberType, SetAssignment,
    Statement, TypeModel,
};
use crate::codegen::{
    alloc_top_spec, is_limit_error, lookup, types_view, CFunction, DefinedFunction, DefinedStruct, DefinitionTable,
    Error, FnModel, StuckerFunction, VarTable, VarsModel,
};
use crate::expr::{expr_code, typed, FunctionCodegen};
use crate::nasm::{
    addressable, grows, idx2addr_text, lemma_grows_append, lemma_grows_prefix, lemma_grows_refl, lemma_grows_then, lemma_grows_trans,
    local_name, ret_start, ret_text, item_of, resize_text, copy_addr_impl_text, ref2addr_impl_text, label,
    line, owned, ref2addr_text, Index, Nasm,
};

verus! {

/// The body of a function that the compiler writes itself.
pub enum Builtin {
    /// `resize(&x, n)`: gives the item `x` refers to `n` data bytes.
    Resize,
}

/// The signature `resize` is registered with: `void resize(&void, u64)`.
pub open spec fn resize_model() -> FnModel {
    FnModel::Stucker {
        ret: TypeModel::Void,
        params: seq![TypeModel::Ref(Box::new(TypeModel::Void)), TypeModel::Number(NumberType::U64)],
    }
}

/// What the body of `resize(&x, n)` writes, with the reference at item `p`
/// and the size at item `q` of a stack of `sp` items; it uses seven labels
/// from `u` on.
#[verifier::opaque]
pub open spec fn resize_call_text(p: (u16, Seq<u16>), q: (u16, Seq<u16>), sp: u16, u: nat) -> Seq<char> {
    idx2addr_text("rbx"@, p.0, p.1, sp) + ref2addr_text(u) + line("mov rbx, rsi"@) + idx2addr_text("rdx"@, q.0, q.1, sp)
        + line("mov rdx, [rdx+8]"@) + line("add rdx, 8"@) + resize_text(u + 1)
}

/// What a builtin function with `n` parameters writes: its label, its body
/// and its return; it uses eight labels from `u` on.
#[verifier::opaque]
pub open spec fn builtin_text(name: Seq<char>, return_type: TypeModel, n: nat, body: Builtin, u: nat) -> Seq<char> {
    let rs = ret_start(return_type);
    "\n"@ + label("_"@ + name) + match body {
        Builtin::Resize => resize_call_text((rs, Seq::empty()), ((rs + 1) as u16, Seq::empty()), (rs + 2) as u16, u + 1),
    } + ret_text(n)
}

/// What the runtime routines write: `copy_addr`, `ref2addr`, then the
/// builtin `resize`; they use 24 labels from `u` on.
#[verifier::opaque]
pub open spec fn stdlib_text(u: nat) -> Seq<char> {
    "\n"@ + label("copy_addr"@) + copy_addr_impl_text(u + 1, 0) + line("jmp rax"@) + "\n"@ + label("ref2addr"@)
        + ref2addr_impl_text(u + 10) + line("jmp rax"@) + builtin_text("resize"@, TypeModel::Void, 2, Builtin::Resize, u + 16)
}

/// What starting the program writes, with `sp` items on the stack and
/// labels numbered from `u`: the entry point `main`, which calls the
/// program's `main` and exits with the `i32` it returns, then the runtime
/// routines.
#[verifier::opaque]
pub open spec fn init_text(sp: u16, u: nat) -> Seq<char> {
    let back = local_name("call_return"@, u + 1);
    let call = crate::nasm::push_text(12, "number"@) + line("lea rax, ["@ + back + "] ; codegen_call (ret)"@)
        + crate::nasm::push_register_text("rax"@, crate::nasm::RegisterSize::S64) + line(
        "jmp "@ + ("_"@ + "main"@) + " ; codegen_call (jmp)"@,
    ) + label(back);
    line("global main"@) + line("section .text"@) + label("main"@) + line("mov rbp, 0"@) + call + idx2addr_text(
        "rbx"@,
        sp,
        Seq::empty(),
        (sp + 1) as u16,
    ) + line("mov ebx, [rbx+8]"@) + line("mov eax, 1"@) + line("int 0x80"@) + stdlib_text(u + 2)
}

/// `w1` is `w0` followed by the code `c` of a condition and a test of its
/// value against zero.
pub open spec fn tests_condition(w0: Seq<char>, c: Seq<char>, w1: Seq<char>) -> bool {
    w1 == w0 + c + line("cmp rbx, 0"@)
}

/// Testing the condition `cond` from `n0` failed with `e` because of the
/// condition itself: its code failed with `e`; or it left a value that is
/// not a number (`ExpectedNumber` of its type), a float (`ExpectedInteger`),
/// or one not at a live item (`InvalidIndex`, `DanglingIndex`).
pub open spec fn condition_failed(d: &DefinitionTable, v: VarsModel, cond: Expression, n0: Nasm, e: Error) -> bool {
    exists|n1: Nasm, er: Result<(ExpressionType, Index), Error>| #[trigger] expr_code(d, v, cond, n0, n1, er) && match er {
        Err(x) => x == e,
        Ok((t, i)) => match t@ {
            TypeModel::Number(k) => crate::expr::mov_num_error(k, i@, n1.stack_pointer, e),
            _ => e matches Error::ExpectedNumber(x) && x@ == t@,
        },
    }
}

/// What `def T name = e;` or `def T name;` (`a`) does from `n0`, ending at
/// `n1` with `r`: with a value, its code runs and its failure is the
/// statement's; a value of type `T` is bound, and one of another type gives
/// `TypeMismatch(T, its type)`, writing nothing more; without a value,
/// `void` gives `CannotAllocVoid` and an unknown struct `UnknownType`,
/// writing nothing.
pub open spec fn def_run(d: &DefinitionTable, v: VarsModel, a: DefAssignment, n0: Nasm, n1: Nasm, r: Result<(), Error>) -> bool {
    match a.var_value {
        Some(e) => exists|m: Nasm, re: Result<(ExpressionType, Index), Error>| #[trigger] expr_code(d, v, e, n0, m, re)
            && match re {
            Err(x) => r == Err::<(), Error>(x) && n1 == m,
            Ok((t, _)) => n1 == m && if t@ == a.var_type@ {
                r is Ok
            } else {
                r matches Err(Error::TypeMismatch(x, y)) && x@ == a.var_type@ && y@ == t@
            },
        },
        None => {
            &&& a.var_type@ == TypeModel::Void ==> (r matches Err(Error::CannotAllocVoid) && n1 == n0)
            &&& a.var_type@ matches TypeModel::Struct(k) ==> (d.lookup_struct(k) is None ==> (r matches Err(
                Error::UnknownType(x),
            ) && x@ == k && n1 == n0))
        },
    }
}

/// What `set x = y;` or `set *x = y;` (`a`) does from `n0`, ending at `n1`
/// with `r`: the code of the destination runs, then that of the source, and
/// the first failure is the statement's; with `*`, a destination that is not
/// a reference gives `ExpectedRef` of its type; a source whose type is not
/// the destination's (with `*`, the referred type) gives `TypeMismatch(that
/// type, the source's)`, and nothing more is written then; with matching
/// types, both values at live items and two labels left, the copy is made.
pub open spec fn set_run(d: &DefinitionTable, v: VarsModel, a: SetAssignment, n0: Nasm, n1: Nasm, r: Result<(), Error>) -> bool {
    exists|m1: Nasm, rd: Result<(ExpressionType, Index), Error>| #[trigger] expr_code(d, v, a.var_dest, n0, m1, rd)
        && match rd {
        Err(x) => r == Err::<(), Error>(x) && n1 == m1,
        Ok((dt, di)) => exists|m2: Nasm, rs: Result<(ExpressionType, Index), Error>| #[trigger] expr_code(
            d,
            v,
            a.var_src,
            m1,
            m2,
            rs,
        ) && match rs {
            Err(x) => r == Err::<(), Error>(x) && n1 == m2,
            Ok((st, si)) => if a.deref && !(dt@ is Ref) {
                r matches Err(Error::ExpectedRef(x)) && x@ == dt@ && n1 == m2
            } else {
                let want = if a.deref { *(dt@->Ref_0) } else { dt@ };
                &&& want != st@ ==> (r matches Err(Error::TypeMismatch(x, y)) && x@ == want && y@ == st@ && n1 == m2)
                &&& want == st@ ==> grows(m2, n1)
                &&& want == st@ && addressable(di@, m2.stack_pointer) && addressable(si@, m2.stack_pointer)
                    && m2.labels_left(2) ==> r is Ok
            },
        },
    }
}

/// What testing the condition `cond` does from `n0`, ending at `n1` with
/// `r`: a failure is one of `condition_failed`; a success writes the test
/// after the condition's code and leaves the stack as it was; and the test
/// succeeds when the condition's code gives an integer at a live item.
pub open spec fn condition_run(d: &DefinitionTable, v: VarsModel, cond: Expression, n0: Nasm, n1: Nasm, r: Result<(), Error>) -> bool {
    &&& r matches Err(e) ==> condition_failed(d, v, cond, n0, e)
    &&& r is Ok ==> (exists|c: Seq<char>| #[trigger] tests_condition(n0.writer@, c, n1.writer@))
        && n1.stack_pointer == n0.stack_pointer
    &&& grows(n0, n1)
    &&& exists|m: Nasm, re: Result<(ExpressionType, Index), Error>| #[trigger] expr_code(d, v, cond, n0, m, re) && (
    re matches Ok((t, i)) && t@ matches TypeModel::Number(k) && !k.is_float() && addressable(i@, m.stack_pointer)
        ==> r is Ok)
}

/// What `while cond body` (`x`) in a function returning `ret` does from
/// `n0`, ending at `n1` with `r`, when a label is left: the loop label comes
/// first, then the condition is tested (`condition_run`), and its failure is the
/// loop's; then the jump out is written and the body runs in a scope of its
/// own, and its failure is the loop's; after a body that succeeded, the
/// loop succeeds when a label is left for its exit, and it ends with the
/// stack as it began, or lower where the body (by a `return`) left it lower.
pub open spec fn while_run(
    d: &DefinitionTable,
    ret: TypeModel,
    v: VarsModel,
    x: (Expression, Statement),
    n0: Nasm,
    n1: Nasm,
    r: Result<(), Error>,
) -> bool {
    n0.labels_left(1) ==> exists|m1: Nasm, mc: Nasm, rc: Result<(), Error>| #[trigger] condition_run(d, v, x.0, m1, mc, rc)
        && while_started(n0.writer@, n0.uniq_index, m1) && m1.uniq_index == n0.uniq_index + 1 && match rc {
        Err(_) => r == rc && n1 == mc,
        Ok(()) => exists|m3: Nasm, m4: Nasm, rb: Result<(), Error>, vb: VarsModel| #[trigger] stmt_effect(
            d,
            ret,
            inner_scope(v),
            vb,
            x.1,
            m3,
            m4,
            rb,
        ) && m3.writer@ == mc.writer@ + line("je "@ + local_name("while_return"@, n0.uniq_index as nat))
            && m3.uniq_index == mc.uniq_index && match rb {
            Err(_) => r == rb && n1 == m4,
            Ok(()) => {
                &&& m4.labels_left(1) ==> r is Ok
                &&& r is Ok ==> n1.stack_pointer == if m4.stack_pointer < n0.stack_pointer {
                    m4.stack_pointer
                } else {
                    n0.stack_pointer
                }
            },
        },
    }
}

/// The lower of two stack positions.
pub open spec fn lower(a: int, b: int) -> int {
    if a < b {
        a
    } else {
        b
    }
}

/// What `if cond t else f` (`x`) in a function returning `ret` does from
/// `n0`, ending at `n1` with `r`: the condition is tested (`condition_run`),
/// and its failure is the statement's; then the jump to the other branch is
/// written and `t` runs in a scope of its own, and its failure is the
/// statement's; then, with an `else`, `f` runs in a scope of its own once
/// the label before it is written, and its failure is the statement's; the
/// statement succeeds when the labels it still writes are left, and it ends
/// with the stack as it began, or lower where a branch (by a `return`) left
/// it lower.
pub open spec fn if_run(
    d: &DefinitionTable,
    ret: TypeModel,
    v: VarsModel,
    x: (Expression, Statement, Option<Statement>),
    n0: Nasm,
    n1: Nasm,
    r: Result<(), Error>,
) -> bool {
    exists|mc: Nasm, rc: Result<(), Error>| #[trigger] condition_run(d, v, x.0, n0, mc, rc) && match rc {
        Err(_) => r == rc && n1 == mc,
        Ok(()) => exists|m2: Nasm, mt: Nasm, rt: Result<(), Error>, vt: VarsModel| #[trigger] stmt_effect(
            d,
            ret,
            inner_scope(v),
            vt,
            x.1,
            m2,
            mt,
            rt,
        ) && m2.writer@ == mc.writer@ + line("je "@ + local_name("if_false"@, mc.uniq_index as nat))
            && m2.uniq_index == mc.uniq_index && match rt {
            Err(_) => r == rt && n1 == mt,
            Ok(()) => match x.2 {
                None => {
                    &&& mt.labels_left(2) ==> r is Ok
                    &&& r is Ok ==> n1.stack_pointer == lower(n0.stack_pointer as int, mt.stack_pointer as int)
                },
                Some(f) => mt.labels_left(1) ==> exists|m5: Nasm, mf: Nasm, rf: Result<(), Error>, vf: VarsModel|
                    #[trigger] stmt_effect(d, ret, inner_scope(v), vf, f, m5, mf, rf) && m5.uniq_index == mt.uniq_index
                    + 1 && match rf {
                    Err(_) => r == rf && n1 == mf,
                    Ok(()) => {
                        &&& mf.labels_left(1) ==> r is Ok
                        &&& r is Ok ==> n1.stack_pointer == lower(
                            lower(n0.stack_pointer as int, mt.stack_pointer as int),
                            mf.stack_pointer as int,
                        )
                    },
                },
            },
        },
    }
}

/// What `for (init; cond; inc) body` (`x`) in a function returning `ret`
/// does from `n0`, ending at `n1` with `r`: `init` runs in the enclosing
/// scope, then (a label being left) the loop label comes, the condition is
/// tested in the scope `init` left (`condition_run`), the body runs in a
/// scope of its own after the jump out, and `inc` runs in the scope `init`
/// left; the first of these that fails ends the loop with its error, and
/// after them the loop succeeds when a label is left for its exit.
pub open spec fn for_run(
    d: &DefinitionTable,
    ret: TypeModel,
    v: VarsModel,
    x: ForStatement,
    n0: Nasm,
    n1: Nasm,
    r: Result<(), Error>,
) -> bool {
    exists|mi: Nasm, ri: Result<(), Error>, vi: VarsModel| #[trigger] stmt_base(d, ret, v, vi, x.init, n0, mi, ri)
        && match ri {
        Err(_) => r == ri && n1 == mi,
        Ok(()) => mi.labels_left(1) ==> exists|m1: Nasm, mc: Nasm, rc: Result<(), Error>| #[trigger] condition_run(
            d,
            vi,
            x.cond,
            m1,
            mc,
            rc,
        ) && for_started(mi.writer@, mi.uniq_index, m1) && m1.uniq_index == mi.uniq_index + 1 && match rc {
            Err(_) => r == rc && n1 == mc,
            Ok(()) => exists|m3: Nasm, mb: Nasm, rb: Result<(), Error>, vb: VarsModel| #[trigger] stmt_effect(
                d,
                ret,
                inner_scope(vi),
                vb,
                x.body,
                m3,
                mb,
                rb,
            ) && m3.writer@ == mc.writer@ + line("je "@ + local_name("for_return"@, mi.uniq_index as nat))
                && m3.uniq_index == mc.uniq_index && match rb {
                Err(_) => r == rb && n1 == mb,
                Ok(()) => exists|m4: Nasm, mk: Nasm, rk: Result<(), Error>, vk: VarsModel| #[trigger] stmt_effect(
                    d,
                    ret,
                    vi,
                    vk,
                    x.inc,
                    m4,
                    mk,
                    rk,
                ) && m4.uniq_index == mb.uniq_index && match rk {
                    Err(_) => r == rk && n1 == mk,
                    Ok(()) => mk.labels_left(1) ==> r is Ok,
                },
            },
        },
    }
}

/// What `return e` in a function returning `ret` does from `n0`, ending
/// at `n1` with `r`: the code of `e` runs, and its failure is the
/// statement's; a value of the return type succeeds when the function
/// returns `void`, or when the value is at a live item, the stack is not
/// empty and a label is left.
pub open spec fn return_run(
    d: &DefinitionTable,
    v: VarsModel,
    ret: TypeModel,
    e: Expression,
    n0: Nasm,
    n1: Nasm,
    r: Result<(), Error>,
) -> bool {
    exists|m: Nasm, re: Result<(ExpressionType, Index), Error>| #[trigger] expr_code(d, v, e, n0, m, re) && match re {
        Err(x) => r == Err::<(), Error>(x) && n1 == m,
        Ok((t, i)) => t@ == ret && (ret == TypeModel::Void || (addressable(i@, m.stack_pointer) && m.stack_pointer > 0
            && m.labels_left(1))) ==> r is Ok,
    }
}

/// `return e` in a function returning `ret` failed with `err` from `n0`:
/// the code of `e` failed with `err`, or its type `t` is not `ret` and `err`
/// is `TypeMismatch(ret, t)`, or the copy
/// into the return slot could not be made (the value is not at a live item,
/// the stack is empty, or no label is left).
pub open spec fn return_failed(
    d: &DefinitionTable,
    v: VarsModel,
    ret: TypeModel,
    e: Expression,
    n0: Nasm,
    err: Error,
) -> bool {
    exists|n1: Nasm, er: Result<(ExpressionType, Index), Error>| #[trigger] expr_code(d, v, e, n0, n1, er) && match er {
        Err(x) => x == err,
        Ok((t, i)) => if t@ != ret {
            err matches Error::TypeMismatch(x, y) && x@ == ret && y@ == t@
        } else {
            ret != TypeModel::Void && (!addressable(i@, n1.stack_pointer) || n1.stack_pointer == 0
                || !n1.labels_left(1))
        },
    }
}

/// `m`'s output is `w0` followed by the code `c` of an `if`'s condition, its
/// test, and the jump to the other branch (labels numbered `u`).
pub open spec fn if_started(w0: Seq<char>, c: Seq<char>, u: usize, m: Nasm) -> bool {
    m.writer@ == w0 + c + line("cmp rbx, 0"@) + line("je "@ + local_name("if_false"@, u as nat))
}

/// `m`'s output is `w0` followed by the label of a loop numbered `u`: where
/// a `while` loop starts.
pub open spec fn while_started(w0: Seq<char>, u: usize, m: Nasm) -> bool {
    m.writer@ == w0 + label(local_name("while_body"@, u as nat))
}

/// `m`'s output is `w0` followed by the label of the function `name`: where
/// its code starts.
pub open spec fn function_started(w0: Seq<char>, name: Seq<char>, m: Nasm) -> bool {
    m.writer@ == w0 + "\n"@ + label("_"@ + name)
}

/// The code of a `while` loop whose labels are numbered `u`: the loop label,
/// the condition `c` and its test, a jump out when it is zero, the body `b`,
/// a jump back, and the exit label.
pub open spec fn while_code(w0: Seq<char>, c: Seq<char>, b: Seq<char>, w1: Seq<char>, u: usize) -> bool {
    let top = local_name("while_body"@, u as nat);
    let exit = local_name("while_return"@, u as nat);
    w1 == w0 + label(top) + c + line("cmp rbx, 0"@) + line("je "@ + exit) + b + line("jmp "@ + top) + label(exit)
}

/// The code of an `if` whose labels are numbered `u`: the condition `c` and
/// its test, a jump to the other branch when it is zero, the branch `t`, a
/// jump to the exit, the other branch `f` (nothing without an `else`), and
/// the exit label.
pub open spec fn if_code(
    w0: Seq<char>,
    c: Seq<char>,
    t: Seq<char>,
    f: Seq<char>,
    w1: Seq<char>,
    u: usize,
    has_else: bool,
) -> bool {
    let exit = local_name("if_return"@, u as nat);
    let other = local_name("if_false"@, u as nat);
    &&& w1 == w0 + c + line("cmp rbx, 0"@) + line("je "@ + other) + t + line("jmp "@ + exit) + label(other) + f + label(
        exit,
    )
    &&& !has_else ==> f.len() == 0
}

/// The code of a `for` loop whose labels are numbered `u`: the initial
/// statement `i`, the loop label, the condition `c` and its test, a jump out
/// when it is zero, the body `b`, the step `k` (with the pops back to the
/// loop's stack), a jump back, and the exit label.
pub open spec fn for_code(
    w0: Seq<char>,
    i: Seq<char>,
    c: Seq<char>,
    b: Seq<char>,
    k: Seq<char>,
    w1: Seq<char>,
    u: usize,
) -> bool {
    let top = local_name("for_body"@, u as nat);
    let exit = local_name("for_return"@, u as nat);
    w1 == w0 + i + label(top) + c + line("cmp rbx, 0"@) + line("je "@ + exit) + b + k + line("jmp "@ + top) + label(exit)
}

/// The code of the function `name`: its label, the code `b` of its body,
/// and a return that pops the `k` items left above its bookkeeping items.
pub open spec fn function_code(w0: Seq<char>, name: Seq<char>, b: Seq<char>, k: nat, w1: Seq<char>) -> bool {
    w1 == w0 + "\n"@ + label("_"@ + name) + b + ret_text(k)
}

/// The code of `return e` in a function that returns a value: the code `e`
/// of the expression, then its value, at item `v` of a stack of `sp` items,
/// is copied into the return slot, item 0.
pub open spec fn return_code(w0: Seq<char>, e: Seq<char>, v: (u16, Seq<u16>), sp: u16, u: usize, w1: Seq<char>) -> bool {
    &&& v.0 < sp
    &&& w1 == w0 + e + idx2addr_text("rsi"@, v.0, v.1, sp) + idx2addr_text("rdi"@, 0, Seq::empty(), sp)
        + crate::nasm::copy_addr_text(u as nat)
}

/// The code of `set`: the operands' code `e`, then the destination's address
/// in `rdi` (found through the reference at item `d` when `deref`, else the
/// address of item `d`), the address of the source item `s` in `rsi`, and
/// the copy; `sp` items are on the stack and labels are numbered from `u`.
pub open spec fn set_code(
    w0: Seq<char>,
    e: Seq<char>,
    d: (u16, Seq<u16>),
    s: (u16, Seq<u16>),
    sp: u16,
    u: usize,
    deref: bool,
    w1: Seq<char>,
) -> bool {
    let dest = if deref {
        idx2addr_text("rbx"@, d.0, d.1, sp) + ref2addr_text(u as nat) + line("mov rdi, rsi"@)
    } else {
        idx2addr_text("rdi"@, d.0, d.1, sp)
    };
    &&& d.0 < sp && s.0 < sp
    &&& w1 == w0 + e + dest + idx2addr_text("rsi"@, s.0, s.1, sp) + crate::nasm::copy_addr_text(
        (if deref { u + 1 } else { u as int }) as nat,
    )
}

/// The code of a block: the code `b` of its statements, then the pops of the
/// `k` items they left on the stack.
pub open spec fn block_code(w0: Seq<char>, b: Seq<char>, k: nat, w1: Seq<char>) -> bool {
    w1 == w0 + b + crate::nasm::pops_text(k)
}

/// Whether a `return` occurs in the statement `s`, at any depth.
pub open spec fn has_return(s: Statement) -> bool
    decreases s,
{
    match s {
        Statement::Return(_) => true,
        Statement::Block(v) => any_return(v@),
        Statement::If(x) => has_return(x.1) || (x.2 matches Some(f) && has_return(f)),
        Statement::While(x) => has_return(x.1),
        Statement::For(x) => has_return(x.init) || has_return(x.inc) || has_return(x.body),
        _ => false,
    }
}

/// Whether a `return` occurs in one of the statements `v`, at any depth.
pub open spec fn any_return(v: Seq<Statement>) -> bool
    decreases v,
{
    if v.len() == 0 {
        false
    } else {
        has_return(v[0]) || any_return(v.drop_first())
    }
}

/// `m`'s output is `w0` followed by the label of a `for` loop numbered `u`:
/// where the loop's test starts, after its initial statement.
pub open spec fn for_started(w0: Seq<char>, u: usize, m: Nasm) -> bool {
    m.writer@ == w0 + label(local_name("for_body"@, u as nat))
}

/// The scope of a block or of a branch: no names of its own, inside `v`.
pub open spec fn inner_scope(v: VarsModel) -> VarsModel {
    VarsModel { data: Seq::empty(), outer: Some(Box::new(v)) }
}

/// What follows the initial statement of a `for` loop, which ended at `m`
/// with `r1`, when the whole loop ends at `n1` with `r`: its failure is the
/// loop's; otherwise the loop label comes next, or the labels have run out.
pub open spec fn for_after_init(m: Nasm, r1: Result<(), Error>, n1: Nasm, r: Result<(), Error>) -> bool {
    match r1 {
        Err(_) => r == r1 && n1 == m,
        Ok(()) => if m.labels_left(1) {
            exists|m2: Nasm| #[trigger] for_started(m.writer@, m.uniq_index, m2) && grows(m2, n1)
        } else {
            r matches Err(Error::LimitExceeded) && n1 == m
        },
    }
}

/// What the code of the statement `stmt`, in a function returning `ret` and
/// the scope `v0`, does when it takes the emitter from `n0` to `n1`, leaves
/// the scope `v1` and ends with `r` (of a `for` loop, `stmt_effect` also
/// says what its initial statement did).
pub open spec fn stmt_base(
    d: &DefinitionTable,
    ret: TypeModel,
    v0: VarsModel,
    v1: VarsModel,
    stmt: Statement,
    n0: Nasm,
    n1: Nasm,
    r: Result<(), Error>,
) -> bool {
    &&& grows(n0, n1)
    &&& v1.outer == v0.outer
    &&& !(stmt is DefAssign || stmt is For) ==> v1 == v0
    &&& (stmt is Block || stmt is If || stmt is While) && r is Ok ==> n1.stack_pointer <= n0.stack_pointer
    &&& match stmt {
        Statement::Breakpoint => r is Ok && n1.writer@ == n0.writer@ + line("int3"@) && n1.stack_pointer
            == n0.stack_pointer && n1.uniq_index == n0.uniq_index,
        Statement::Block(_) => r is Ok ==> exists|b: Seq<char>, k: nat| #[trigger] block_code(n0.writer@, b, k, n1.writer@),
        Statement::While(_) => {
            &&& r is Ok ==> exists|c: Seq<char>, b: Seq<char>| #[trigger] while_code(
                n0.writer@,
                c,
                b,
                n1.writer@,
                n0.uniq_index,
            )
            &&& n0.labels_left(1) ==> exists|m: Nasm| #[trigger] while_started(n0.writer@, n0.uniq_index, m) && grows(
                m,
                n1,
            )
            &&& !n0.labels_left(1) ==> (r matches Err(Error::LimitExceeded) && n1 == n0)
        },
        Statement::If(x) => {
            &&& r is Ok ==> exists|c: Seq<char>, t: Seq<char>, f: Seq<char>, u: usize| #[trigger] if_code(
                n0.writer@,
                c,
                t,
                f,
                n1.writer@,
                u,
                x.2 is Some,
            )
            &&& r matches Err(e) ==> condition_failed(d, v0, x.0, n0, e) || exists|m: Nasm, c: Seq<char>, u: usize|
                #[trigger] if_started(n0.writer@, c, u, m) && grows(m, n1)
        },
        Statement::For(_) => {
            &&& r is Ok ==> exists|i: Seq<char>, c: Seq<char>, b: Seq<char>, k: Seq<char>, u: usize| #[trigger] for_code(
                n0.writer@,
                i,
                c,
                b,
                k,
                n1.writer@,
                u,
            )
        },
        Statement::Return(None) => if n0.stack_pointer >= ret_start(ret) {
            &&& r is Ok
            &&& n1.writer@ == n0.writer@ + crate::nasm::ret_text_at(n0.stack_pointer, ret)
            &&& n1.stack_pointer == n0.stack_pointer - 1
        } else {
            r matches Err(Error::StackUnderflow) && n1 == n0
        },
        Statement::Return(Some(e)) => {
            &&& r is Ok ==> typed(d, v0, &e) == Some(ret)
            &&& r is Ok && ret != TypeModel::Void ==> exists|
                c: Seq<char>,
                v: (u16, Seq<u16>),
                sp: u16,
                u: usize,
            | #[trigger] return_code(n0.writer@, c, v, sp, u, n1.writer@)
            &&& r matches Err(x) ==> return_failed(d, v0, ret, e, n0, x)
            &&& return_run(d, v0, ret, e, n0, n1, r)
        },
        Statement::Expr(e) => {
            &&& exists|m: Nasm, re: Result<(ExpressionType, Index), Error>| #[trigger] expr_code(d, v0, e, n0, m, re)
                && n1 == m && match re {
                Ok(_) => r is Ok,
                Err(x) => r == Err::<(), Error>(x),
            }
            &&& r is Ok ==> typed(d, v0, &e) is Some
            &&& typed(d, v0, &e) is Some && r is Err ==> is_limit_error(r->Err_0)
        },
        Statement::DefAssign(a) => {
            &&& def_run(d, v0, a, n0, n1, r)
            &&& r is Ok ==> (lookup(v1.data, a.var_name@) matches Some((t, _)) && t == a.var_type@)
            &&& a.var_value is None && r is Ok ==> (alloc_top_spec(d, a.var_type@) matches Some((_, t))
                && n1.writer@ == n0.writer@ + t)
            &&& forall|k: Seq<char>| k != a.var_name@ ==> lookup(v1.data, k) == lookup(v0.data, k)
        },
        Statement::SetAssign(a) => {
            &&& set_run(d, v0, a, n0, n1, r)
            &&& r is Ok ==> exists|
                c: Seq<char>,
                dd: (u16, Seq<u16>),
                s: (u16, Seq<u16>),
                sp: u16,
                u: usize,
            | #[trigger] set_code(n0.writer@, c, dd, s, sp, u, a.deref, n1.writer@)
            &&& r is Ok ==> (typed(d, v0, &a.var_dest) matches Some(dt) && typed(d, v0, &a.var_src) matches Some(st)
                && if a.deref {
                dt == TypeModel::Ref(Box::new(st))
            } else {
                dt == st
            })
        },
    }
}

/// What the code of the statement `stmt` does, as `stmt_base` says; of a
/// `for` loop also that its initial statement ran first, from `n0`, and what
/// came after it.
pub open spec fn stmt_effect(
    d: &DefinitionTable,
    ret: TypeModel,
    v0: VarsModel,
    v1: VarsModel,
    stmt: Statement,
    n0: Nasm,
    n1: Nasm,
    r: Result<(), Error>,
) -> bool {
    &&& stmt_base(d, ret, v0, v1, stmt, n0, n1, r)
    &&& stmt matches Statement::For(x) ==> exists|m: Nasm, r1: Result<(), Error>, vi: VarsModel| #[trigger] stmt_base(
        d,
        ret,
        v0,
        vi,
        x.init,
        n0,
        m,
        r1,
    ) && for_after_init(m, r1, n1, r)
}

/// The statements `s` of a function returning `ret`, run in order from `n0`
/// in the scope `v0`, end at `n1` with `r`: each starts where the one before
/// ended, in the scope it left, and the first that fails ends the run with
/// its error.
pub open spec fn block_run(
    d: &DefinitionTable,
    ret: TypeModel,
    v0: VarsModel,
    s: Seq<Statement>,
    n0: Nasm,
    n1: Nasm,
    r: Result<(), Error>,
) -> bool
    decreases s.len(),
{
    if s.len() == 0 {
        n1 == n0 && r is Ok
    } else {
        exists|m: Nasm, r1: Result<(), Error>, v1: VarsModel| #[trigger] stmt_effect(d, ret, v0, v1, s[0], n0, m, r1)
            && match r1 {
            Err(_) => r == r1 && n1 == m,
            Ok(()) => block_run(d, ret, v1, s.skip(1), m, n1, r),
        }
    }
}

/// The model a function definition is registered with.
pub open spec fn fn_model(f: &Function) -> FnModel {
    match f.abi {
        crate::ast::Abi::C => FnModel::C {
            c_ret: match f.return_type@ {
                TypeModel::Number(n) => Some(n),
                _ => None,
            },
            c_params: f.params@.map_values(|p: (ExpressionType, String)| p.0@->Number_0),
            variadic: f.is_variadic,
        },
        crate::ast::Abi::Stucker => FnModel::Stucker {
            ret: f.return_type@,
            params: f.params@.map_values(|p: (ExpressionType, String)| p.0@),
        },
    }
}

/// Every struct a parameter names is defined.
pub open spec fn params_defined(d: &DefinitionTable, params: Seq<(ExpressionType, String)>) -> bool {
    forall|i: int| 0 <= i < params.len() ==> ((#[trigger] params[i]).0@ matches TypeModel::Struct(n) ==> d.lookup_struct(n) is Some)
}

/// What declaring the C function `name` writes: an `extern` directive and a
/// label that jumps to it.
pub open spec fn extern_text(name: Seq<char>) -> Seq<char> {
    "\nextern "@ + name + "\n"@ + "\n"@ + crate::nasm::label("_"@ + name) + line("jmp "@ + name)
}

/// `main` must be `i32 main()`.
pub open spec fn main_signature_ok(f: &Function) -> bool {
    f.return_type@ == TypeModel::Number(NumberType::I32) && f.params@.len() == 0 && !f.is_variadic
}

/// What the code of the Stucker function `name`, returning `ret`, with `np`
/// parameters and the statements `body`, does from `n0`, ending at `n1`
/// with `r`: with no label left it fails with `LimitExceeded`; else its
/// label comes first (`function_started`), and the parameters' items are
/// counted on the stack above its bookkeeping items (`LimitExceeded` when
/// they do not fit); the body runs as a block in a top-level scope binding
/// them, and its failure is the function's; then a stack holding fewer
/// items than the return needs gives `StackUnderflow`, and otherwise the
/// return is written.
pub open spec fn function_run(
    d: &DefinitionTable,
    name: Seq<char>,
    ret: TypeModel,
    np: nat,
    body: Seq<Statement>,
    n0: Nasm,
    n1: Nasm,
    r: Result<(), Error>,
) -> bool {
    if !n0.labels_left(1) {
        r matches Err(Error::LimitExceeded)
    } else if ret_start(ret) + np > u16::MAX {
        r matches Err(Error::LimitExceeded) && exists|m0: Nasm| #[trigger] function_started(n0.writer@, name, m0)
            && grows(m0, n1)
    } else {
        exists|m1: Nasm, v: VarsModel, m2: Nasm, r1: Result<(), Error>| #[trigger] block_run(d, ret, v, body, m1, m2, r1)
            && function_started(n0.writer@, name, m1) && m1.stack_pointer == ret_start(ret) + np && v.outer is None
            && match r1 {
            Err(_) => r == r1 && n1 == m2,
            Ok(()) => if m2.stack_pointer < ret_start(ret) {
                r matches Err(Error::StackUnderflow) && n1 == m2
            } else {
                r is Ok && n1.writer@ == m2.writer@ + ret_text((m2.stack_pointer - ret_start(ret)) as nat)
            },
        }
    }
}

/// The function `f`, defined as `name`, passes every check made before its
/// label is written: then its label is written, and `name` must be label
/// text.
pub open spec fn writes_label(d: &DefinitionTable, name: Seq<char>, f: &Function) -> bool {
    &&& name != "main"@ || main_signature_ok(f)
    &&& params_defined(d, f.params@)
    &&& match f.abi {
        crate::ast::Abi::C => {
            &&& f.body is None
            &&& f.return_type@ is Number || f.return_type@ is Void
            &&& forall|i: int| 0 <= i < f.params@.len() ==> (#[trigger] f.params@[i]).0@ is Number
        },
        crate::ast::Abi::Stucker => !f.is_variadic && f.body is Some,
    }
}

/// The compiler: the emitter and the definitions seen so far.
pub struct Codegen {
    pub nasm: Nasm,
    pub def: DefinitionTable,
}

impl Codegen {
    /// A compiler with no output and no definitions.
    pub fn new() -> (r: Self)
        ensures
            r.nasm.writer@ == Seq::<char>::empty(),
            r.nasm.rodata@ == Seq::<char>::empty(),
            r.nasm.uniq_index == 0,
            r.nasm.stack_pointer == 0,
            r.def.fns() == Seq::<(Seq<char>, crate::codegen::FnModel)>::empty(),
            r.def.structs() == Seq::<(Seq<char>, Seq<(TypeModel, Seq<char>)>)>::empty(),
    {
        Codegen { nasm: Nasm::new(), def: DefinitionTable::new() }
    }

    /// Ends the output with the data section.
    pub fn deinit(&mut self) -> (r: Result<(), Error>)
        ensures
            r is Ok,
            final(self).nasm.writer@ == old(self).nasm.writer@ + "\n"@ + "section .data\n"@ + old(self).nasm.rodata@,
            final(self).def == old(self).def,
    {
        self.nasm.finalize()
    }

    /// Starts a function: a new stack holding the return address, and the
    /// return slot below it unless the function returns `void`.
    pub fn codegen_prologue(&mut self, return_type: &ExpressionType, name: &str) -> (r: Result<(), Error>)
        requires
            crate::nasm::is_label_text(name@),
        ensures
            final(self).def == old(self).def,
            old(self).nasm.labels_left(1) ==> {
                &&& r is Ok
                &&& final(self).nasm.writer@ == old(self).nasm.writer@ + "\n"@ + crate::nasm::label("_"@ + name@)
                &&& final(self).nasm.stack_pointer == ret_start(return_type@)
                &&& final(self).nasm.uniq_index == old(self).nasm.uniq_index + 1
                &&& final(self).nasm.rodata@ == old(self).nasm.rodata@
            },
            !old(self).nasm.labels_left(1) ==> r matches Err(Error::LimitExceeded),
            grows(old(self).nasm, final(self).nasm),
    {
        let ghost n0 = self.nasm;
        let _ = self.nasm.new_stack();
        let r = self.nasm.global_label(name);
        proof {
            if r is Ok {
                crate::nasm::lemma_extend(n0.writer@, "\n"@, crate::nasm::label("_"@ + name@));
            }
            lemma_grows_prefix(n0, self.nasm);
        }
        match r {
            Ok(_) => {},
            Err(e) => return Err(e),
        }
        if !return_type.is_void_type() {
            let _ret_idx = self.nasm.push_supress();
        }
        let _rax_idx = self.nasm.push_supress();
        Ok(())
    }

    /// The body of `resize(&x, n)`: turns the reference into an address,
    /// reads the new size and resizes the item.
    #[verifier::rlimit(40)]
    #[verifier::spinoff_prover]
    fn codegen_resize(&mut self, p: Vec<Index>) -> (r: Result<(), Error>)
        requires
            p.len() == 2,
        ensures
            final(self).def == old(self).def,
            grows(old(self).nasm, final(self).nasm),
            final(self).nasm.stack_pointer == old(self).nasm.stack_pointer,
            r is Err ==> is_limit_error(r->Err_0),
            addressable(p@[0]@, old(self).nasm.stack_pointer) && addressable(p@[1]@, old(self).nasm.stack_pointer)
                && old(self).nasm.labels_left(7) ==> {
                &&& r is Ok
                &&& final(self).nasm.writer@ == old(self).nasm.writer@ + resize_call_text(
                    item_of(p@[0]@),
                    item_of(p@[1]@),
                    old(self).nasm.stack_pointer,
                    old(self).nasm.uniq_index as nat,
                )
                &&& final(self).nasm.uniq_index == old(self).nasm.uniq_index + 7
                &&& final(self).nasm.rodata@ == old(self).nasm.rodata@
            },
            addressable(p@[0]@, old(self).nasm.stack_pointer) && addressable(p@[1]@, old(self).nasm.stack_pointer)
                && !old(self).nasm.labels_left(7) ==> r matches Err(Error::LimitExceeded),
    {
        let ghost n0 = self.nasm;
        proof { lemma_grows_refl(n0); }
        let ptr_idx = &p[0];
        let size_idx = &p[1];
        match self.nasm.idx2addr("rbx", ptr_idx) {
            Ok(()) => {},
            Err(e) => return Err(e),
        }
        proof { lemma_grows_then(n0, n0, self.nasm); }
        let ghost m1 = self.nasm;
        match self.nasm.ref2addr() {
            Ok(()) => {},
            Err(e) => return Err(e),
        }
        proof { lemma_grows_then(n0, m1, self.nasm); }
        let ghost m2 = self.nasm;
        self.nasm.emit(owned("mov rbx, rsi"));
        proof { lemma_grows_trans(n0, m2, self.nasm); }
        let ghost m3 = self.nasm;
        match self.nasm.idx2addr("rdx", size_idx) {
            Ok(()) => {},
            Err(e) => return Err(e),
        }
        proof { lemma_grows_then(n0, m3, self.nasm); }
        let ghost m4 = self.nasm;
        self.nasm.emit(owned("mov rdx, [rdx+8]"));
        let ghost m5 = self.nasm;
        self.nasm.emit(owned("add rdx, 8"));
        proof {
            lemma_grows_trans(n0, m4, m5);
            lemma_grows_trans(n0, m5, self.nasm);
        }
        let ghost m6 = self.nasm;
        match self.nasm.resize_impl() {
            Ok(()) => {},
            Err(e) => return Err(e),
        }
        proof {
            lemma_grows_then(n0, m6, self.nasm);
            let sp = n0.stack_pointer;
            let u = n0.uniq_index as nat;
            let pi = item_of(p@[0]@);
            let qi = item_of(p@[1]@);
            let a = idx2addr_text("rbx"@, pi.0, pi.1, sp);
            let b = ref2addr_text(u);
            let c = line("mov rbx, rsi"@);
            let d = idx2addr_text("rdx"@, qi.0, qi.1, sp);
            let e = line("mov rdx, [rdx+8]"@);
            let f = line("add rdx, 8"@);
            let g = resize_text(u + 1);
            crate::nasm::lemma_extend7(n0.writer@, a, b, c, d, e, f, g);
            reveal(resize_call_text);
        }
        Ok(())
    }

    /// Writes a function whose body the compiler provides, and registers it.
    #[verifier::rlimit(30)]
    #[verifier::spinoff_prover]
    pub fn codegen_builtin(&mut self, name: String, return_type: ExpressionType, params: Vec<ExpressionType>, body: Builtin) -> (r: Result<(), Error>)
        requires
            crate::nasm::is_label_text(name@),
            body is Resize ==> params.len() == 2,
        ensures
            grows(old(self).nasm, final(self).nasm),
            r is Ok ==> final(self).def.lookup_fn(name@) == Some(FnModel::Stucker { ret: return_type@, params: types_view(params@) }),
            r is Ok ==> forall|k: Seq<char>| k != name@ ==> final(self).def.lookup_fn(k) == old(self).def.lookup_fn(k),
            final(self).def.structs() == old(self).def.structs(),
            r is Err ==> is_limit_error(r->Err_0),
            old(self).nasm.labels_left(8) ==> {
                &&& r is Ok
                &&& final(self).nasm.writer@ == old(self).nasm.writer@ + builtin_text(
                    name@,
                    return_type@,
                    params.len() as nat,
                    body,
                    old(self).nasm.uniq_index as nat,
                )
                &&& final(self).nasm.uniq_index == old(self).nasm.uniq_index + 8
                &&& final(self).nasm.rodata@ == old(self).nasm.rodata@
            },
            !old(self).nasm.labels_left(8) ==> r matches Err(Error::LimitExceeded),
    {
        let ghost n0 = self.nasm;
        self.codegen_prologue(&return_type, name.as_str())?;
        let ghost m0 = self.nasm;
        let mut param_idxs: Vec<Index> = Vec::new();
        let mut i: usize = 0;
        while i < params.len()
            invariant
                i <= params.len(),
                param_idxs@.len() == i,
                self.nasm.stack_pointer == m0.stack_pointer + i,
                self.nasm.writer@ == m0.writer@,
                self.nasm.rodata@ == m0.rodata@,
                self.nasm.uniq_index == m0.uniq_index,
                self.def == old(self).def,
                m0.stack_pointer == ret_start(return_type@),
                grows(n0, m0),
                n0 == old(self).nasm,
                forall|j: int| 0 <= j < i ==> (#[trigger] param_idxs@[j])@ == Some(((m0.stack_pointer + j) as u16, Seq::<u16>::empty())),
                params.len() == 2,
            decreases params.len() - i,
        {
            if self.nasm.stack_pointer == u16::MAX {
                proof { lemma_grows_then(n0, m0, self.nasm); }
                return Err(Error::LimitExceeded);
            }
            param_idxs.push(self.nasm.push_supress());
            i = i + 1;
        }
        let ghost m1 = self.nasm;
        proof { lemma_grows_then(n0, m0, m1); }
        self.def.insert_function(name, DefinedFunction::Stucker(StuckerFunction { return_type: return_type.clone(), params }));
        let r = match body {
            Builtin::Resize => self.codegen_resize(param_idxs),
        };
        proof { lemma_grows_trans(n0, m1, self.nasm); }
        match r {
            Ok(()) => {},
            Err(e) => return Err(e),
        }
        let ghost m2 = self.nasm;
        let _ = self.nasm.ret(&return_type);
        proof {
            lemma_grows_then(n0, m2, self.nasm);
            if n0.labels_left(8) {
                let w0 = n0.writer@;
                let l = "\n"@ + label("_"@ + name@);
                let rs = ret_start(return_type@);
                let b = resize_call_text((rs, Seq::empty()), ((rs + 1) as u16, Seq::empty()), (rs + 2) as u16, (n0.uniq_index + 1) as nat);
                let t = ret_text(params.len() as nat);
                crate::nasm::lemma_extend(w0, "\n"@, label("_"@ + name@));
                crate::nasm::lemma_extend(w0, l, b);
                crate::nasm::lemma_extend(w0, l + b, t);
                reveal(builtin_text);
            }
        }
        Ok(())
    }

    /// Writes the runtime routines `copy_addr` and `ref2addr` and the
    /// builtin `resize`.
    #[verifier::rlimit(40)]
    #[verifier::spinoff_prover]
    pub fn codegen_stdlib(&mut self) -> (r: Result<(), Error>)
        ensures
            grows(old(self).nasm, final(self).nasm),
            r is Ok ==> final(self).def.lookup_fn("resize"@) == Some(resize_model()),
            r is Ok ==> forall|k: Seq<char>| k != "resize"@ ==> final(self).def.lookup_fn(k) == old(self).def.lookup_fn(k),
            final(self).def.structs() == old(self).def.structs(),
            r is Err ==> is_limit_error(r->Err_0),
            old(self).nasm.labels_left(24) ==> {
                &&& r is Ok
                &&& final(self).nasm.writer@ == old(self).nasm.writer@ + stdlib_text(old(self).nasm.uniq_index as nat)
                &&& final(self).nasm.uniq_index == old(self).nasm.uniq_index + 24
                &&& final(self).nasm.rodata@ == old(self).nasm.rodata@
            },
            !old(self).nasm.labels_left(24) ==> r matches Err(Error::LimitExceeded),
    {
        let ghost n0 = self.nasm;
        proof {
            reveal_strlit("copy_addr");
            reveal_strlit("ref2addr");
            reveal_strlit("resize");
        }
        let _ = self.nasm.new_stack();
        self.nasm.newline();
        proof { lemma_grows_then(n0, n0, self.nasm); }
        let ghost m1 = self.nasm;
        self.nasm.raw_label("copy_addr")?;
        proof { lemma_grows_then(n0, m1, self.nasm); }
        let ghost m2 = self.nasm;
        self.nasm.copy_addr_impl()?;
        proof { lemma_grows_then(n0, m2, self.nasm); }
        let ghost m3 = self.nasm;
        self.nasm.emit(owned("jmp rax"));
        proof { lemma_grows_trans(n0, m3, self.nasm); }
        let _ = self.nasm.new_stack();
        let ghost m4 = self.nasm;
        self.nasm.newline();
        proof { lemma_grows_then(n0, m4, self.nasm); }
        let ghost m5 = self.nasm;
        self.nasm.raw_label("ref2addr")?;
        proof { lemma_grows_then(n0, m5, self.nasm); }
        let ghost m6 = self.nasm;
        self.nasm.ref2addr_impl()?;
        proof { lemma_grows_then(n0, m6, self.nasm); }
        let ghost m7 = self.nasm;
        self.nasm.emit(owned("jmp rax"));
        proof { lemma_grows_trans(n0, m7, self.nasm); }
        let mut params: Vec<ExpressionType> = Vec::new();
        params.push(ExpressionType::Ref(Box::new(ExpressionType::Void)));
        params.push(ExpressionType::Number(NumberType::U64));
        let ghost m8 = self.nasm;
        let r = self.codegen_builtin(owned("resize"), ExpressionType::Void, params, Builtin::Resize);
        proof {
            if n0.labels_left(24) {
                let u = n0.uniq_index as nat;
                let a = "\n"@;
                let b = label("copy_addr"@);
                let c = copy_addr_impl_text(u + 1, 0);
                let d = line("jmp rax"@);
                let e = "\n"@;
                let f = label("ref2addr"@);
                let g = ref2addr_impl_text(u + 10);
                let h = line("jmp rax"@);
                let i = builtin_text("resize"@, TypeModel::Void, 2, Builtin::Resize, u + 16);
                crate::nasm::lemma_extend7(n0.writer@, a, b, c, d, e, f, g);
                crate::nasm::lemma_extend(n0.writer@, a + b + c + d + e + f + g, h);
                crate::nasm::lemma_extend(n0.writer@, a + b + c + d + e + f + g + h, i);
                reveal(stdlib_text);
            }
            lemma_grows_trans(n0, m8, self.nasm);
            assert(types_view(params@) =~= seq![TypeModel::Ref(Box::new(TypeModel::Void)), TypeModel::Number(NumberType::U64)]);
        }
        r
    }

    /// Starts the program: the entry point calls `main` and exits with its
    /// result; then the runtime routines follow.
    #[verifier::rlimit(100)]
    #[verifier::spinoff_prover]
    pub fn init(&mut self) -> (r: Result<(), Error>)
        ensures
            grows(old(self).nasm, final(self).nasm),
            r is Ok ==> (old(self).nasm.writer@ + line("global main"@) + line("section .text"@) + crate::nasm::label(
                "main"@,
            ) + line("mov rbp, 0"@)).is_prefix_of(final(self).nasm.writer@),
            r is Ok ==> final(self).def.lookup_fn("resize"@) == Some(resize_model()),
            r is Ok ==> forall|k: Seq<char>| k != "resize"@ ==> final(self).def.lookup_fn(k) == old(self).def.lookup_fn(k),
            final(self).def.structs() == old(self).def.structs(),
            r is Err ==> is_limit_error(r->Err_0),
            old(self).nasm.labels_left(26) && old(self).nasm.items_left(2) ==> (r is Ok && final(self).nasm.writer@
                == old(self).nasm.writer@ + init_text(old(self).nasm.stack_pointer, old(self).nasm.uniq_index as nat)),
    {
        let ghost n0 = self.nasm;
        let ghost d0 = self.def;
        self.nasm.emit(owned("global main"));
        self.nasm.emit(owned("section .text"));
        proof { reveal_strlit("main"); }
        let ghost m1 = self.nasm;
        match self.nasm.raw_label("main") {
            Ok(()) => {},
            Err(e) => {
                proof { lemma_grows_then(n0, m1, self.nasm); lemma_grows_prefix(n0, m1); lemma_grows_trans(n0, m1, self.nasm); }
                return Err(e);
            },
        }
        self.nasm.emit(owned("mov rbp, 0"));
        let ghost head = self.nasm.writer@;
        proof {
            assert(head =~= n0.writer@ + line("global main"@) + line("section .text"@) + crate::nasm::label("main"@) + line("mov rbp, 0"@));
            lemma_grows_prefix(n0, self.nasm);
        }
        let ghost m2 = self.nasm;
        let var = VarTable::new(None);
        let func = DefinedFunction::Stucker(StuckerFunction { return_type: ExpressionType::Number(NumberType::I32), params: Vec::new() });
        let mut nasm = Nasm::new();
        core::mem::swap(&mut nasm, &mut self.nasm);
        let mut fc = FunctionCodegen::new(nasm, &var, &self.def);
        let no_args: Vec<Expression> = Vec::new();
        proof {
            assert(no_args@ =~= Seq::<Expression>::empty());
        }
        proof {
            assert(types_view(Seq::<ExpressionType>::empty()) =~= Seq::<TypeModel>::empty());
            assert(func@ == FnModel::Stucker { ret: TypeModel::Number(NumberType::I32), params: Seq::empty() });
        }
        let r = fc.codegen_call(&func, owned("main"), no_args);
        self.nasm = fc.nasm;
        proof {
            lemma_grows_trans(n0, m2, self.nasm);
        }
        let (_, idx) = match r {
            Ok(x) => x,
            Err(e) => {
                proof {
                    let ts = Seq::<TypeModel>::empty();
                    assert(crate::expr::args_typed(&self.def, var@, Seq::<Expression>::empty()) == Some(ts));
                    assert(alloc_top_spec(&self.def, TypeModel::Number(NumberType::I32)) is Some);
                }
                return Err(e);
            },
        };
        let ghost m3 = self.nasm;
        match self.nasm.idx2addr("rbx", &idx) {
            Ok(()) => {},
            Err(e) => return Err(e),
        }
        proof { lemma_grows_then(n0, m3, self.nasm); }
        let ghost m4 = self.nasm;
        self.nasm.emit(owned("mov ebx, [rbx+8]"));
        let ghost m5 = self.nasm;
        self.nasm.emit(owned("mov eax, 1"));
        let ghost m6 = self.nasm;
        self.nasm.emit(owned("int 0x80"));
        proof {
            lemma_grows_trans(n0, m4, m5);
            lemma_grows_trans(n0, m5, m6);
            lemma_grows_trans(n0, m6, self.nasm);
        }
        let ghost m7 = self.nasm;
        let r = self.codegen_stdlib();
        proof {
            if n0.labels_left(26) && n0.items_left(2) {
                let s0 = n0.stack_pointer;
                let u = n0.uniq_index as nat;
                let w0 = n0.writer@;
                let h1 = line("global main"@);
                let h2 = line("section .text"@);
                let h3 = label("main"@);
                let h4 = line("mov rbp, 0"@);
                let c = crate::expr::stucker_call_text(&d0, TypeModel::Number(NumberType::I32), Seq::empty(), s0, "main"@, u + 1);
                crate::expr::lemma_no_arg_call_text(&d0, s0, "main"@, u + 1);
                let a = idx2addr_text("rbx"@, s0, Seq::empty(), (s0 + 1) as u16);
                let l1 = line("mov ebx, [rbx+8]"@);
                let l2 = line("mov eax, 1"@);
                let l3 = line("int 0x80"@);
                let st = stdlib_text(u + 2);
                crate::nasm::lemma_extend10(w0, h1, h2, h3, h4, c, a, l1, l2, l3, st);
                reveal(init_text);
            }
            lemma_grows_trans(n0, m7, self.nasm);
            assert(head.is_prefix_of(m2.writer@));
            assert(m2.writer@.is_prefix_of(self.nasm.writer@)) by {
                lemma_grows_trans(m2, m2, self.nasm);
            }
        }
        r
    }

    /// Compiles one top-level definition: registers a struct, or registers
    /// a function and writes its code (a jump to the C symbol for a C
    /// function, the compiled body for a Stucker function that has one).
    #[verifier::rlimit(30)]
    #[verifier::spinoff_prover]
    pub fn codegen(&mut self, name: String, value: GlobalValue) -> (r: Result<(), Error>)
        requires
            value matches GlobalValue::Function(f) ==> (writes_label(&old(self).def, name@, &f)
                ==> crate::nasm::is_label_text(name@)),
        ensures
            grows(old(self).nasm, final(self).nasm),
            value matches GlobalValue::Struct(st) ==> {
                &&& r is Ok
                &&& final(self).def.lookup_struct(name@) == Some(crate::codegen::fields_view(st.0@))
                &&& forall|k: Seq<char>| k != name@ ==> final(self).def.lookup_struct(k) == old(self).def.lookup_struct(k)
                &&& final(self).def.fns() == old(self).def.fns()
                &&& final(self).nasm == old(self).nasm
            },
            value matches GlobalValue::Function(f) ==> {
                &&& final(self).def.structs() == old(self).def.structs()
                &&& forall|k: Seq<char>| k != name@ ==> final(self).def.lookup_fn(k) == old(self).def.lookup_fn(k)
                &&& (name@ == "main"@ && !main_signature_ok(&f)) ==> ((r matches Err(Error::MainInvalidSignature))
                    && final(self).nasm == old(self).nasm && final(self).def == old(self).def)
                &&& (name@ != "main"@ || main_signature_ok(&f)) && !params_defined(&old(self).def, f.params@) ==> ((r matches Err(
                    Error::UnknownType(_),
                )) && final(self).def == old(self).def)
                &&& r is Ok ==> {
                    &&& final(self).def.lookup_fn(name@) == Some(fn_model(&f))
                    &&& name@ == "main"@ ==> main_signature_ok(&f)
                    &&& params_defined(&old(self).def, f.params@)
                }
                &&& (name@ != "main"@ || main_signature_ok(&f)) && params_defined(&old(self).def, f.params@) && f.abi is C
                    && f.body is Some ==> (r matches Err(Error::ExternFunctionBody))
                &&& (name@ != "main"@ || main_signature_ok(&f)) && params_defined(&old(self).def, f.params@)
                    && f.abi is Stucker && f.is_variadic ==> (r matches Err(Error::VariadicStuckerFunction))
                &&& f.abi is C && r is Ok ==> (f.return_type@ is Number || f.return_type@ is Void) && (forall|i: int|
                    0 <= i < f.params@.len() ==> (#[trigger] f.params@[i]).0@ is Number)
                    && final(self).nasm.writer@ == old(self).nasm.writer@ + extern_text(name@)
                &&& f.abi is Stucker && f.body is None && r is Ok ==> final(self).nasm == old(self).nasm
                &&& (name@ != "main"@ || main_signature_ok(&f)) && params_defined(&old(self).def, f.params@)
                    && f.abi is Stucker && !f.is_variadic && f.body is None ==> r is Ok
                &&& writes_label(&old(self).def, name@, &f) && f.abi is C && old(self).nasm.labels_left(1) ==> r is Ok
                &&& f.body matches Some(b) ==> (writes_label(&old(self).def, name@, &f) && f.abi is Stucker
                    ==> function_run(
                    &final(self).def,
                    name@,
                    f.return_type@,
                    f.params@.len(),
                    b@,
                    old(self).nasm,
                    final(self).nasm,
                    r,
                ))
                &&& f.abi is Stucker && f.body is Some && r is Ok ==> exists|b: Seq<char>, k: nat| #[trigger] function_code(
                    old(self).nasm.writer@,
                    name@,
                    b,
                    k,
                    final(self).nasm.writer@,
                )
            },
    {
        let ghost n0 = self.nasm;
        proof { lemma_grows_refl(n0); }
        match value {
            GlobalValue::Function(function) => {
                let ghost f = function;
                let Function { return_type, params, body, abi, is_variadic } = function;
                if crate::expr::str_is(&name, "main") {
                    let i32_ty = ExpressionType::Number(NumberType::I32);
                    if !return_type.same(&i32_ty) {
                        return Err(Error::MainInvalidSignature);
                    }
                    if params.len() != 0 {
                        return Err(Error::MainInvalidSignature);
                    }
                    if is_variadic {
                        return Err(Error::MainInvalidSignature);
                    }
                }
                let mut i: usize = 0;
                while i < params.len()
                    invariant
                        i <= params.len(),
                        params == f.params,
                        forall|j: int| 0 <= j < i ==> ((#[trigger] params@[j]).0@ matches TypeModel::Struct(n) ==> self.def.lookup_struct(n) is Some),
                        *self == *old(self),
                        value == GlobalValue::Function(f),
                        name@ != "main"@ || main_signature_ok(&f),
                    decreases params.len() - i,
                {
                    if let ExpressionType::Struct(struc) = &params[i].0 {
                        match self.def.get_struct(struc.as_str()) {
                            Ok(_) => {},
                            Err(e) => return Err(e),
                        }
                    }
                    i = i + 1;
                }
                match abi {
                    crate::ast::Abi::C => {
                        if body.is_some() {
                            return Err(Error::ExternFunctionBody);
                        }
                        let c_ret = match &return_type {
                            ExpressionType::Number(n) => Some(*n),
                            ExpressionType::Void => None,
                            _ => return Err(Error::ExternCInvalidParameter),
                        };
                        let mut c_params: Vec<NumberType> = Vec::new();
                        let mut j: usize = 0;
                        while j < params.len()
                            invariant
                                j <= params.len(),
                                params == f.params,
                                c_params@.len() == j,
                                *self == *old(self),
                                value == GlobalValue::Function(f),
                                name@ != "main"@ || main_signature_ok(&f),
                                params_defined(&old(self).def, f.params@),
                                f.body is None,
                                f.abi is C,
                                f.return_type@ is Number || f.return_type@ is Void,
                                forall|k: int| 0 <= k < j ==> (#[trigger] params@[k]).0@ is Number && c_params@[k] == params@[k].0@->Number_0,
                            decreases params.len() - j,
                        {
                            match &params[j].0 {
                                ExpressionType::Number(n) => c_params.push(*n),
                                _ => return Err(Error::ExternCInvalidParameter),
                            }
                            j = j + 1;
                        }
                        proof {
                            assert(c_params@ =~= f.params@.map_values(|p: (ExpressionType, String)| p.0@->Number_0));
                        }
                        self.def.insert_function(name.clone(), DefinedFunction::C(CFunction { return_type: c_ret, params: c_params, is_variadic }));
                        let ghost w0 = self.nasm.writer@;
                        self.nasm.writer.append("\nextern ");
                        self.nasm.writer.append(name.as_str());
                        self.nasm.writer.append("\n");
                        let ghost m1 = self.nasm;
                        proof {
                            assert(m1.writer@ =~= w0 + ("\nextern "@ + name@ + "\n"@));
                            lemma_grows_prefix(n0, m1);
                        }
                        match self.nasm.global_label(name.as_str()) {
                            Ok(_) => {},
                            Err(e) => return Err(e),
                        }
                        proof { lemma_grows_then(n0, m1, self.nasm); }
                        let ghost m2 = self.nasm;
                        self.nasm.emit(crate::nasm::cat(owned("jmp "), name.as_str()));
                        proof {
                            lemma_grows_trans(n0, m2, self.nasm);
                            assert(self.nasm.writer@ =~= n0.writer@ + extern_text(name@));
                        }
                        Ok(())
                    },
                    crate::ast::Abi::Stucker => {
                        if is_variadic {
                            return Err(Error::VariadicStuckerFunction);
                        }
                        let mut ptypes: Vec<ExpressionType> = Vec::new();
                        let mut j: usize = 0;
                        while j < params.len()
                            invariant
                                j <= params.len(),
                                params == f.params,
                                ptypes@.len() == j,
                                forall|k: int| 0 <= k < j ==> (#[trigger] ptypes@[k])@ == params@[k].0@,
                            decreases params.len() - j,
                        {
                            ptypes.push(params[j].0.clone());
                            j = j + 1;
                        }
                        proof {
                            assert(types_view(ptypes@) =~= f.params@.map_values(|p: (ExpressionType, String)| p.0@));
                        }
                        self.def.insert_function(name.clone(), DefinedFunction::Stucker(StuckerFunction { return_type: return_type.clone(), params: ptypes }));
                        match body {
                            Some(body) => self.codegen_function_body(&return_type, name, params, body),
                            None => Ok(()),
                        }
                    },
                }
            },
            GlobalValue::Struct(struc) => {
                let fields = struc.0;
                self.def.insert_struct(name, DefinedStruct { fields });
                Ok(())
            },
        }
    }

    /// The code of a Stucker function: its prologue, its parameters bound to
    /// the items the caller pushed, its statements and the return.
    #[verifier::rlimit(30)]
    #[verifier::spinoff_prover]
    fn codegen_function_body(&mut self, return_type: &ExpressionType, name: String, params: Vec<(ExpressionType, String)>, body: Vec<Statement>) -> (r: Result<(), Error>)
        requires
            crate::nasm::is_label_text(name@),
        ensures
            grows(old(self).nasm, final(self).nasm),
            final(self).def == old(self).def,
            r is Ok ==> exists|b: Seq<char>, k: nat| #[trigger] function_code(
                old(self).nasm.writer@,
                name@,
                b,
                k,
                final(self).nasm.writer@,
            ),
            old(self).nasm.labels_left(1) ==> exists|m: Nasm| #[trigger] function_started(old(self).nasm.writer@, name@, m)
                && grows(m, final(self).nasm),
            !old(self).nasm.labels_left(1) ==> r matches Err(Error::LimitExceeded),
            function_run(&old(self).def, name@, return_type@, params@.len(), body@, old(self).nasm, final(self).nasm, r),
    {
        let ghost n0 = self.nasm;
        let ghost nm = name@;
        let ghost bg = body@;
        self.codegen_prologue(return_type, name.as_str())?;
        let ghost m0 = self.nasm;
        proof {
            assert(function_started(n0.writer@, nm, m0));
            lemma_grows_refl(m0);
        }
        let mut var = VarTable::new(None);
        let mut i: usize = 0;
        while i < params.len()
            invariant
                i <= params.len(),
                self.nasm.writer@ == m0.writer@,
                self.nasm.rodata@ == m0.rodata@,
                self.nasm.uniq_index == m0.uniq_index,
                self.def == old(self).def,
                grows(n0, m0),
                n0 == old(self).nasm,
                function_started(n0.writer@, name@, m0),
                n0.labels_left(1),
                self.nasm.stack_pointer == ret_start(return_type@) + i,
                var@.outer is None,
            decreases params.len() - i,
        {
            if self.nasm.stack_pointer == u16::MAX {
                proof {
                    lemma_grows_then(n0, m0, self.nasm);
                    lemma_grows_refl(m0);
                    lemma_grows_then(m0, m0, self.nasm);
                }
                return Err(Error::LimitExceeded);
            }
            let idx = self.nasm.push_supress();
            var.insert(params[i].1.clone(), params[i].0.clone(), idx);
            i = i + 1;
        }
        let ghost m1 = self.nasm;
        proof {
            lemma_grows_then(n0, m0, m1);
            lemma_grows_refl(m0);
            lemma_grows_then(m0, m0, m1);
        }
        let ghost vb = var@;
        proof {
            assert(function_started(n0.writer@, nm, m1));
        }
        let r = self.codegen_block(return_type, &mut var, body);
        proof {
            lemma_grows_trans(n0, m1, self.nasm);
            lemma_grows_trans(m0, m1, self.nasm);
            assert(block_run(&self.def, return_type@, vb, bg, m1, self.nasm, r));
        }
        match r {
            Ok(()) => {},
            Err(e) => return Err(e),
        }
        let start: u16 = if !return_type.is_void_type() {
            2
        } else {
            1
        };
        if self.nasm.stack_pointer < start {
            return Err(Error::StackUnderflow);
        }
        let ghost m2 = self.nasm;
        let _ = self.nasm.ret(return_type);
        proof {
            lemma_grows_then(n0, m2, self.nasm);
            lemma_grows_then(m0, m2, self.nasm);
            crate::nasm::lemma_written(m1, m2);
            assert(function_code(
                n0.writer@,
                nm,
                crate::nasm::written(m1, m2),
                (m2.stack_pointer - ret_start(return_type@)) as nat,
                self.nasm.writer@,
            ));
        }
        Ok(())
    }

    /// Generates code for an expression in the scope `var`.
    fn codegen_expr_in(&mut self, var: &VarTable, e: Expression) -> (r: Result<(ExpressionType, Index), Error>)
        ensures
            final(self).def == old(self).def,
            grows(old(self).nasm, final(self).nasm),
            final(self).nasm.stack_pointer >= old(self).nasm.stack_pointer,
            r matches Ok((t, _)) ==> typed(&old(self).def, var@, &e) == Some(t@),
            typed(&old(self).def, var@, &e) is Some && r is Err ==> is_limit_error(r->Err_0),
            expr_code(&old(self).def, var@, e, old(self).nasm, final(self).nasm, r),
    {
        let mut nasm = Nasm::new();
        core::mem::swap(&mut nasm, &mut self.nasm);
        let mut fc = FunctionCodegen::new(nasm, var, &self.def);
        let r = fc.codegen_expression(e);
        self.nasm = fc.nasm;
        r
    }

    /// Evaluates a condition (an integer) and compares it with zero; the
    /// value is popped again.
    #[verifier::rlimit(30)]
    #[verifier::spinoff_prover]
    pub fn codegen_cmp(&mut self, var: &mut VarTable, cond: Expression) -> (r: Result<(), Error>)
        ensures
            final(self).def == old(self).def,
            *final(var) == *old(var),
            grows(old(self).nasm, final(self).nasm),
            r is Ok ==> (typed(&old(self).def, old(var)@, &cond) matches Some(TypeModel::Number(n)) && !n.is_float()
                && final(self).nasm.stack_pointer == old(self).nasm.stack_pointer),
            r is Err ==> final(self).nasm.stack_pointer >= old(self).nasm.stack_pointer,
            (typed(&old(self).def, old(var)@, &cond) matches Some(TypeModel::Number(n)) && !n.is_float()) && r is Err
                ==> is_limit_error(r->Err_0),
            r is Ok ==> exists|c: Seq<char>| #[trigger] tests_condition(old(self).nasm.writer@, c, final(self).nasm.writer@),
            r matches Err(e) ==> condition_failed(&old(self).def, old(var)@, cond, old(self).nasm, e),
            condition_run(&old(self).def, old(var)@, cond, old(self).nasm, final(self).nasm, r),
    {
        let ghost n0 = self.nasm;
        let ptr = self.nasm.stack_pointer;
        let ghost cg = cond;
        let r0 = self.codegen_expr_in(var, cond);
        let ghost n1 = self.nasm;
        let ghost r0g = r0;
        proof {
            assert(expr_code(&self.def, var@, cg, n0, n1, r0g));
        }
        let (expr_ty, expr_idx) = match r0 {
            Ok(x) => x,
            Err(e) => return Err(e),
        };
        let ghost xi = expr_idx@;
        let n = match expr_ty.to_number() {
            Ok(n) => n,
            Err(e) => return Err(e),
        };
        let mut nasm = Nasm::new();
        core::mem::swap(&mut nasm, &mut self.nasm);
        let mut fc = FunctionCodegen::new(nasm, var, &self.def);
        let r = fc.mov_num((n, expr_idx), "bl", "bx", "ebx", "rbx", "rcx");
        self.nasm = fc.nasm;
        proof { lemma_grows_trans(n0, n1, self.nasm); }
        match r {
            Ok(()) => {},
            Err(e) => {
                proof {
                    assert(!addressable(xi, n1.stack_pointer) || n.is_float());
                }
                return Err(e);
            },
        }
        let ghost n2 = self.nasm;
        let _ = self.nasm.pop_until(ptr);
        proof {
            lemma_grows_prefix(n2, self.nasm);
            lemma_grows_trans(n0, n2, self.nasm);
        }
        let ghost n3 = self.nasm;
        self.nasm.emit(owned("cmp rbx, 0"));
        proof {
            lemma_grows_trans(n0, n3, self.nasm);
            crate::nasm::lemma_written(n0, n3);
            assert(tests_condition(n0.writer@, crate::nasm::written(n0, n3), self.nasm.writer@));
        }
        Ok(())
    }

    /// `def T name = value;` binds `name` to the value's item; `def T name;`
    /// allocates a fresh item of type `T`.
    #[verifier::rlimit(30)]
    #[verifier::spinoff_prover]
    pub fn codegen_def_assignment(&mut self, var: &mut VarTable, assignment: DefAssignment) -> (r: Result<(), Error>)
        ensures
            final(self).def == old(self).def,
            grows(old(self).nasm, final(self).nasm),
            final(self).nasm.stack_pointer >= old(self).nasm.stack_pointer,
            final(var)@.outer == old(var)@.outer,
            forall|k: Seq<char>| k != assignment.var_name@ ==> lookup(final(var)@.data, k) == lookup(old(var)@.data, k),
            r is Err ==> *final(var) == *old(var),
            r is Ok ==> (lookup(final(var)@.data, assignment.var_name@) matches Some((t, i)) && t
                == assignment.var_type@ && match assignment.var_value {
                Some(e) => typed(&old(self).def, old(var)@, &e) == Some(assignment.var_type@),
                None => alloc_top_spec(&old(self).def, assignment.var_type@) is Some && i == Some(
                    (old(self).nasm.stack_pointer, Seq::<u16>::empty()),
                ),
            }),
            assignment.var_value matches Some(e) ==> (typed(&old(self).def, old(var)@, &e) matches Some(t) ==> (t
                != assignment.var_type@ ==> (r is Err && (is_limit_error(r->Err_0) || (r matches Err(
                Error::TypeMismatch(x, y)) && x@ == assignment.var_type@ && y@ == t))))),
            (match assignment.var_value {
                Some(e) => typed(&old(self).def, old(var)@, &e) == Some(assignment.var_type@),
                None => alloc_top_spec(&old(self).def, assignment.var_type@) is Some,
            }) && r is Err ==> is_limit_error(r->Err_0),
            assignment.var_value is None && r is Ok ==> (alloc_top_spec(&old(self).def, assignment.var_type@) matches Some(
                (_, t),
            ) && final(self).nasm.writer@ == old(self).nasm.writer@ + t && final(self).nasm.stack_pointer
                == old(self).nasm.stack_pointer + 1),
            assignment.var_value is None && (alloc_top_spec(&old(self).def, assignment.var_type@) matches Some((m, _))
                && m <= u16::MAX) && old(self).nasm.items_left(1) ==> r is Ok,
            def_run(&old(self).def, old(var)@, assignment, old(self).nasm, final(self).nasm, r),
    {
        let ghost n0 = self.nasm;
        let ghost v0 = var@;
        let DefAssignment { var_type, var_name, var_value } = assignment;
        let idx = match var_value {
            Some(expr) => {
                let ghost eg = expr;
                let re = self.codegen_expr_in(var, expr);
                proof { assert(expr_code(&self.def, v0, eg, n0, self.nasm, re)); }
                let (expr_type, expr_idx) = match re {
                    Ok(p) => p,
                    Err(e) => return Err(e),
                };
                if !expr_type.same(&var_type) {
                    return Err(Error::TypeMismatch(var_type, expr_type));
                }
                expr_idx
            },
            None => {
                let r = self.def.allocate(&mut self.nasm, &var_type);
                proof { lemma_grows_prefix(n0, self.nasm); }
                match r {
                    Ok(i) => i,
                    Err(e) => return Err(e),
                }
            },
        };
        var.insert(var_name, var_type, idx);
        Ok(())
    }

    /// `set dest = src;` copies the source over the destination (resizing
    /// it); with `*` the destination is the item a reference points to.
    #[verifier::rlimit(30)]
    #[verifier::spinoff_prover]
    pub fn codegen_set_assignment(&mut self, var: &mut VarTable, assignment: SetAssignment) -> (r: Result<(), Error>)
        ensures
            final(self).def == old(self).def,
            *final(var) == *old(var),
            grows(old(self).nasm, final(self).nasm),
            final(self).nasm.stack_pointer >= old(self).nasm.stack_pointer,
            r is Ok ==> (typed(&old(self).def, old(var)@, &assignment.var_dest) matches Some(dt) && typed(
                &old(self).def,
                old(var)@,
                &assignment.var_src,
            ) matches Some(st) && if assignment.deref {
                dt == TypeModel::Ref(Box::new(st))
            } else {
                dt == st
            }),
            (typed(&old(self).def, old(var)@, &assignment.var_dest) matches Some(dt) && typed(
                &old(self).def,
                old(var)@,
                &assignment.var_src,
            ) matches Some(st) && if assignment.deref {
                dt == TypeModel::Ref(Box::new(st))
            } else {
                dt == st
            }) && r is Err ==> is_limit_error(r->Err_0),
            r is Ok ==> exists|e: Seq<char>, d: (u16, Seq<u16>), s: (u16, Seq<u16>), sp: u16, u: usize| #[trigger] set_code(
                old(self).nasm.writer@,
                e,
                d,
                s,
                sp,
                u,
                assignment.deref,
                final(self).nasm.writer@,
            ),
            set_run(&old(self).def, old(var)@, assignment, old(self).nasm, final(self).nasm, r),
    {
        let ghost n0 = self.nasm;
        let ghost a = assignment;
        let SetAssignment { var_dest, var_src, deref } = assignment;
        let rd = self.codegen_expr_in(var, var_dest);
        let ghost n1 = self.nasm;
        proof { assert(expr_code(&self.def, var@, a.var_dest, n0, n1, rd)); }
        let (var_type, dest) = match rd {
            Ok(p) => p,
            Err(e) => return Err(e),
        };
        let rs = self.codegen_expr_in(var, var_src);
        proof { assert(expr_code(&self.def, var@, a.var_src, n1, self.nasm, rs)); }
        let (expr_type, src) = match rs {
            Ok(x) => x,
            Err(e) => {
                proof { lemma_grows_trans(n0, n1, self.nasm); }
                return Err(e);
            },
        };
        let ghost n2 = self.nasm;
        proof {
            lemma_grows_trans(n0, n1, n2);
        }
        let ghost dt = var_type@;
        let var_type = if deref {
            match var_type.to_ref() {
                Ok(t) => t,
                Err(e) => return Err(e),
            }
        } else {
            var_type
        };
        if !var_type.same(&expr_type) {
            return Err(Error::TypeMismatch(var_type, expr_type));
        }
        proof {
            if deref {
                assert(dt == TypeModel::Ref(Box::new(var_type@)));
            }
        }
        if deref {
            match self.nasm.idx2addr("rbx", &dest) {
                Ok(()) => {},
                Err(e) => return Err(e),
            }
            proof {
                lemma_grows_append(n2, self.nasm, idx2addr_text("rbx"@, dest@->Some_0.0, dest@->Some_0.1, n2.stack_pointer));
                lemma_grows_trans(n0, n2, self.nasm);
            }
            let ghost n3 = self.nasm;
            match self.nasm.ref2addr() {
                Ok(()) => {},
                Err(e) => return Err(e),
            }
            proof {
                lemma_grows_append(n3, self.nasm, ref2addr_text(n3.uniq_index as nat));
                lemma_grows_trans(n0, n3, self.nasm);
            }
            let ghost n4 = self.nasm;
            self.nasm.emit(owned("mov rdi, rsi"));
            proof { lemma_grows_trans(n0, n4, self.nasm); }
        } else {
            match self.nasm.idx2addr("rdi", &dest) {
                Ok(()) => {},
                Err(e) => return Err(e),
            }
            proof {
                lemma_grows_append(n2, self.nasm, idx2addr_text("rdi"@, dest@->Some_0.0, dest@->Some_0.1, n2.stack_pointer));
                lemma_grows_trans(n0, n2, self.nasm);
            }
        }
        let ghost n5 = self.nasm;
        match self.nasm.idx2addr("rsi", &src) {
            Ok(()) => {},
            Err(e) => return Err(e),
        }
        proof {
            lemma_grows_append(n5, self.nasm, idx2addr_text("rsi"@, src@->Some_0.0, src@->Some_0.1, n5.stack_pointer));
            lemma_grows_trans(n0, n5, self.nasm);
        }
        let ghost n6 = self.nasm;
        match self.nasm.copy_addr() {
            Ok(()) => {},
            Err(e) => return Err(e),
        }
        proof {
            lemma_grows_append(n6, self.nasm, crate::nasm::copy_addr_text(n6.uniq_index as nat));
            lemma_grows_trans(n0, n6, self.nasm);
            let sp = n2.stack_pointer;
            let dd = dest@->Some_0;
            if deref {
                crate::nasm::lemma_extend(n2.writer@, idx2addr_text("rbx"@, dd.0, dd.1, sp), ref2addr_text(n2.uniq_index as nat));
                crate::nasm::lemma_extend(
                    n2.writer@,
                    idx2addr_text("rbx"@, dd.0, dd.1, sp) + ref2addr_text(n2.uniq_index as nat),
                    line("mov rdi, rsi"@),
                );
            }
            crate::nasm::lemma_written(n0, n2);
            assert(set_code(
                n0.writer@,
                crate::nasm::written(n0, n2),
                dd,
                src@->Some_0,
                sp,
                n2.uniq_index,
                deref,
                self.nasm.writer@,
            ));
        }
        Ok(())
    }
    /// The statements of a block, in order, in the block's scope.
    #[verifier::rlimit(30)]
    #[verifier::spinoff_prover]
    fn codegen_block(&mut self, return_type: &ExpressionType, table: &mut VarTable, statements: Vec<Statement>) -> (r:
        Result<(), Error>)
        ensures
            final(self).def == old(self).def,
            grows(old(self).nasm, final(self).nasm),
            final(table)@.outer == old(table)@.outer,
            block_run(&old(self).def, return_type@, old(table)@, statements@, old(self).nasm, final(self).nasm, r),
            !any_return(statements@) && r is Ok ==> final(self).nasm.stack_pointer >= old(self).nasm.stack_pointer,
        decreases statements@, 1nat,
    {
        let ghost n0 = self.nasm;
        let ghost d0 = self.def;
        let ghost v0 = table@;
        let ghost all = statements@;
        proof { lemma_grows_refl(n0); }
        let mut stmts = statements;
        proof {
            assert(stmts@.len() == stmts.len());
        }
        let mut i: usize = 0;
        while stmts.len() > 0
            invariant
                stmts@ == all.skip(i as int),
                i <= all.len(),
                all.len() <= usize::MAX,
                all == statements@,
                self.def == old(self).def,
                d0 == old(self).def,
                v0 == old(table)@,
                n0 == old(self).nasm,
                grows(n0, self.nasm),
                table@.outer == old(table)@.outer,
                !any_return(all) ==> (!any_return(stmts@) && self.nasm.stack_pointer >= n0.stack_pointer),
                forall|n1: Nasm, rr: Result<(), Error>| #[trigger] block_run(
                    &d0,
                    return_type@,
                    table@,
                    stmts@,
                    self.nasm,
                    n1,
                    rr,
                ) ==> block_run(&d0, return_type@, v0, all, n0, n1, rr),
            decreases stmts.len(),
        {
            let ghost rest = stmts@;
            let ghost vc = table@;
            let s = stmts.remove(0);
            proof {
                assert(s == all[i as int]);
                assert(s == rest[0]);
                assert(stmts@ =~= all.skip(i + 1));
                assert(stmts@ =~= rest.skip(1));
            }
            let ghost m = self.nasm;
            let r = self.codegen_stmt(return_type, table, s);
            proof { lemma_grows_trans(n0, m, self.nasm); }
            match r {
                Ok(()) => {},
                Err(e) => {
                    proof {
                        assert(block_run(&d0, return_type@, vc, rest, m, self.nasm, r));
                    }
                    return Err(e);
                },
            }
            proof {
                let m1 = self.nasm;
                let v1 = table@;
                assert forall|n1: Nasm, rr: Result<(), Error>| #[trigger] block_run(
                    &d0,
                    return_type@,
                    v1,
                    rest.skip(1),
                    m1,
                    n1,
                    rr,
                ) implies block_run(&d0, return_type@, v0, all, n0, n1, rr) by {
                    assert(block_run(&d0, return_type@, vc, rest, m, n1, rr));
                }
            }
            i = i + 1;
        }
        proof {
            assert(block_run(&d0, return_type@, table@, stmts@, self.nasm, self.nasm, Ok(())));
        }
        Ok(())
    }

    /// A statement in a scope of its own: the scope's items are popped
    /// afterwards.
    fn codegen_scoped(&mut self, return_type: &ExpressionType, var: &VarTable, stmt: Statement) -> (r: Result<(), Error>)
        ensures
            final(self).def == old(self).def,
            grows(old(self).nasm, final(self).nasm),
            r is Ok ==> final(self).nasm.stack_pointer <= old(self).nasm.stack_pointer,
            !has_return(stmt) && r is Ok ==> final(self).nasm.stack_pointer == old(self).nasm.stack_pointer,
            exists|m: Nasm, r1: Result<(), Error>, v1: VarsModel| #[trigger] stmt_effect(
                &old(self).def,
                return_type@,
                inner_scope(var@),
                v1,
                stmt,
                old(self).nasm,
                m,
                r1,
            ) && (match r1 {
                Err(_) => r == r1 && final(self).nasm == m,
                Ok(()) => {
                    &&& r is Ok
                    &&& final(self).nasm.writer@ == m.writer@ + crate::nasm::pops_text(
                        if old(self).nasm.stack_pointer < m.stack_pointer {
                            (m.stack_pointer - old(self).nasm.stack_pointer) as nat
                        } else {
                            0
                        },
                    )
                    &&& final(self).nasm.stack_pointer == if old(self).nasm.stack_pointer < m.stack_pointer {
                        old(self).nasm.stack_pointer
                    } else {
                        m.stack_pointer
                    }
                    &&& final(self).nasm.uniq_index == m.uniq_index
                },
            }),
        decreases stmt, 1nat,
    {
        let ghost n0 = self.nasm;
        let ghost sg = stmt;
        let mut table = VarTable::new(Some(var.clone()));
        proof {
            assert(table@ == inner_scope(var@));
        }
        let ptr = self.nasm.stack_pointer;
        let r1 = self.codegen_stmt(return_type, &mut table, stmt);
        let ghost m = self.nasm;
        proof {
            assert(stmt_effect(&self.def, return_type@, inner_scope(var@), table@, sg, n0, m, r1));
        }
        match r1 {
            Ok(()) => {},
            Err(e) => return Err(e),
        }
        let _ = self.nasm.pop_until(ptr);
        proof { lemma_grows_then(n0, m, self.nasm); }
        Ok(())
    }

    /// `return value;`: copies the value into the return slot (item 0).
    #[verifier::rlimit(30)]
    #[verifier::spinoff_prover]
    fn codegen_return(&mut self, return_type: &ExpressionType, var: &mut VarTable, expression: Expression) -> (r: Result<
        (),
        Error,
    >)
        ensures
            final(self).def == old(self).def,
            grows(old(self).nasm, final(self).nasm),
            *final(var) == *old(var),
            r is Ok ==> typed(&old(self).def, old(var)@, &expression) == Some(return_type@),
            r is Ok && return_type@ != TypeModel::Void ==> exists|e: Seq<char>, v: (u16, Seq<u16>), sp: u16, u: usize|
                #[trigger] return_code(old(self).nasm.writer@, e, v, sp, u, final(self).nasm.writer@),
            r matches Err(e) ==> return_failed(&old(self).def, old(var)@, return_type@, expression, old(self).nasm, e),
            return_run(&old(self).def, old(var)@, return_type@, expression, old(self).nasm, final(self).nasm, r),
    {
        let ghost n0 = self.nasm;
        let ghost eg = expression;
        let r0 = self.codegen_expr_in(var, expression);
        let ghost n1 = self.nasm;
        proof {
            assert(expr_code(&self.def, var@, eg, n0, n1, r0));
        }
        let (expr_ty, expr_idx) = match r0 {
            Ok(x) => x,
            Err(e) => return Err(e),
        };
        if !return_type.same(&expr_ty) {
            return Err(Error::TypeMismatch(return_type.clone(), expr_ty));
        }
        if !return_type.is_void_type() {
            let ghost m1 = self.nasm;
            match self.nasm.idx2addr("rsi", &expr_idx) {
                Ok(()) => {},
                Err(e) => return Err(e),
            }
            proof { lemma_grows_then(n0, m1, self.nasm); }
            let ghost m2 = self.nasm;
            match self.nasm.idx2addr("rdi", &Index::new(0)) {
                Ok(()) => {},
                Err(e) => return Err(e),
            }
            proof { lemma_grows_then(n0, m2, self.nasm); }
            let ghost m3 = self.nasm;
            match self.nasm.copy_addr() {
                Ok(()) => {},
                Err(e) => return Err(e),
            }
            proof {
                lemma_grows_then(n0, m3, self.nasm);
                crate::nasm::lemma_written(n0, m1);
                assert(return_code(
                    n0.writer@,
                    crate::nasm::written(n0, m1),
                    expr_idx@->Some_0,
                    m1.stack_pointer,
                    m3.uniq_index,
                    self.nasm.writer@,
                ));
            }
        }
        Ok(())
    }

    /// `if cond then else`: each branch in a scope of its own.
    #[verifier::rlimit(30)]
    #[verifier::spinoff_prover]
    fn codegen_if(&mut self, return_type: &ExpressionType, var: &mut VarTable, inn: (Expression, Statement, Option<Statement>)) -> (r: Result<(), Error>)
        ensures
            if_run(&old(self).def, return_type@, old(var)@, inn, old(self).nasm, final(self).nasm, r),
            !has_return(inn.1) && !(inn.2 matches Some(f) && has_return(f)) && r is Ok ==> final(self).nasm.stack_pointer
                == old(self).nasm.stack_pointer,
            final(self).def == old(self).def,
            grows(old(self).nasm, final(self).nasm),
            *final(var) == *old(var),
            r is Ok ==> final(self).nasm.stack_pointer <= old(self).nasm.stack_pointer,
            r is Ok ==> exists|c: Seq<char>, t: Seq<char>, f: Seq<char>, u: usize| #[trigger] if_code(
                old(self).nasm.writer@,
                c,
                t,
                f,
                final(self).nasm.writer@,
                u,
                inn.2 is Some,
            ),
            r matches Err(e) ==> condition_failed(&old(self).def, old(var)@, inn.0, old(self).nasm, e) || exists|
                m: Nasm,
                c: Seq<char>,
                u: usize,
            | #[trigger] if_started(old(self).nasm.writer@, c, u, m) && grows(m, final(self).nasm),
        decreases inn, 1nat,
    {
        let ghost n0 = self.nasm;
        let ghost has_else = inn.2 is Some;
        let (cond, true_block, false_block) = inn;
        let ghost cg = cond;
        let ghost vi = var@;
        let rc = self.codegen_cmp(var, cond);
        proof {
            assert(condition_run(&self.def, vi, cg, n0, self.nasm, rc));
        }
        match rc {
            Ok(()) => {},
            Err(e) => return Err(e),
        }
        let ghost u = self.nasm.uniq_index;
        let ret = self.nasm.get_local_label_name("if_return");
        let false_label = self.nasm.get_local_label_name("if_false");
        proof {
            reveal_strlit("if_return");
            reveal_strlit("if_false");
            crate::nasm::lemma_local_label_valid("if_return"@, u);
            crate::nasm::lemma_local_label_valid("if_false"@, u);
        }
        let ghost m1 = self.nasm;
        self.nasm.emit(crate::nasm::cat(owned("je "), false_label.as_str()));
        proof { lemma_grows_trans(n0, m1, self.nasm); }
        let ghost m2 = self.nasm;
        proof {
            let c = choose|c: Seq<char>| #[trigger] tests_condition(n0.writer@, c, m1.writer@);
            assert(if_started(n0.writer@, c, u, m2));
        }
        match self.codegen_scoped(return_type, var, true_block) {
            Ok(()) => {},
            Err(e) => return Err(e),
        }
        proof { lemma_grows_trans(n0, m2, self.nasm); }
        let ghost m3 = self.nasm;
        self.nasm.emit(crate::nasm::cat(owned("jmp "), ret.as_str()));
        proof {
            lemma_grows_trans(n0, m3, self.nasm);
            lemma_grows_trans(m2, m3, self.nasm);
        }
        let ghost m4 = self.nasm;
        match self.nasm.raw_label(false_label.as_str()) {
            Ok(()) => {},
            Err(e) => return Err(e),
        }
        proof {
            lemma_grows_then(n0, m4, self.nasm);
            lemma_grows_then(m2, m4, self.nasm);
        }
        let ghost m45 = self.nasm;
        if let Some(false_block) = false_block {
            let ghost m5 = self.nasm;
            match self.codegen_scoped(return_type, var, false_block) {
                Ok(()) => {},
                Err(e) => {
                    proof { lemma_grows_trans(m2, m5, self.nasm); }
                    return Err(e);
                },
            }
            proof {
                lemma_grows_trans(n0, m5, self.nasm);
                lemma_grows_trans(m2, m5, self.nasm);
            }
        }
        let ghost m6 = self.nasm;
        match self.nasm.raw_label(ret.as_str()) {
            Ok(()) => {},
            Err(e) => return Err(e),
        }
        proof {
            lemma_grows_then(n0, m6, self.nasm);
            let c = choose|c: Seq<char>| #[trigger] tests_condition(n0.writer@, c, m1.writer@);
            crate::nasm::lemma_written(m2, m3);
            let f = if has_else {
                crate::nasm::lemma_written(m45, m6);
                crate::nasm::written(m45, m6)
            } else {
                assert(m6.writer@ =~= m45.writer@ + Seq::<char>::empty());
                Seq::<char>::empty()
            };
            assert(if_code(n0.writer@, c, crate::nasm::written(m2, m3), f, self.nasm.writer@, u, has_else));
        }
        Ok(())
    }

    /// `while cond body`: the body in a scope of its own.
    #[verifier::rlimit(30)]
    #[verifier::spinoff_prover]
    fn codegen_while(&mut self, return_type: &ExpressionType, var: &mut VarTable, inn: (Expression, Statement)) -> (r: Result<(), Error>)
        ensures
            while_run(&old(self).def, return_type@, old(var)@, inn, old(self).nasm, final(self).nasm, r),
            !has_return(inn.1) && r is Ok ==> final(self).nasm.stack_pointer == old(self).nasm.stack_pointer,
            final(self).def == old(self).def,
            grows(old(self).nasm, final(self).nasm),
            *final(var) == *old(var),
            r is Ok ==> final(self).nasm.stack_pointer <= old(self).nasm.stack_pointer,
            r is Ok ==> exists|c: Seq<char>, b: Seq<char>| #[trigger] while_code(
                old(self).nasm.writer@,
                c,
                b,
                final(self).nasm.writer@,
                old(self).nasm.uniq_index,
            ),
            old(self).nasm.labels_left(1) ==> exists|m: Nasm| #[trigger] while_started(
                old(self).nasm.writer@,
                old(self).nasm.uniq_index,
                m,
            ) && grows(m, final(self).nasm),
            !old(self).nasm.labels_left(1) ==> (r matches Err(Error::LimitExceeded) && final(self).nasm == old(self).nasm),
        decreases inn, 1nat,
    {
        let ghost n0 = self.nasm;
        let (cond, body) = inn;
        let ghost u = self.nasm.uniq_index;
        let ret = self.nasm.get_local_label_name("while_return");
        proof {
            reveal_strlit("while_return");
            reveal_strlit("while_body");
            crate::nasm::lemma_local_label_valid("while_return"@, u);
        }
        let body_label = self.nasm.local_label("while_body")?;
        proof { lemma_grows_then(n0, n0, self.nasm); }
        let ghost m1 = self.nasm;
        proof {
            assert(while_started(n0.writer@, u, m1));
            lemma_grows_refl(m1);
        }
        let ghost cg = cond;
        let ghost vw = var@;
        let rc = self.codegen_cmp(var, cond);
        proof {
            assert(condition_run(&self.def, vw, cg, m1, self.nasm, rc));
        }
        match rc {
            Ok(()) => {},
            Err(e) => return Err(e),
        }
        proof { lemma_grows_trans(n0, m1, self.nasm); }
        let ghost m2 = self.nasm;
        self.nasm.emit(crate::nasm::cat(owned("je "), ret.as_str()));
        proof {
            lemma_grows_trans(n0, m2, self.nasm);
            lemma_grows_trans(m1, m2, self.nasm);
        }
        let ghost m3 = self.nasm;
        match self.codegen_scoped(return_type, var, body) {
            Ok(()) => {},
            Err(e) => {
                proof { lemma_grows_trans(m1, m3, self.nasm); }
                return Err(e);
            },
        }
        proof {
            lemma_grows_trans(n0, m3, self.nasm);
            lemma_grows_trans(m1, m3, self.nasm);
        }
        let ghost m4 = self.nasm;
        self.nasm.emit(crate::nasm::cat(owned("jmp "), body_label.as_str()));
        proof {
            lemma_grows_trans(n0, m4, self.nasm);
            lemma_grows_trans(m1, m4, self.nasm);
        }
        let ghost m5 = self.nasm;
        match self.nasm.raw_label(ret.as_str()) {
            Ok(()) => {},
            Err(e) => return Err(e),
        }
        proof {
            lemma_grows_then(n0, m5, self.nasm);
            lemma_grows_then(m1, m5, self.nasm);
            let c = choose|c: Seq<char>| #[trigger] tests_condition(m1.writer@, c, m2.writer@);
            crate::nasm::lemma_written(m3, m4);
            assert(while_code(n0.writer@, c, crate::nasm::written(m3, m4), self.nasm.writer@, u));
        }
        Ok(())
    }

    /// `for (init; cond; inc) body`: `init` and `inc` run in the enclosing
    /// scope, the body in a scope of its own.
    #[verifier::rlimit(30)]
    #[verifier::spinoff_prover]
    fn codegen_for(&mut self, return_type: &ExpressionType, var: &mut VarTable, inn: ForStatement) -> (r: Result<(), Error>)
        ensures
            for_run(&old(self).def, return_type@, old(var)@, inn, old(self).nasm, final(self).nasm, r),
            !has_return(inn.init) && !has_return(inn.inc) && !has_return(inn.body) && r is Ok ==> final(self).nasm.stack_pointer
                >= old(self).nasm.stack_pointer,
            final(self).def == old(self).def,
            grows(old(self).nasm, final(self).nasm),
            final(var)@.outer == old(var)@.outer,
            r is Ok ==> exists|i: Seq<char>, c: Seq<char>, b: Seq<char>, k: Seq<char>, u: usize| #[trigger] for_code(
                old(self).nasm.writer@,
                i,
                c,
                b,
                k,
                final(self).nasm.writer@,
                u,
            ),
            exists|m: Nasm, r1: Result<(), Error>, vi: VarsModel| #[trigger] stmt_base(
                &old(self).def,
                return_type@,
                old(var)@,
                vi,
                inn.init,
                old(self).nasm,
                m,
                r1,
            ) && for_after_init(m, r1, final(self).nasm, r),
        decreases inn, 1nat,
    {
        let ghost n0 = self.nasm;
        let ghost v0 = var@;
        let ForStatement { init, cond, inc, body } = inn;
        let ghost ig = init;
        let ri = self.codegen_stmt(return_type, var, init);
        let ghost m0 = self.nasm;
        let ghost vi = var@;
        proof {
            assert(stmt_effect(&self.def, return_type@, v0, vi, ig, n0, m0, ri));
        }
        match ri {
            Ok(()) => {},
            Err(e) => return Err(e),
        }
        let ghost u = self.nasm.uniq_index;
        let ret = self.nasm.get_local_label_name("for_return");
        proof {
            reveal_strlit("for_return");
            reveal_strlit("for_body");
            crate::nasm::lemma_local_label_valid("for_return"@, u);
        }
        let body_label = match self.nasm.local_label("for_body") {
            Ok(l) => l,
            Err(e) => return Err(e),
        };
        proof { lemma_grows_then(n0, m0, self.nasm); }
        let ghost m1 = self.nasm;
        proof {
            assert(for_started(m0.writer@, u, m1));
            lemma_grows_refl(m1);
        }
        let ghost cg = cond;
        let rc = self.codegen_cmp(var, cond);
        proof {
            assert(condition_run(&self.def, vi, cg, m1, self.nasm, rc));
        }
        match rc {
            Ok(()) => {},
            Err(e) => return Err(e),
        }
        proof { lemma_grows_trans(n0, m1, self.nasm); }
        let ghost m2 = self.nasm;
        self.nasm.emit(crate::nasm::cat(owned("je "), ret.as_str()));
        proof {
            lemma_grows_trans(n0, m2, self.nasm);
            lemma_grows_trans(m1, m2, self.nasm);
        }
        let ptr = self.nasm.stack_pointer;
        let ghost m3 = self.nasm;
        match self.codegen_scoped(return_type, var, body) {
            Ok(()) => {},
            Err(e) => {
                proof { lemma_grows_trans(m1, m3, self.nasm); }
                return Err(e);
            },
        }
        proof {
            lemma_grows_trans(n0, m3, self.nasm);
            lemma_grows_trans(m1, m3, self.nasm);
        }
        let ghost m4 = self.nasm;
        let ghost incg = inc;
        let ghost vinc = var@;
        let rk = self.codegen_stmt(return_type, var, inc);
        proof {
            assert(stmt_effect(&self.def, return_type@, vinc, var@, incg, m4, self.nasm, rk));
        }
        match rk {
            Ok(()) => {},
            Err(e) => {
                proof { lemma_grows_trans(m1, m4, self.nasm); }
                return Err(e);
            },
        }
        proof {
            lemma_grows_trans(n0, m4, self.nasm);
            lemma_grows_trans(m1, m4, self.nasm);
        }
        let ghost m5 = self.nasm;
        let _ = self.nasm.pop_until(ptr);
        proof {
            lemma_grows_then(n0, m5, self.nasm);
            lemma_grows_then(m1, m5, self.nasm);
        }
        let ghost m6 = self.nasm;
        self.nasm.emit(crate::nasm::cat(owned("jmp "), body_label.as_str()));
        proof {
            lemma_grows_trans(n0, m6, self.nasm);
            lemma_grows_trans(m1, m6, self.nasm);
        }
        let ghost m7 = self.nasm;
        match self.nasm.raw_label(ret.as_str()) {
            Ok(()) => {},
            Err(e) => return Err(e),
        }
        proof {
            lemma_grows_then(n0, m7, self.nasm);
            lemma_grows_then(m1, m7, self.nasm);
            lemma_grows_then(m4, m5, m6);
            crate::nasm::lemma_written(n0, m0);
            crate::nasm::lemma_written(m3, m4);
            crate::nasm::lemma_written(m4, m6);
            let c = choose|c: Seq<char>| #[trigger] tests_condition(m1.writer@, c, m2.writer@);
            assert(for_code(
                n0.writer@,
                crate::nasm::written(n0, m0),
                c,
                crate::nasm::written(m3, m4),
                crate::nasm::written(m4, m6),
                self.nasm.writer@,
                u,
            ));
        }
        Ok(())
    }

    /// Generates code for one statement of a function returning
    /// `return_type`, with `var` as the innermost scope.
    #[verifier::rlimit(30)]
    #[verifier::spinoff_prover]
    pub fn codegen_stmt(&mut self, return_type: &ExpressionType, var: &mut VarTable, stmt: Statement) -> (r: Result<
        (),
        Error,
    >)
        ensures
            final(self).def == old(self).def,
            grows(old(self).nasm, final(self).nasm),
            final(var)@.outer == old(var)@.outer,
            stmt_effect(
                &old(self).def,
                return_type@,
                old(var)@,
                final(var)@,
                stmt,
                old(self).nasm,
                final(self).nasm,
                r,
            ),
            stmt matches Statement::Block(stmts) ==> exists|m: Nasm, r1: Result<(), Error>| #[trigger] block_run(
                &old(self).def,
                return_type@,
                inner_scope(old(var)@),
                stmts@,
                old(self).nasm,
                m,
                r1,
            ) && (match r1 {
                Err(_) => r == r1 && final(self).nasm == m,
                Ok(()) => {
                    &&& r is Ok
                    &&& final(self).nasm.writer@ == m.writer@ + crate::nasm::pops_text(
                        if old(self).nasm.stack_pointer < m.stack_pointer {
                            (m.stack_pointer - old(self).nasm.stack_pointer) as nat
                        } else {
                            0
                        },
                    )
                    &&& final(self).nasm.stack_pointer == if old(self).nasm.stack_pointer < m.stack_pointer {
                        old(self).nasm.stack_pointer
                    } else {
                        m.stack_pointer
                    }
                },
            }),
            (stmt is Block || stmt is If || stmt is While || stmt is Breakpoint || stmt is Expr || stmt is Return
                || stmt is SetAssign) ==> *final(var) == *old(var),
            (stmt is Block || stmt is If || stmt is While) && r is Ok ==> final(self).nasm.stack_pointer
                <= old(self).nasm.stack_pointer,
            !has_return(stmt) && r is Ok ==> final(self).nasm.stack_pointer >= old(self).nasm.stack_pointer,
            stmt matches Statement::If(x) ==> if_run(
                &old(self).def,
                return_type@,
                old(var)@,
                *x,
                old(self).nasm,
                final(self).nasm,
                r,
            ),
            stmt matches Statement::For(x) ==> for_run(
                &old(self).def,
                return_type@,
                old(var)@,
                *x,
                old(self).nasm,
                final(self).nasm,
                r,
            ),
            stmt matches Statement::While(x) ==> while_run(
                &old(self).def,
                return_type@,
                old(var)@,
                *x,
                old(self).nasm,
                final(self).nasm,
                r,
            ),
            (stmt is Block || stmt is If || stmt is While) && !has_return(stmt) && r is Ok
                ==> final(self).nasm.stack_pointer == old(self).nasm.stack_pointer,
        decreases stmt, 0nat,
    {
        let ghost n0 = self.nasm;
        let ghost v0 = var@;
        let ghost sg = stmt;
        proof { lemma_grows_refl(n0); }
        let r = match stmt {
            Statement::DefAssign(assignment) => self.codegen_def_assignment(var, assignment),
            Statement::SetAssign(assignment) => self.codegen_set_assignment(var, assignment),
            Statement::Return(Some(expression)) => self.codegen_return(return_type, var, expression),
            Statement::Return(None) => {
                let start: u16 = if !return_type.is_void_type() {
                    2
                } else {
                    1
                };
                if self.nasm.stack_pointer < start {
                    Err(Error::StackUnderflow)
                } else {
                    let r = self.nasm.ret(return_type);
                    proof { lemma_grows_then(n0, n0, self.nasm); }
                    r
                }
            },
            Statement::Expr(expression) => {
                let ghost eg = expression;
                let re = self.codegen_expr_in(var, expression);
                proof {
                    assert(expr_code(&self.def, v0, eg, n0, self.nasm, re));
                }
                match re {
                    Ok(_) => Ok(()),
                    Err(e) => Err(e),
                }
            },
            Statement::Block(statements) => {
                let mut table = VarTable::new(Some(var.clone()));
                proof {
                    assert(table@ == inner_scope(v0));
                }
                let ptr = self.nasm.stack_pointer;
                match self.codegen_block(return_type, &mut table, statements) {
                    Ok(()) => {
                        let ghost m = self.nasm;
                        let _ = self.nasm.pop_until(ptr);
                        proof {
                            lemma_grows_then(n0, m, self.nasm);
                            crate::nasm::lemma_written(n0, m);
                            let k = if ptr < m.stack_pointer { (m.stack_pointer - ptr) as nat } else { 0 };
                            assert(block_code(n0.writer@, crate::nasm::written(n0, m), k, self.nasm.writer@));
                        }
                        Ok(())
                    },
                    Err(e) => Err(e),
                }
            },
            Statement::If(inn) => self.codegen_if(return_type, var, *inn),
            Statement::While(inn) => self.codegen_while(return_type, var, *inn),
            Statement::For(inn) => self.codegen_for(return_type, var, *inn),
            Statement::Breakpoint => {
                self.nasm.emit(owned("int3"));
                Ok(())
            },
        };
        proof {
            assert(stmt_effect(&self.def, return_type@, v0, var@, sg, n0, self.nasm, r));
        }
        r
    }
}

} // verus!
