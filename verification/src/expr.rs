//! Code generation for expressions, and the typing rules it follows.
use vstd::prelude::*;

use crate::ast::{Expression, ExpressionType, Number, NumberType, TypeModel};
use crate::codegen::{
    alloc_spec, alloc_top_spec, is_limit_error, types_view, CFunction, DefinedFunction, DefinitionTable, Error,
    FnModel, StuckerFunction, VarTable, VarsModel,
};
use crate::nasm::{
    addressable, grows, lemma_grows_append, lemma_grows_both, lemma_grows_prefix, lemma_grows_refl, lemma_local_name_is_label, lemma_grows_trans, lemma_extend, push_copy_addr_text, push_idx2ref_text, ref2addr_text, idx2addr_text, local_name, label, inc_text, stag_text, is_reg_name, item_of, line, owned, cat, push_register_text, push_text, Index, Nasm,
    RegisterSize,
};
use crate::text::{dec, int_dec, i64_text, u64_text};

verus! {

/// The first field of a struct with the given name.
pub open spec fn field_index(fields: Seq<(TypeModel, Seq<char>)>, f: Seq<char>) -> Option<int> {
    if exists|i: int| 0 <= i < fields.len() && fields[i].1 == f && forall|j: int| 0 <= j < i ==> fields[j].1 != f {
        Some(choose|i: int| 0 <= i < fields.len() && fields[i].1 == f && forall|j: int| 0 <= j < i ==> fields[j].1 != f)
    } else {
        None
    }
}

pub proof fn lemma_field_index(fields: Seq<(TypeModel, Seq<char>)>, f: Seq<char>, i: int)
    requires
        0 <= i < fields.len(),
        fields[i].1 == f,
        forall|j: int| 0 <= j < i ==> fields[j].1 != f,
    ensures
        field_index(fields, f) == Some(i),
{
    let c = choose|c: int| 0 <= c < fields.len() && fields[c].1 == f && forall|j: int| 0 <= j < c ==> fields[j].1 != f;
    if c < i {
        assert(fields[c].1 != f);
    }
    if i < c {
        assert(fields[i].1 != f);
    }
}

/// The type of field `f` of struct `name`.
pub open spec fn field_type(d: &DefinitionTable, name: Seq<char>, f: Seq<char>) -> Option<TypeModel> {
    match d.lookup_struct(name) {
        Some(fields) => match field_index(fields, f) {
            Some(i) => Some(fields[i].0),
            None => None,
        },
        None => None,
    }
}

pub open spec fn is_op(op: Seq<char>, a: Seq<char>) -> bool {
    op == a
}

/// The type of a binary operation on numbers of types `l` and `r`.
pub open spec fn binop_typed(op: Seq<char>, l: NumberType, r: NumberType) -> Option<TypeModel> {
    if op == "+"@ || op == "-"@ {
        if l == r { Some(TypeModel::Number(l)) } else { None }
    } else if op == "*"@ || op == "/"@ || op == "%"@ {
        if l == r && !l.is_float() { Some(TypeModel::Number(l)) } else { None }
    } else if op == "&"@ || op == "|"@ || op == "^"@ {
        if l == r && !l.is_float() { Some(TypeModel::Number(l)) } else { None }
    } else if op == "<<"@ || op == ">>"@ {
        if r == NumberType::U16 && !l.is_float() { Some(TypeModel::Number(l)) } else { None }
    } else if op == "&&"@ || op == "||"@ || op == ">"@ || op == ">="@ || op == "<"@ || op == "<="@ || op == "=="@
        || op == "!="@ {
        if !l.is_float() && !r.is_float() { Some(TypeModel::Number(NumberType::U8)) } else { None }
    } else {
        None
    }
}

/// The type of a call of `f` on arguments of types `ts`.
pub open spec fn call_typed(d: &DefinitionTable, f: FnModel, ts: Seq<TypeModel>) -> Option<TypeModel> {
    match f {
        FnModel::Stucker { ret, params } => {
            if ts.len() == params.len() && (ret != TypeModel::Void ==> alloc_top_spec(d, ret) is Some) && forall|i: int|
                0 <= i < ts.len() ==> ts[i] == params[i] {
                Some(ret)
            } else {
                None
            }
        },
        FnModel::C { c_ret, c_params, variadic } => {
            if (if variadic { c_params.len() <= ts.len() } else { c_params.len() == ts.len() }) && forall|i: int|
                0 <= i < ts.len() ==> (ts[i] is Number && !ts[i]->Number_0.is_float()) {
                match c_ret {
                    Some(n) => Some(TypeModel::Number(n)),
                    None => Some(TypeModel::Void),
                }
            } else {
                None
            }
        },
    }
}

/// The type of an expression, where it has one: an expression without a
/// type is rejected by the code generator.
pub open spec fn typed(d: &DefinitionTable, v: VarsModel, e: &Expression) -> Option<TypeModel>
    decreases e, 0nat,
{
    match e {
        Expression::Call(k, args) => match d.lookup_fn(k@) {
            Some(f) => match args_typed(d, v, args@) {
                Some(ts) => call_typed(d, f, ts),
                None => None,
            },
            None => None,
        },
        Expression::Number(n) => Some(TypeModel::Number(n.spec_numtype())),
        Expression::Symbol(s) => match v.resolve(s@) {
            Some(b) => Some(b.0),
            None => None,
        },
        Expression::BinOp(b) => match (typed(d, v, &b.0), typed(d, v, &b.2)) {
            (Some(TypeModel::Number(l)), Some(TypeModel::Number(r))) => binop_typed(b.1@, l, r),
            _ => None,
        },
        Expression::Ref(x) => match typed(d, v, x) {
            Some(t) => Some(TypeModel::Ref(Box::new(t))),
            None => None,
        },
        Expression::Deref(x) => match typed(d, v, x) {
            Some(TypeModel::Ref(t)) => Some(*t),
            _ => None,
        },
        Expression::InitArray(b) => {
            if typed(d, v, &b.0) == Some(TypeModel::Number(NumberType::U64)) && alloc_spec(
                d,
                b.1@,
                d.struct_table.len() as nat,
            ) is Some {
                Some(TypeModel::Array(Box::new(b.1@)))
            } else {
                None
            }
        },
        Expression::As(b) => match typed(d, v, &b.1) {
            Some(xt) => if xt is Number && b.0@ is Number && xt->Number_0.is_float() {
                None
            } else {
                Some(b.0@)
            },
            None => None,
        },
        Expression::FieldAccess(b) => match typed(d, v, &b.0) {
            Some(TypeModel::Ref(t)) => match *t {
                TypeModel::Struct(n) => match field_type(d, n, b.1@) {
                    Some(ft) => Some(TypeModel::Ref(Box::new(ft))),
                    None => None,
                },
                _ => None,
            },
            Some(TypeModel::Struct(n)) => field_type(d, n, b.1@),
            _ => None,
        },
        Expression::ArrayAccess(b) => match (typed(d, v, &b.0), typed(d, v, &b.1)) {
            (Some(TypeModel::Ref(t)), Some(TypeModel::Number(NumberType::U16))) => match *t {
                TypeModel::Array(el) => Some(TypeModel::Ref(el)),
                _ => None,
            },
            _ => None,
        },
        Expression::String(_) => Some(TypeModel::Number(NumberType::U64)),
    }
}

/// The types of a list of arguments, where each has one.
pub open spec fn args_typed(d: &DefinitionTable, v: VarsModel, args: Seq<Expression>) -> Option<Seq<TypeModel>>
    decreases args, 1nat,
{
    if args.len() == 0 {
        Some(Seq::empty())
    } else {
        match args_typed(d, v, args.drop_last()) {
            Some(ts) => match typed(d, v, &args.last()) {
                Some(t) => Some(ts.push(t)),
                None => None,
            },
            None => None,
        }
    }
}


/// Every argument of a well-typed argument list is typed, and so is every
/// prefix of it.
pub proof fn lemma_args_typed_prefix(d: &DefinitionTable, v: VarsModel, args: Seq<Expression>, i: int)
    requires
        args_typed(d, v, args) is Some,
        0 <= i < args.len(),
    ensures
        args_typed(d, v, args.take(i)) is Some,
        typed(d, v, &args[i]) is Some,
    decreases args.len(),
{
    if i == args.len() - 1 {
        assert(args.take(i) =~= args.drop_last());
    } else {
        lemma_args_typed_prefix(d, v, args.drop_last(), i);
        assert(args.drop_last().take(i) =~= args.take(i));
    }
}

/// An upper bound on the stack items the code of `e` needs above the top
/// when it starts (and so on the items it leaves).
pub open spec fn need(e: &Expression) -> nat
    decreases e, 0nat,
{
    match e {
        Expression::Call(_, args) => need_args(args@) + args@.len() + 2,
        Expression::Number(_) => 1,
        Expression::Symbol(_) => 0,
        Expression::BinOp(b) => need(&b.0) + need(&b.2) + 1,
        Expression::Ref(x) => need(x) + 1,
        Expression::Deref(x) => need(x) + 1,
        Expression::InitArray(b) => need(&b.0) + 1,
        Expression::As(b) => need(&b.1) + 1,
        Expression::FieldAccess(b) => need(&b.0) + 1,
        Expression::ArrayAccess(b) => need(&b.0) + need(&b.1) + 1,
        Expression::String(_) => 1,
    }
}

/// `need` of a list of arguments evaluated one after the other.
pub open spec fn need_args(args: Seq<Expression>) -> nat
    decreases args, 1nat,
{
    if args.len() == 0 {
        0
    } else {
        need_args(args.drop_last()) + need(&args.last())
    }
}

/// An upper bound on the labels the code of `e` uses.
pub open spec fn labs(e: &Expression) -> nat
    decreases e, 0nat,
{
    match e {
        Expression::Call(_, args) => labs_args(args@) + 2 * args@.len() + 1,
        Expression::Number(_) => 0,
        Expression::Symbol(_) => 0,
        Expression::BinOp(b) => labs(&b.0) + labs(&b.2),
        Expression::Ref(x) => labs(x),
        Expression::Deref(x) => labs(x) + 3,
        Expression::InitArray(b) => labs(&b.0) + 2,
        Expression::As(b) => labs(&b.1),
        Expression::FieldAccess(b) => labs(&b.0) + 2,
        Expression::ArrayAccess(b) => labs(&b.0) + labs(&b.1) + 2,
        Expression::String(_) => 1,
    }
}

/// `labs` of a list of arguments.
pub open spec fn labs_args(args: Seq<Expression>) -> nat
    decreases args, 1nat,
{
    if args.len() == 0 {
        0
    } else {
        labs_args(args.drop_last()) + labs(&args.last())
    }
}

/// The length of the path of the item that `e`'s value is, inside the item
/// at its base: a variable's path, one more step for each field of a struct
/// value taken, and none for a value in a fresh item.
pub open spec fn path_of(d: &DefinitionTable, v: VarsModel, e: &Expression) -> nat
    decreases e,
{
    match e {
        Expression::Symbol(s) => match v.resolve(s@) {
            Some(b) => match b.1 {
                Some(i) => i.1.len(),
                None => 0,
            },
            None => 0,
        },
        Expression::FieldAccess(b) => if typed(d, v, &b.0) matches Some(TypeModel::Struct(_)) {
            path_of(d, v, &b.0) + 1
        } else {
            0
        },
        Expression::As(b) => if b.0@ is Number && typed(d, v, &b.1) matches Some(TypeModel::Number(_)) {
            0
        } else {
            path_of(d, v, &b.1)
        },
        _ => 0,
    }
}

/// Every variable of a type other than `void` names a live item of a stack
/// of `sp` items.
pub open spec fn vars_live(v: VarsModel, sp: u16) -> bool {
    forall|k: Seq<char>| #[trigger] v.resolve(k) is Some && v.resolve(k)->Some_0.0 != TypeModel::Void ==> addressable(
        v.resolve(k)->Some_0.1,
        sp,
    )
}

/// What the code of `e` needs besides its type, room and live variables:
/// no `void` value where an item is used, paths and field positions that
/// fit a reference, layouts and machine-stack arguments that fit their
/// counters.
pub open spec fn ready(d: &DefinitionTable, v: VarsModel, e: &Expression) -> bool
    decreases e, 0nat,
{
    match e {
        Expression::Call(k, args) => {
            &&& ready_args(d, v, args@)
            &&& d.lookup_fn(k@) matches Some(f) && match f {
                FnModel::Stucker { ret, params } => ret != TypeModel::Void ==> (alloc_top_spec(d, ret) matches Some(
                    (m, _),
                ) && m <= u16::MAX),
                FnModel::C { .. } => 8 * args@.len() <= u16::MAX,
            }
        },
        Expression::BinOp(b) => ready(d, v, &b.0) && ready(d, v, &b.2),
        Expression::Ref(x) => ready(d, v, x) && typed(d, v, x) != Some(TypeModel::Void) && path_of(d, v, x) <= 32762,
        Expression::Deref(x) => ready(d, v, x),
        Expression::InitArray(b) => ready(d, v, &b.0) && (alloc_spec(d, b.1@, d.struct_table.len() as nat) matches Some(
            (m, _),
        ) && m <= u16::MAX),
        Expression::As(b) => ready(d, v, &b.1) && typed(d, v, &b.1) != Some(TypeModel::Void),
        Expression::FieldAccess(b) => ready(d, v, &b.0) && (typed(d, v, &b.0) matches Some(TypeModel::Struct(sn))
            ==> field_index(d.lookup_struct(sn)->Some_0, b.1@)->Some_0 <= u16::MAX),
        Expression::ArrayAccess(b) => ready(d, v, &b.0) && ready(d, v, &b.1),
        _ => true,
    }
}

/// `ready` of each argument, none of them `void`.
pub open spec fn ready_args(d: &DefinitionTable, v: VarsModel, args: Seq<Expression>) -> bool
    decreases args, 1nat,
{
    if args.len() == 0 {
        true
    } else {
        ready_args(d, v, args.drop_last()) && ready(d, v, &args.last()) && typed(d, v, &args.last()) != Some(
            TypeModel::Void,
        )
    }
}

/// The code of `e` starting at `n` has all it needs: `e` is `ready`, its
/// variables are live, and `need(e)` items and `labs(e)` labels are left.
pub open spec fn room(d: &DefinitionTable, v: VarsModel, e: &Expression, n: Nasm) -> bool {
    &&& ready(d, v, e)
    &&& vars_live(v, n.stack_pointer)
    &&& n.items_left(need(e))
    &&& n.labels_left(labs(e))
}

/// What a well-typed expression `e` with `room` at `n0` gives, ending at
/// `n1` with `r`: a value of its type, using at most `need(e)` items and
/// `labs(e)` labels; a value other than `void` is at a live item whose path
/// is `path_of(e)` long.
pub open spec fn compiled(d: &DefinitionTable, v: VarsModel, e: &Expression, n0: Nasm, n1: Nasm, r: Result<(ExpressionType, Index), Error>) -> bool {
    &&& r matches Ok((t, _)) && Some(t@) == typed(d, v, e)
    &&& n0.stack_pointer <= n1.stack_pointer <= n0.stack_pointer + need(e)
    &&& n1.uniq_index <= n0.uniq_index + labs(e)
    &&& match r {
        Ok((t, i)) => t@ != TypeModel::Void ==> (addressable(i@, n1.stack_pointer) && i@->Some_0.1.len() == path_of(
            d,
            v,
            e,
        )),
        Err(_) => true,
    }
}

/// A prefix of a list of arguments needs no more than the list, and is
/// `ready` when the list is.
pub proof fn lemma_args_prefix(d: &DefinitionTable, v: VarsModel, all: Seq<Expression>, i: int)
    requires
        0 <= i <= all.len(),
    ensures
        need_args(all.take(i)) <= need_args(all),
        labs_args(all.take(i)) <= labs_args(all),
        ready_args(d, v, all) ==> ready_args(d, v, all.take(i)),
    decreases all.len(),
{
    if i == all.len() {
        assert(all.take(i) =~= all);
    } else {
        lemma_args_prefix(d, v, all.drop_last(), i);
        assert(all.drop_last().take(i) =~= all.take(i));
    }
}

/// What the C arguments `ps` from position `lo` on take on the machine
/// stack: at most 8 bytes each.
pub proof fn lemma_c_stack_size_bound(ps: Seq<(TypeModel, Option<(u16, Seq<u16>)>)>, lo: int)
    requires
        0 <= lo <= ps.len(),
    ensures
        c_stack_size(ps, lo) <= 8 * (ps.len() - lo),
    decreases ps.len() - lo,
{
    if lo < ps.len() {
        lemma_c_stack_size_bound(ps, lo + 1);
    }
}

/// A live variable stays live as the stack grows.
pub proof fn lemma_vars_live_grow(v: VarsModel, a: u16, b: u16)
    requires
        vars_live(v, a),
        a <= b,
    ensures
        vars_live(v, b),
{
}

/// The types of a list of typed values.
pub open spec fn param_types(params: Seq<(ExpressionType, Index)>) -> Seq<TypeModel> {
    params.map_values(|p: (ExpressionType, Index)| p.0@)
}

/// The instruction that moves a number of type `t` from `[sreg+8]` into the
/// register of its width.
pub open spec fn mov_num_line(t: NumberType, r8: Seq<char>, r16: Seq<char>, r32: Seq<char>, r64: Seq<char>, sreg: Seq<char>) -> Seq<char> {
    match t {
        NumberType::I8 | NumberType::U8 => line("mov "@ + r8 + ", byte ["@ + sreg + "+8]"@),
        NumberType::I16 | NumberType::U16 => line("mov "@ + r16 + ", word ["@ + sreg + "+8]"@),
        NumberType::I32 | NumberType::U32 => line("mov "@ + r32 + ", dword ["@ + sreg + "+8]"@),
        _ => line("mov "@ + r64 + ", qword ["@ + sreg + "+8]"@),
    }
}

/// What `mov_num` writes.
pub open spec fn mov_num_text(
    t: NumberType,
    idx: (u16, Seq<u16>),
    sp: u16,
    r8: Seq<char>,
    r16: Seq<char>,
    r32: Seq<char>,
    r64: Seq<char>,
    sreg: Seq<char>,
) -> Seq<char> {
    line("xor "@ + r64 + ", "@ + r64) + idx2addr_text(sreg, idx.0, idx.1, sp) + mov_num_line(t, r8, r16, r32, r64, sreg)
}

/// What comparing two integers with `set{operation}` writes.
pub open spec fn ord_text(
    lt: NumberType,
    li: (u16, Seq<u16>),
    rt: NumberType,
    ri: (u16, Seq<u16>),
    sp: u16,
    operation: Seq<char>,
) -> Seq<char> {
    mov_num_text(lt, li, sp, "bl"@, "bx"@, "ebx"@, "rbx"@, "rdx"@) + mov_num_text(rt, ri, sp, "cl"@, "cx"@, "ecx"@, "rcx"@, "rdx"@)
        + line("cmp rbx, rcx"@) + line("set"@ + operation + " bl"@) + push_register_text("bl"@, RegisterSize::S8)
}

/// What combining two integers as booleans with `operation` writes.
pub open spec fn and_or_text(
    lt: NumberType,
    li: (u16, Seq<u16>),
    rt: NumberType,
    ri: (u16, Seq<u16>),
    sp: u16,
    operation: Seq<char>,
) -> Seq<char> {
    mov_num_text(lt, li, sp, "bl"@, "bx"@, "ebx"@, "rbx"@, "rcx"@) + line("cmp rbx, 0"@) + line("setne bl"@)
        + mov_num_text(rt, ri, sp, "cl"@, "cx"@, "ecx"@, "rcx"@, "rdx"@) + line("cmp rcx, 0"@) + line("setne cl"@)
        + line(operation + " bl, cl"@) + push_register_text("bl"@, RegisterSize::S8)
}

/// The condition code of a comparison operator.
pub open spec fn ord_suffix(op: Seq<char>) -> Seq<char> {
    if op == ">"@ {
        "g"@
    } else if op == ">="@ {
        "ge"@
    } else if op == "<"@ {
        "l"@
    } else if op == "<="@ {
        "le"@
    } else if op == "=="@ {
        "e"@
    } else {
        "ne"@
    }
}

/// The binary operators.
pub open spec fn known_operator(op: Seq<char>) -> bool {
    op == "+"@ || op == "-"@ || op == "*"@ || op == "/"@ || op == "%"@ || op == "&"@ || op == "|"@ || op == "^"@
        || op == "<<"@ || op == ">>"@ || op == "&&"@ || op == "||"@ || op == ">"@ || op == ">="@ || op == "<"@
        || op == "<="@ || op == "=="@ || op == "!="@
}

/// What applying the operator `op` writes, to a left operand of type `lt` at
/// item `li` and a right operand of type `rt` at item `ri`, with `sp` items
/// on the stack; the result is pushed.
#[verifier::opaque]
pub open spec fn operator_text(
    op: Seq<char>,
    lt: NumberType,
    li: (u16, Seq<u16>),
    rt: NumberType,
    ri: (u16, Seq<u16>),
    sp: u16,
) -> Seq<char> {
    let size = crate::nasm::num_size(lt);
    let signed = crate::nasm::is_signed(lt);
    if op == "+"@ {
        crate::nasm::op_text(crate::nasm::pick_op(lt, "add"@, "addss"@, "addsd"@), size, li, ri, sp)
    } else if op == "-"@ {
        crate::nasm::op_text(crate::nasm::pick_op(lt, "sub"@, "subss"@, "subsd"@), size, li, ri, sp)
    } else if op == "*"@ {
        crate::nasm::op_implied_text(if signed { "imul"@ } else { "mul"@ }, size, li, ri, false, sp)
    } else if op == "/"@ {
        crate::nasm::op_implied_text(if signed { "idiv"@ } else { "div"@ }, size, li, ri, false, sp)
    } else if op == "%"@ {
        crate::nasm::op_implied_text(if signed { "idiv"@ } else { "div"@ }, size, li, ri, true, sp)
    } else if op == "&"@ {
        crate::nasm::op_text("and"@, size, li, ri, sp)
    } else if op == "|"@ {
        crate::nasm::op_text("or"@, size, li, ri, sp)
    } else if op == "^"@ {
        crate::nasm::op_text("xor"@, size, li, ri, sp)
    } else if op == "<<"@ {
        crate::nasm::op_bitshift_text("shl"@, size, li, ri, sp)
    } else if op == ">>"@ {
        crate::nasm::op_bitshift_text("shr"@, size, li, ri, sp)
    } else if op == "&&"@ {
        and_or_text(lt, li, rt, ri, sp, "and"@)
    } else if op == "||"@ {
        and_or_text(lt, li, rt, ri, sp, "or"@)
    } else {
        ord_text(lt, li, rt, ri, sp, ord_suffix(op))
    }
}

/// The code of a binary operation: the operands' code takes the emitter
/// from `n0` to `mid`, leaving them at the live items `li` and `ri`; the
/// operator's code follows, and its result is the new top item `idx`.
pub open spec fn binop_code(
    n0: Nasm,
    mid: Nasm,
    n1: Nasm,
    op: Seq<char>,
    lt: NumberType,
    li: (u16, Seq<u16>),
    rt: NumberType,
    ri: (u16, Seq<u16>),
    idx: Option<(u16, Seq<u16>)>,
) -> bool {
    &&& grows(n0, mid)
    &&& li.0 < mid.stack_pointer && ri.0 < mid.stack_pointer
    &&& n1.writer@ == mid.writer@ + operator_text(op, lt, li, rt, ri, mid.stack_pointer)
    &&& n1.stack_pointer == mid.stack_pointer + 1
    &&& idx == Some((mid.stack_pointer, Seq::<u16>::empty()))
}

/// What a successful binary operation `b` did, taking the emitter from `n0`
/// to `n1` with its result at `idx`: both operands are numbers, and after
/// their code comes the operator's code on their items.
#[verifier::opaque]
pub open spec fn binop_outcome(
    d: &DefinitionTable,
    v: VarsModel,
    b: (Expression, String, Expression),
    n0: Nasm,
    n1: Nasm,
    idx: Option<(u16, Seq<u16>)>,
) -> bool {
    typed(d, v, &b.0) matches Some(TypeModel::Number(lt)) && typed(d, v, &b.2) matches Some(TypeModel::Number(rt))
        && exists|mid: Nasm, li: (u16, Seq<u16>), ri: (u16, Seq<u16>)| #[trigger]
        binop_code(n0, mid, n1, b.1@, lt, li, rt, ri, idx)
}

/// Why moving a number of type `t` at `i` into a register failed with `e`,
/// with `sp` items on the stack: a `void` value gives `InvalidIndex`, an
/// item already popped `DanglingIndex`, and a float `ExpectedInteger`.
pub open spec fn mov_num_error(t: NumberType, i: Option<(u16, Seq<u16>)>, sp: u16, e: Error) -> bool {
    &&& i is None ==> e is InvalidIndex
    &&& i is Some && !addressable(i, sp) ==> e is DanglingIndex
    &&& addressable(i, sp) ==> (e matches Error::ExpectedInteger(x) && x@ == TypeModel::Number(t) && t.is_float())
}

/// Why comparing a number of type `lt` at `li` with one of type `rt` at
/// `ri` failed with `e`, with `sp` items on the stack: moving the left one
/// into a register failed (`mov_num_error`), else moving the right one, else
/// a limit was reached.
#[verifier::opaque]
pub open spec fn ord_error(
    lt: NumberType,
    li: Option<(u16, Seq<u16>)>,
    rt: NumberType,
    ri: Option<(u16, Seq<u16>)>,
    sp: u16,
    e: Error,
) -> bool {
    if !(addressable(li, sp) && !lt.is_float()) {
        mov_num_error(lt, li, sp, e)
    } else if !(addressable(ri, sp) && !rt.is_float()) {
        mov_num_error(rt, ri, sp, e)
    } else {
        is_limit_error(e)
    }
}

/// The arguments' values `p` before those `rr` holds (a failure stays one).
pub open spec fn with_prefix(
    p: Seq<(TypeModel, Option<(u16, Seq<u16>)>)>,
    rr: Result<Seq<(TypeModel, Option<(u16, Seq<u16>)>)>, Error>,
) -> Result<Seq<(TypeModel, Option<(u16, Seq<u16>)>)>, Error> {
    match rr {
        Ok(ps) => Ok(p + ps),
        Err(e) => Err(e),
    }
}

/// The values after the first that `r` holds (a failure stays one).
pub open spec fn after_first(
    r: Result<Seq<(TypeModel, Option<(u16, Seq<u16>)>)>, Error>,
) -> Result<Seq<(TypeModel, Option<(u16, Seq<u16>)>)>, Error> {
    match r {
        Ok(ps) => Ok(ps.drop_first()),
        Err(e) => Err(e),
    }
}

/// The arguments `es`, evaluated in order from `n0`, end at `n1` with `r`:
/// each starts where the one before ended, and the first that fails ends
/// them with its error; otherwise `r` holds their types and items, in order.
pub open spec fn args_run(
    d: &DefinitionTable,
    v: VarsModel,
    es: Seq<Expression>,
    n0: Nasm,
    n1: Nasm,
    r: Result<Seq<(TypeModel, Option<(u16, Seq<u16>)>)>, Error>,
) -> bool
    decreases es.len(),
{
    if es.len() == 0 {
        n1 == n0 && r == Ok::<Seq<(TypeModel, Option<(u16, Seq<u16>)>)>, Error>(Seq::empty())
    } else {
        exists|m: Nasm, re: Result<(ExpressionType, Index), Error>| #[trigger] expr_code(d, v, es[0], n0, m, re)
            && match re {
            Err(x) => r == Err::<Seq<(TypeModel, Option<(u16, Seq<u16>)>)>, Error>(x) && n1 == m,
            Ok((t, i)) => args_run(d, v, es.skip(1), m, n1, after_first(r)) && (r matches Ok(ps) ==> ps.len() > 0
                && ps[0] == (t@, i@)),
        }
    }
}

/// What a call of `f` named `name` does once its arguments, of types and at
/// items `ps`, are on the stack at `m`, ending at `n1` with `r`: a wrong
/// number of arguments gives `ArityMismatch(expected, given)`, writing
/// nothing more; a Stucker call gives `TypeMismatch` only for its first
/// argument of the wrong type, and is made when it fits
/// (`stucker_call_fits`); a C call gives `ExternCInvalidParameter` only for
/// an argument that is not an integer, and is made when its arguments are
/// integers at live items that fit on the machine stack.
pub open spec fn call_after_args(
    d: &DefinitionTable,
    f: FnModel,
    name: Seq<char>,
    ps: Seq<(TypeModel, Option<(u16, Seq<u16>)>)>,
    m: Nasm,
    n1: Nasm,
    r: Result<(ExpressionType, Index), Error>,
) -> bool {
    match f {
        FnModel::Stucker { ret, params } => {
            &&& ps.len() != params.len() ==> (r matches Err(Error::ArityMismatch(a, b)) && a == params.len() && b
                == ps.len() && n1 == m)
            &&& r matches Err(Error::TypeMismatch(a, b)) ==> exists|j: int|
                0 <= j < ps.len() && a@ == params[j] && b@ == ps[j].0 && a@ != b@ && forall|k: int|
                    0 <= k < j ==> (#[trigger] ps[k]).0 == params[k]
            &&& stucker_call_fits(d, ret, params, ps, m) ==> (r is Ok && n1.writer@ == m.writer@ + stucker_call_text(
                d,
                ret,
                ps,
                m.stack_pointer,
                name,
                m.uniq_index as nat,
            ))
        },
        FnModel::C { c_ret, c_params, variadic } => {
            let arity_ok = if variadic { c_params.len() <= ps.len() } else { c_params.len() == ps.len() };
            &&& !arity_ok ==> (r matches Err(Error::ArityMismatch(a, b)) && a == c_params.len() && b == ps.len()
                && n1 == m)
            &&& r matches Err(Error::ExternCInvalidParameter) ==> !c_args_ok(ps)
            &&& arity_ok && !c_args_ok(ps) ==> (r matches Err(e) && (e is ExternCInvalidParameter || is_limit_error(e)))
            &&& arity_ok && c_args_ok(ps) && (forall|i: int| 0 <= i < ps.len() ==> addressable(#[trigger] ps[i].1, m.stack_pointer))
                && c_stack_size(ps, 0) <= u16::MAX && (c_ret is Some ==> m.items_left(1)) ==> (r is Ok && n1.writer@
                == m.writer@ + c_call_text(ps, m.stack_pointer, name, c_ret))
        },
    }
}

/// A Stucker call meets `call_after_args` when its arity error, its first
/// mismatching argument and its success when it fits are as stated.
proof fn lemma_stucker_after_args(
    d: &DefinitionTable,
    ret: TypeModel,
    fp: Seq<TypeModel>,
    name: Seq<char>,
    av: Seq<(TypeModel, Option<(u16, Seq<u16>)>)>,
    m: Nasm,
    n1: Nasm,
    r: Result<(ExpressionType, Index), Error>,
)
    requires
        av.len() != fp.len() ==> (r matches Err(Error::ArityMismatch(a, b)) && a == fp.len() && b == av.len() && n1
            == m),
        r matches Err(Error::TypeMismatch(a, b)) ==> exists|j: int|
            0 <= j < av.len() && a@ == fp[j] && b@ == av[j].0 && a@ != b@ && forall|k: int|
                0 <= k < j ==> (#[trigger] av[k]).0 == fp[k],
        stucker_call_fits(d, ret, fp, av, m) ==> (r is Ok && n1.writer@ == m.writer@ + stucker_call_text(
            d,
            ret,
            av,
            m.stack_pointer,
            name,
            m.uniq_index as nat,
        )),
    ensures
        call_after_args(d, FnModel::Stucker { ret, params: fp }, name, av, m, n1, r),
{
}

/// What a call of `f` named `name` on the arguments `es` does from `n0`,
/// ending at `n1` with `r`: the arguments are evaluated in order
/// (`args_run`), and the first failure is the call's; then the call is made
/// on their values (`call_after_args`).
#[verifier::opaque]
pub open spec fn call_run(
    d: &DefinitionTable,
    v: VarsModel,
    f: FnModel,
    name: Seq<char>,
    es: Seq<Expression>,
    n0: Nasm,
    n1: Nasm,
    r: Result<(ExpressionType, Index), Error>,
) -> bool {
    exists|m: Nasm, ra: Result<Seq<(TypeModel, Option<(u16, Seq<u16>)>)>, Error>| #[trigger] args_run(d, v, es, n0, m, ra)
        && match ra {
        Err(x) => r == Err::<(ExpressionType, Index), Error>(x) && n1 == m,
        Ok(ps) => call_after_args(d, f, name, ps, m, n1, r),
    }
}

/// What applying the operator `op` to a left operand of type `lt` at `li`
/// and a right operand of type `rt` at `ri` does from `m`, ending at `n1`
/// with `r`: an unknown operator is refused; with matching types, live
/// operands and room for the result, its code is written and the result is
/// the new top item; with matching types it fails only at a limit.
pub open spec fn operator_result(
    op: Seq<char>,
    lt: NumberType,
    li: Option<(u16, Seq<u16>)>,
    rt: NumberType,
    ri: Option<(u16, Seq<u16>)>,
    m: Nasm,
    n1: Nasm,
    r: Result<(ExpressionType, Index), Error>,
) -> bool {
    &&& grows(m, n1)
    &&& r matches Ok((t, _)) ==> binop_typed(op, lt, rt) == Some(t@)
    &&& binop_typed(op, lt, rt) is Some && r is Err ==> is_limit_error(r->Err_0)
    &&& binop_typed(op, lt, rt) is Some && addressable(li, m.stack_pointer) && addressable(ri, m.stack_pointer)
        && m.items_left(1) ==> (r matches Ok((_, idx)) && idx@ == Some((m.stack_pointer, Seq::<u16>::empty()))
        && n1.stack_pointer == m.stack_pointer + 1 && n1.writer@ == m.writer@ + operator_text(
        op,
        lt,
        item_of(li),
        rt,
        item_of(ri),
        m.stack_pointer,
    ))
    &&& r is Ok ==> addressable(li, m.stack_pointer) && addressable(ri, m.stack_pointer) && m.items_left(1)
    &&& !known_operator(op) ==> (r matches Err(Error::InvalidOperator(o)) && o@ == op)
}

/// What the binary operation `b` does from `n0`, ending at `n1` with `r`:
/// the left operand's code runs, then the right one's, and the first that
/// fails ends the operation with its error; an operand that is not a number
/// (the left one first) gives `ExpectedNumber` of its type; then the
/// operator is applied to the operands' items.
#[verifier::opaque]
pub open spec fn binop_run(
    d: &DefinitionTable,
    v: VarsModel,
    b: (Expression, String, Expression),
    n0: Nasm,
    n1: Nasm,
    r: Result<(ExpressionType, Index), Error>,
) -> bool {
    exists|m1: Nasm, r1: Result<(ExpressionType, Index), Error>| #[trigger] expr_code(d, v, b.0, n0, m1, r1) && match r1 {
        Err(e) => r == Err::<(ExpressionType, Index), Error>(e) && n1 == m1,
        Ok((lt, li)) => exists|m2: Nasm, r2: Result<(ExpressionType, Index), Error>| #[trigger] expr_code(
            d,
            v,
            b.2,
            m1,
            m2,
            r2,
        ) && grows(n0, m1) && match r2 {
            Err(e) => r == Err::<(ExpressionType, Index), Error>(e) && n1 == m2,
            Ok((rt, ri)) => if !(lt@ is Number) {
                r matches Err(Error::ExpectedNumber(t)) && t@ == lt@ && n1 == m2
            } else if !(rt@ is Number) {
                r matches Err(Error::ExpectedNumber(t)) && t@ == rt@ && n1 == m2
            } else {
                operator_result(b.1@, lt@->Number_0, li@, rt@->Number_0, ri@, m2, n1, r)
            },
        },
    }
}

/// What `&x` does from `n0`, ending at `n1` with `r`: the code of `x` runs,
/// and its failure is the expression's; a `void` value gives
/// `InvalidIndex`; otherwise a reference to its item is pushed as the new
/// top item, of type `&T` for `x` of type `T`, whenever the item is below
/// the top and there is room for one more item.
#[verifier::opaque]
pub open spec fn ref_run(d: &DefinitionTable, v: VarsModel, x: Expression, n0: Nasm, n1: Nasm, r: Result<(ExpressionType, Index), Error>) -> bool {
    exists|m: Nasm, rx: Result<(ExpressionType, Index), Error>| #[trigger] expr_code(d, v, x, n0, m, rx) && match rx {
        Err(e) => r == Err::<(ExpressionType, Index), Error>(e) && n1 == m,
        Ok((t, i)) => {
            &&& i@ is None ==> (r matches Err(Error::InvalidIndex) && n1 == m)
            &&& i@ is Some && i@->Some_0.0 <= m.stack_pointer && i@->Some_0.1.len() <= 32762 && m.items_left(1)
                ==> r is Ok
            &&& r matches Ok((t2, idx)) ==> {
                &&& t2@ == TypeModel::Ref(Box::new(t@))
                &&& idx@ == Some((m.stack_pointer, Seq::<u16>::empty()))
                &&& n1.stack_pointer == m.stack_pointer + 1
                &&& n1.writer@ == m.writer@ + push_idx2ref_text("bx"@, item_of(i@).0, item_of(i@).1, m.stack_pointer)
            }
        },
    }
}

/// What `*x` does from `n0`, ending at `n1` with `r`: the code of `x` runs,
/// and its failure is the expression's; a value that is not a reference
/// gives `ExpectedRef` of its type; otherwise a copy of the item it refers
/// to is pushed as the new top item, of the referred type, whenever the
/// reference is at a live item and there is room for one more item and
/// three labels.
#[verifier::opaque]
pub open spec fn deref_run(d: &DefinitionTable, v: VarsModel, x: Expression, n0: Nasm, n1: Nasm, r: Result<(ExpressionType, Index), Error>) -> bool {
    exists|m: Nasm, rx: Result<(ExpressionType, Index), Error>| #[trigger] expr_code(d, v, x, n0, m, rx) && match rx {
        Err(e) => r == Err::<(ExpressionType, Index), Error>(e) && n1 == m,
        Ok((t, i)) => {
            &&& !(t@ is Ref) ==> (r matches Err(Error::ExpectedRef(u)) && u@ == t@ && n1 == m)
            &&& t@ is Ref && addressable(i@, m.stack_pointer) && m.labels_left(3) && m.items_left(1) ==> r is Ok
            &&& r matches Ok((t2, idx)) ==> t@ is Ref && t2@ == *(t@->Ref_0) && deref_code(n0, m, n1, item_of(i@), idx@)
        },
    }
}

/// What `[n]T` (`b` is `(n, T)`) does from `n0`, ending at `n1` with `r`:
/// the code of `n` runs, and its failure is the expression's; a length that
/// is not a `u64` gives `TypeMismatch(u64, its type)`; a `u64` length at a
/// live item gives an array of `T`, laid out after the length's code, when
/// a `T` has a layout of at most `u16::MAX` bytes and there is room for one
/// more item and two labels.
#[verifier::opaque]
pub open spec fn init_array_run(d: &DefinitionTable, v: VarsModel, b: (Expression, ExpressionType), n0: Nasm, n1: Nasm, r: Result<(ExpressionType, Index), Error>) -> bool {
    exists|m: Nasm, rx: Result<(ExpressionType, Index), Error>| #[trigger] expr_code(d, v, b.0, n0, m, rx) && match rx {
        Err(e) => r == Err::<(ExpressionType, Index), Error>(e) && n1 == m,
        Ok((t, i)) => {
            &&& t@ != TypeModel::Number(NumberType::U64) ==> (r matches Err(Error::TypeMismatch(a, c)) && a@
                == TypeModel::Number(NumberType::U64) && c@ == t@ && n1 == m)
            &&& t@ == TypeModel::Number(NumberType::U64) && addressable(i@, m.stack_pointer) && m.labels_left(2)
                && m.items_left(1) && (alloc_spec(d, b.1@, d.struct_table.len() as nat) matches Some((sz, _)) && sz
                <= u16::MAX) ==> r is Ok
            &&& r matches Ok((t2, idx)) ==> t2@ == TypeModel::Array(Box::new(b.1@)) && init_array_code(
                d,
                b.1@,
                n0,
                m,
                n1,
                item_of(i@),
                idx@,
            )
        },
    }
}

/// What `x[i]` (`b` is `(x, i)`) does from `n0`, ending at `n1` with `r`:
/// the code of `x` runs, then that of `i`, and the first failure is the
/// expression's; an index that is not a `u16` gives `TypeMismatch(u16, its
/// type)`; anything but a reference to an array (an array value too) gives
/// `CannotAccessArray`; a `void` reference gives `InvalidIndex`; otherwise a
/// reference to the element is pushed as the new top item whenever both
/// operands are at live items and there is room for one more item and two
/// labels.
#[verifier::opaque]
pub open spec fn array_run(d: &DefinitionTable, v: VarsModel, b: (Expression, Expression), n0: Nasm, n1: Nasm, r: Result<(ExpressionType, Index), Error>) -> bool {
    exists|m1: Nasm, ra: Result<(ExpressionType, Index), Error>| #[trigger] expr_code(d, v, b.0, n0, m1, ra) && match ra {
        Err(e) => r == Err::<(ExpressionType, Index), Error>(e) && n1 == m1,
        Ok((ta, ai)) => exists|m2: Nasm, rx: Result<(ExpressionType, Index), Error>| #[trigger] expr_code(
            d,
            v,
            b.1,
            m1,
            m2,
            rx,
        ) && grows(n0, m1) && match rx {
            Err(e) => r == Err::<(ExpressionType, Index), Error>(e) && n1 == m2,
            Ok((tx, xi)) => if tx@ != TypeModel::Number(NumberType::U16) {
                r matches Err(Error::TypeMismatch(a, c)) && a@ == TypeModel::Number(NumberType::U16) && c@ == tx@
                    && n1 == m2
            } else if ta@ matches TypeModel::Ref(inner) && *inner is Array {
                &&& ai@ is None ==> (r matches Err(Error::InvalidIndex) && n1 == m2)
                &&& addressable(ai@, m2.stack_pointer) && addressable(xi@, m2.stack_pointer) && m2.labels_left(2)
                    && m2.items_left(1) ==> r is Ok
                &&& r matches Ok((t2, idx)) ==> t2@ == TypeModel::Ref((*(ta@->Ref_0))->Array_0) && array_code(
                    n0,
                    m2,
                    n1,
                    item_of(ai@),
                    item_of(xi@),
                    idx@,
                )
            } else {
                r matches Err(Error::CannotAccessArray) && n1 == m2
            },
        },
    }
}

/// What `as(T)x` (`b` is `(T, x)`) does from `n0`, ending at `n1` with `r`:
/// the code of `x` runs, and its failure is the expression's; a number cast
/// to a number type is copied into a fresh item of that type, the new top
/// item, whenever it is an integer at a live item and there is room for one
/// more item (a float gives an error); any other cast gives `x`'s own item
/// as a `T`, writing nothing.
#[verifier::opaque]
pub open spec fn as_run(d: &DefinitionTable, v: VarsModel, b: (ExpressionType, Expression), n0: Nasm, n1: Nasm, r: Result<(ExpressionType, Index), Error>) -> bool {
    exists|m: Nasm, rx: Result<(ExpressionType, Index), Error>| #[trigger] expr_code(d, v, b.1, n0, m, rx) && match rx {
        Err(e) => r == Err::<(ExpressionType, Index), Error>(e) && n1 == m,
        Ok((t, i)) => match (b.0@, t@) {
            (TypeModel::Number(to), TypeModel::Number(from)) => {
                &&& addressable(i@, m.stack_pointer) && !from.is_float() && m.items_left(1) ==> r is Ok
                &&& from.is_float() ==> r is Err
                &&& r matches Ok((t2, idx)) ==> t2 == b.0 && as_code(n0, m, n1, from, to, item_of(i@), idx@)
            },
            _ => r == Ok::<(ExpressionType, Index), Error>((b.0, i)) && n1 == m,
        },
    }
}

/// What a field access of the field `f` of struct `sn` does from `m`,
/// ending at `n1` with `r`, when the struct's item is `i` (`by_ref`: `i`
/// holds a reference to it): an unknown struct gives `UnknownType`, a
/// missing field `UnknownField(sn, f)`, and nothing is written then.
pub open spec fn field_lookup(d: &DefinitionTable, sn: Seq<char>, f: Seq<char>, m: Nasm, n1: Nasm, r: Result<(ExpressionType, Index), Error>) -> bool {
    &&& d.lookup_struct(sn) is None ==> (r matches Err(Error::UnknownType(k)) && k@ == sn && n1 == m)
    &&& d.lookup_struct(sn) is Some && field_index(d.lookup_struct(sn)->Some_0, f) is None ==> (r matches Err(
        Error::UnknownField(a, c),
    ) && a@ == sn && c@ == f && n1 == m)
}

/// What `x.f` (`b` is `(x, f)`) does from `n0`, ending at `n1` with `r`: the
/// code of `x` runs, and its failure is the expression's; a struct value
/// gives the field as a longer path into its item, writing nothing more; a
/// reference to a struct gives a reference to the field, pushed as the new
/// top item; an unknown struct or field is refused (`field_lookup`), and
/// anything else gives `CannotAccessStruct`.
#[verifier::opaque]
pub open spec fn field_run(d: &DefinitionTable, v: VarsModel, b: (Expression, String), n0: Nasm, n1: Nasm, r: Result<(ExpressionType, Index), Error>) -> bool {
    exists|m: Nasm, rx: Result<(ExpressionType, Index), Error>| #[trigger] expr_code(d, v, b.0, n0, m, rx) && match rx {
        Err(e) => r == Err::<(ExpressionType, Index), Error>(e) && n1 == m,
        Ok((t, i)) => match t@ {
            TypeModel::Struct(sn) => {
                &&& field_lookup(d, sn, b.1@, m, n1, r)
                &&& field_type(d, sn, b.1@) is Some && i@ is Some && field_index(
                    d.lookup_struct(sn)->Some_0,
                    b.1@,
                )->Some_0 <= u16::MAX ==> r is Ok
                &&& r matches Ok((t2, idx)) ==> field_type(d, sn, b.1@) == Some(t2@) && n1 == m && field_code(
                    n0,
                    n1,
                    item_of(i@),
                    field_index(d.lookup_struct(sn)->Some_0, b.1@)->Some_0,
                    idx@,
                )
            },
            TypeModel::Ref(inner) => match *inner {
                TypeModel::Struct(sn) => {
                    &&& field_lookup(d, sn, b.1@, m, n1, r)
                    &&& field_type(d, sn, b.1@) is Some && addressable(i@, m.stack_pointer) && m.labels_left(2)
                        && m.items_left(1) ==> r is Ok
                    &&& r matches Ok((t2, idx)) ==> (field_type(d, sn, b.1@) matches Some(ft) && t2@ == TypeModel::Ref(
                        Box::new(ft),
                    )) && ref_field_code(
                        n0,
                        m,
                        n1,
                        item_of(i@),
                        field_index(d.lookup_struct(sn)->Some_0, b.1@)->Some_0,
                        idx@,
                    )
                },
                _ => r matches Err(Error::CannotAccessStruct) && n1 == m,
            },
            _ => r matches Err(Error::CannotAccessStruct) && n1 == m,
        },
    }
}

/// What a string literal `s` did, taking the emitter from `n0` to `n1`: its
/// bytes, zero-terminated, are added to the data section under a fresh name,
/// and their address is pushed as a `u64`.
#[verifier::opaque]
pub open spec fn string_outcome(n0: Nasm, n1: Nasm, s: Seq<char>, r: Result<(ExpressionType, Index), Error>) -> bool {
    let name = "db_string_"@ + dec(n0.uniq_index as nat);
    &&& r matches Ok((t, idx)) && t@ == TypeModel::Number(NumberType::U64) && idx@ == Some(
        (n0.stack_pointer, Seq::<u16>::empty()),
    )
    &&& n1.rodata@ == n0.rodata@ + line(name + ": db "@ + crate::nasm::cstr_operand(vstd::utf8::encode_utf8(s)))
    &&& n1.writer@ == n0.writer@ + line("mov "@ + "rbx"@ + ", "@ + name) + push_register_text("rbx"@, RegisterSize::S64)
    &&& n1.stack_pointer == n0.stack_pointer + 1
    &&& n1.uniq_index == n0.uniq_index + 1
}

/// The code of `&x`: the code of `x` takes the emitter from `n0` to `mid`
/// and leaves `x` at item `i`; then a reference to that item is pushed as
/// the new top item `idx`.
pub open spec fn ref_code(n0: Nasm, mid: Nasm, n1: Nasm, i: (u16, Seq<u16>), idx: Option<(u16, Seq<u16>)>) -> bool {
    &&& grows(n0, mid)
    &&& n1.writer@ == mid.writer@ + push_idx2ref_text("bx"@, i.0, i.1, mid.stack_pointer)
    &&& n1.stack_pointer == mid.stack_pointer + 1
    &&& idx == Some((mid.stack_pointer, Seq::<u16>::empty()))
}

/// What a successful `&x` did, taking the emitter from `n0` to `n1` with its
/// result at `idx`.
#[verifier::opaque]
pub open spec fn ref_outcome(n0: Nasm, n1: Nasm, idx: Option<(u16, Seq<u16>)>) -> bool {
    exists|mid: Nasm, i: (u16, Seq<u16>)| #[trigger] ref_code(n0, mid, n1, i, idx)
}

/// The code of `*x`: the code of `x` takes the emitter from `n0` to `mid` and
/// leaves the reference at the live item `i`; then the reference is turned
/// into the address of the item it names, and a copy of that item is pushed
/// as the new top item `idx`.
pub open spec fn deref_code(n0: Nasm, mid: Nasm, n1: Nasm, i: (u16, Seq<u16>), idx: Option<(u16, Seq<u16>)>) -> bool {
    &&& grows(n0, mid)
    &&& i.0 < mid.stack_pointer
    &&& n1.writer@ == mid.writer@ + idx2addr_text("rbx"@, i.0, i.1, mid.stack_pointer) + ref2addr_text(
        mid.uniq_index as nat,
    ) + push_copy_addr_text((mid.uniq_index + 1) as nat)
    &&& n1.stack_pointer == mid.stack_pointer + 1
    &&& idx == Some((mid.stack_pointer, Seq::<u16>::empty()))
}

/// What a successful `*x` did, taking the emitter from `n0` to `n1` with its
/// result at `idx`.
#[verifier::opaque]
pub open spec fn deref_outcome(n0: Nasm, n1: Nasm, idx: Option<(u16, Seq<u16>)>) -> bool {
    exists|mid: Nasm, i: (u16, Seq<u16>)| #[trigger] deref_code(n0, mid, n1, i, idx)
}

/// The code of `x.f` on a struct value: the code of `x` takes the emitter
/// from `n0` to `n1` and leaves `x` at `i`; nothing more is written, and the
/// field is `i` with the field's position `k` appended to its path.
pub open spec fn field_code(n0: Nasm, n1: Nasm, i: (u16, Seq<u16>), k: int, idx: Option<(u16, Seq<u16>)>) -> bool {
    &&& grows(n0, n1)
    &&& idx == Some((i.0, i.1.push(k as u16)))
}

/// What `ref_field_text` writes for a reference at item `i` with `sp` items
/// on the stack and labels numbered from `u`: a copy of the reference whose
/// last path step is moved on by the field's position `k`.
pub open spec fn ref_field_text(i: (u16, Seq<u16>), k: int, sp: u16, u: nat) -> Seq<char> {
    idx2addr_text("rsi"@, i.0, i.1, sp) + push_copy_addr_text(u) + line("mov rbx, rsp"@) + line("add rbx, [rbx]"@)
        + line("sub rbx, 2"@) + line("add word [rbx], "@ + dec((k as u16) as nat))
}

/// The code of `x.f` on a reference to a struct: the code of `x` takes the
/// emitter from `n0` to `mid` and leaves the reference at the live item `i`;
/// then a reference to the field is pushed as the new top item `idx`.
pub open spec fn ref_field_code(
    n0: Nasm,
    mid: Nasm,
    n1: Nasm,
    i: (u16, Seq<u16>),
    k: int,
    idx: Option<(u16, Seq<u16>)>,
) -> bool {
    &&& grows(n0, mid)
    &&& i.0 < mid.stack_pointer
    &&& n1.writer@ == mid.writer@ + ref_field_text(i, k, mid.stack_pointer, mid.uniq_index as nat)
    &&& n1.stack_pointer == mid.stack_pointer + 1
    &&& idx == Some((mid.stack_pointer, Seq::<u16>::empty()))
}

/// What a successful `x.f` (`b` is `(x, f)`) did, taking the emitter from
/// `n0` to `n1` with its result at `idx`.
#[verifier::opaque]
pub open spec fn field_outcome(
    d: &DefinitionTable,
    v: VarsModel,
    b: (Expression, String),
    n0: Nasm,
    n1: Nasm,
    idx: Option<(u16, Seq<u16>)>,
) -> bool {
    match typed(d, v, &b.0) {
        Some(TypeModel::Struct(sn)) => exists|i: (u16, Seq<u16>)| #[trigger]
            field_code(n0, n1, i, field_index(d.lookup_struct(sn)->Some_0, b.1@)->Some_0, idx),
        Some(TypeModel::Ref(inner)) => match *inner {
            TypeModel::Struct(sn) => exists|mid: Nasm, i: (u16, Seq<u16>)| #[trigger]
                ref_field_code(n0, mid, n1, i, field_index(d.lookup_struct(sn)->Some_0, b.1@)->Some_0, idx),
            _ => false,
        },
        _ => false,
    }
}

/// What taking an element of an array through a reference writes, with the
/// reference at item `a`, the `u16` index at item `x`, `sp` items on the
/// stack and labels numbered from `u`: a copy of the reference with the
/// index added as one more path step.
pub open spec fn array_elem_text(a: (u16, Seq<u16>), x: (u16, Seq<u16>), sp: u16, u: nat) -> Seq<char> {
    idx2addr_text("rsi"@, a.0, a.1, sp) + idx2addr_text("rcx"@, x.0, x.1, sp) + line("mov cx, [rcx+8]"@) + line(
        "sub rsp, 2"@,
    ) + line("mov [rsp], cx"@) + push_copy_addr_text(u) + line("add qword [rsp], 2"@)
}

/// The code of `x[i]`: the operands' code takes the emitter from `n0` to
/// `mid`, leaving the reference to the array at the live item `a` and the
/// index at the live item `x`; then a reference to the element is pushed as
/// the new top item `idx`.
pub open spec fn array_code(
    n0: Nasm,
    mid: Nasm,
    n1: Nasm,
    a: (u16, Seq<u16>),
    x: (u16, Seq<u16>),
    idx: Option<(u16, Seq<u16>)>,
) -> bool {
    &&& grows(n0, mid)
    &&& a.0 < mid.stack_pointer && x.0 < mid.stack_pointer
    &&& n1.writer@ == mid.writer@ + array_elem_text(a, x, mid.stack_pointer, mid.uniq_index as nat)
    &&& n1.stack_pointer == mid.stack_pointer + 1
    &&& idx == Some((mid.stack_pointer, Seq::<u16>::empty()))
}

/// What a successful `x[i]` did, taking the emitter from `n0` to `n1` with
/// its result at `idx`.
#[verifier::opaque]
pub open spec fn array_outcome(n0: Nasm, n1: Nasm, idx: Option<(u16, Seq<u16>)>) -> bool {
    exists|mid: Nasm, a: (u16, Seq<u16>), x: (u16, Seq<u16>)| #[trigger] array_code(n0, mid, n1, a, x, idx)
}

/// The code of `[n]T`: the length's code takes the emitter from `n0` to
/// `mid` and leaves the length at the live item `x`; then a loop lays out as
/// many elements as the length says (the layout `elem` of one `T`, of `size`
/// bytes, is its body) and sums their sizes, and the array's size tag is
/// pushed; the array is the new top item `idx`.
pub open spec fn init_array_code(
    d: &DefinitionTable,
    t: TypeModel,
    n0: Nasm,
    mid: Nasm,
    n1: Nasm,
    x: (u16, Seq<u16>),
    idx: Option<(u16, Seq<u16>)>,
) -> bool {
    &&& grows(n0, mid)
    &&& x.0 < mid.stack_pointer
    &&& alloc_spec(d, t, d.struct_table.len() as nat) matches Some((size, elem)) && {
        let top = local_name("init_array_body"@, mid.uniq_index as nat);
        let exit = local_name("init_array_return"@, mid.uniq_index as nat);
        n1.writer@ == mid.writer@ + idx2addr_text("rcx"@, x.0, x.1, mid.stack_pointer) + line("mov rcx, [rcx+8]"@)
            + line("mov rdx, 8"@) + label(top) + line("cmp rcx, 0"@) + line("je "@ + exit) + elem + line(
            "add rdx, "@ + dec(size as nat),
        ) + line("sub rcx, 1"@) + line("jmp "@ + top) + label(exit) + inc_text() + stag_text("rdx"@)
    }
    &&& n1.stack_pointer == mid.stack_pointer + 1
    &&& idx == Some((mid.stack_pointer, Seq::<u16>::empty()))
}

/// What a successful `[n]T` did, taking the emitter from `n0` to `n1` with
/// its result at `idx`.
#[verifier::opaque]
pub open spec fn init_array_outcome(
    d: &DefinitionTable,
    t: TypeModel,
    n0: Nasm,
    n1: Nasm,
    idx: Option<(u16, Seq<u16>)>,
) -> bool {
    exists|mid: Nasm, x: (u16, Seq<u16>)| #[trigger] init_array_code(d, t, n0, mid, n1, x, idx)
}

/// The name `as(T)` gives the item it pushes for a number of type `t`.
pub open spec fn as_name(t: NumberType) -> Seq<char> {
    match t {
        NumberType::I8 => "as_i8"@,
        NumberType::I16 => "as_i16"@,
        NumberType::I32 => "as_i32"@,
        NumberType::I64 => "as_i64"@,
        NumberType::U8 => "as_u8"@,
        NumberType::U16 => "as_u16"@,
        NumberType::U32 => "as_u32"@,
        NumberType::U64 => "as_u64"@,
        NumberType::F32 => "as_f32"@,
        NumberType::F64 => "as_f64"@,
    }
}

/// The instruction `as(T)` stores a number of type `t` with.
pub open spec fn as_store(t: NumberType) -> Seq<char> {
    match t {
        NumberType::U8 | NumberType::I8 => "mov [rsp+8], b"@,
        NumberType::U16 | NumberType::I16 => "mov [rsp+8], bx"@,
        NumberType::F32 | NumberType::U32 | NumberType::I32 => "mov [rsp+8], ebx"@,
        NumberType::F64 | NumberType::U64 | NumberType::I64 => "mov [rsp+8], rbx"@,
    }
}

/// The code of `as(T)x` from one number type to another: the code of `x`
/// takes the emitter from `n0` to `mid` and leaves `x`, of type `from`, at
/// the live item `x`; then its value is moved into a register and stored in
/// a new item of type `to`, the new top item `idx`.
pub open spec fn as_code(
    n0: Nasm,
    mid: Nasm,
    n1: Nasm,
    from: NumberType,
    to: NumberType,
    x: (u16, Seq<u16>),
    idx: Option<(u16, Seq<u16>)>,
) -> bool {
    &&& grows(n0, mid)
    &&& x.0 < mid.stack_pointer
    &&& n1.writer@ == mid.writer@ + mov_num_text(from, x, mid.stack_pointer, "b"@, "bx"@, "ebx"@, "rbx"@, "rcx"@)
        + push_text((to.spec_size_bytes() + 8) as nat, as_name(to)) + line(as_store(to))
    &&& n1.stack_pointer == mid.stack_pointer + 1
    &&& idx == Some((mid.stack_pointer, Seq::<u16>::empty()))
}

/// What a successful `as(T)x` (`b` is `(T, x)`) did, taking the emitter from
/// `n0` to `n1` with its result at `idx`, when both types are numbers.
#[verifier::opaque]
pub open spec fn as_outcome(
    d: &DefinitionTable,
    v: VarsModel,
    b: (ExpressionType, Expression),
    n0: Nasm,
    n1: Nasm,
    idx: Option<(u16, Seq<u16>)>,
) -> bool {
    match (b.0@, typed(d, v, &b.1)) {
        (TypeModel::Number(to), Some(TypeModel::Number(from))) => exists|mid: Nasm, x: (u16, Seq<u16>)| #[trigger]
            as_code(n0, mid, n1, from, to, x, idx),
        _ => true,
    }
}

/// What generating the code of `expr` did, taking the emitter from `n0` to
/// `n1` with the outcome `r`: a well-typed expression with `room` is
/// `compiled`; the code each kind of expression writes; and when a string
/// literal fails.
#[verifier::opaque]
pub open spec fn expr_code(
    d: &DefinitionTable,
    v: VarsModel,
    expr: Expression,
    n0: Nasm,
    n1: Nasm,
    r: Result<(ExpressionType, Index), Error>,
) -> bool {
    &&& typed(d, v, &expr) is Some && room(d, v, &expr, n0) ==> compiled(d, v, &expr, n0, n1, r)
    &&& match expr {
        Expression::Call(k, _) => d.lookup_fn(k@) matches Some(f) ==> (r is Ok ==> call_outcome(d, f, k@, n0, n1)),
        Expression::BinOp(b) => r matches Ok((_, idx)) ==> binop_outcome(d, v, *b, n0, n1, idx@),
        Expression::Ref(_) => r matches Ok((_, idx)) ==> ref_outcome(n0, n1, idx@),
        Expression::Deref(_) => r matches Ok((_, idx)) ==> deref_outcome(n0, n1, idx@),
        Expression::InitArray(b) => r matches Ok((_, idx)) ==> init_array_outcome(d, b.1@, n0, n1, idx@),
        Expression::FieldAccess(b) => r matches Ok((_, idx)) ==> field_outcome(d, v, *b, n0, n1, idx@),
        Expression::ArrayAccess(_) => r matches Ok((_, idx)) ==> array_outcome(n0, n1, idx@),
        Expression::As(b) => r matches Ok((_, idx)) ==> as_outcome(d, v, *b, n0, n1, idx@),
        Expression::String(s) => {
            &&& n0.labels_left(1) && n0.items_left(1) ==> string_outcome(n0, n1, s@, r)
            &&& !(n0.labels_left(1) && n0.items_left(1)) ==> r matches Err(Error::LimitExceeded)
        },
        Expression::Symbol(s) => n1 == n0 && match r {
            Ok((t, i)) => v.resolve(s@) == Some((t@, i@)),
            Err(e) => v.resolve(s@) is None && (e matches Error::UnknownSymbol(k) && k@ == s@),
        },
        Expression::Number(k) => {
            &&& n0.items_left(1) ==> (r matches Ok((t, idx)) && t@ == TypeModel::Number(k.spec_numtype()) && idx@
                == Some((n0.stack_pointer, Seq::<u16>::empty())) && n1.writer@ == n0.writer@ + push_text(
                (k.spec_numtype().spec_size_bytes() + 8) as nat,
                "number"@,
            ) + number_line(k) && n1.stack_pointer == n0.stack_pointer + 1 && n1.uniq_index == n0.uniq_index)
            &&& !n0.items_left(1) ==> r matches Err(Error::LimitExceeded)
        },
    }
}

/// The operand `codegen_number` stores and the width and type suffix it
/// names.
pub open spec fn number_line(n: Number) -> Seq<char> {
    match n {
        Number::I8(v) => line("mov byte [rsp+8], "@ + int_dec(v as int) + " ; push_number (i8)"@),
        Number::I16(v) => line("mov word [rsp+8], "@ + int_dec(v as int) + " ; push_number (i16)"@),
        Number::I32(v) => line("mov dword [rsp+8], "@ + int_dec(v as int) + " ; push_number (i32)"@),
        Number::I64(v) => line("mov qword [rsp+8], "@ + int_dec(v as int) + " ; push_number (i64)"@),
        Number::U8(v) => line("mov byte [rsp+8], "@ + dec(v as nat) + " ; push_number (u8)"@),
        Number::U16(v) => line("mov word [rsp+8], "@ + dec(v as nat) + " ; push_number (u16)"@),
        Number::U32(v) => line("mov dword [rsp+8], "@ + dec(v as nat) + " ; push_number (u32)"@),
        Number::U64(v) => line("mov qword [rsp+8], "@ + dec(v as nat) + " ; push_number (u64)"@),
        Number::F32(bits) => line("mov dword [rsp+8], "@ + dec(bits as nat) + " ; push_number (f32)"@),
        Number::F64(bits) => line("mov qword [rsp+8], "@ + dec(bits as nat) + " ; push_number (f64)"@),
    }
}

/// The register that carries argument `i < 6` of a C call, at a width.
pub open spec fn c_arg_reg(i: int, size: RegisterSize) -> Seq<char> {
    match size {
        RegisterSize::S64 => if i == 0 { "rdi"@ } else if i == 1 { "rsi"@ } else if i == 2 { "rdx"@ } else if i == 3 {
            "rcx"@
        } else if i == 4 { "r8"@ } else { "r9"@ },
        RegisterSize::S32 => if i == 0 { "edi"@ } else if i == 1 { "esi"@ } else if i == 2 { "edx"@ } else if i == 3 {
            "ecx"@
        } else if i == 4 { "r8d"@ } else { "r9d"@ },
        RegisterSize::S16 => if i == 0 { "di"@ } else if i == 1 { "si"@ } else if i == 2 { "dx"@ } else if i == 3 {
            "cx"@
        } else if i == 4 { "r8w"@ } else { "r9w"@ },
        RegisterSize::S8 => if i == 0 { "dil"@ } else if i == 1 { "sil"@ } else if i == 2 { "dl"@ } else if i == 3 {
            "cl"@
        } else if i == 4 { "r8b"@ } else { "r9b"@ },
    }
}

/// Arguments of a call as the code generator sees them: types and indices.
pub open spec fn args_view(params: Seq<(ExpressionType, Index)>) -> Seq<(TypeModel, Option<(u16, Seq<u16>)>)> {
    params.map_values(|p: (ExpressionType, Index)| (p.0@, p.1@))
}

/// Every argument is an integer, as a C function takes them.
pub open spec fn c_args_ok(ps: Seq<(TypeModel, Option<(u16, Seq<u16>)>)>) -> bool {
    forall|i: int| 0 <= i < ps.len() ==> (#[trigger] ps[i]).0 is Number && !ps[i].0->Number_0.is_float()
}

/// What passing argument `i` of a C call writes: the first six go into
/// registers, the rest are pushed on the machine stack.
pub open spec fn c_arg_text(i: int, t: NumberType, idx: (u16, Seq<u16>), sp: u16) -> Seq<char> {
    let size = crate::nasm::num_size(t);
    if i < 6 {
        line("xor "@ + c_arg_reg(i, RegisterSize::S64) + ", "@ + c_arg_reg(i, RegisterSize::S64)) + idx2addr_text(
            "r10"@,
            idx.0,
            idx.1,
            sp,
        ) + line("mov "@ + c_arg_reg(i, size) + ", [r10+8]"@)
    } else {
        idx2addr_text("rbx"@, idx.0, idx.1, sp) + line("mov "@ + size.spec_b() + ", [rbx+8]"@) + line(
            "push "@ + size.spec_b(),
        )
    }
}

/// What passing arguments `lo..` writes, last argument first.
pub open spec fn c_args_text(ps: Seq<(TypeModel, Option<(u16, Seq<u16>)>)>, sp: u16, lo: int) -> Seq<char>
    decreases ps.len() - lo,
{
    if lo < 0 || lo >= ps.len() {
        Seq::empty()
    } else {
        c_args_text(ps, sp, lo + 1) + c_arg_text(lo, ps[lo].0->Number_0, item_of(ps[lo].1), sp)
    }
}

/// The bytes pushed on the machine stack for arguments `lo..`.
pub open spec fn c_stack_size(ps: Seq<(TypeModel, Option<(u16, Seq<u16>)>)>, lo: int) -> int
    decreases ps.len() - lo,
{
    if lo < 0 || lo >= ps.len() {
        0
    } else {
        c_stack_size(ps, lo + 1) + if lo >= 6 {
            crate::nasm::num_size(ps[lo].0->Number_0).spec_size_bytes() as int
        } else {
            0
        }
    }
}

/// The bytes pushed for a suffix of the arguments never exceed those pushed
/// for a longer suffix.
pub proof fn lemma_c_stack_size_mono(ps: Seq<(TypeModel, Option<(u16, Seq<u16>)>)>, a: int, b: int)
    requires
        0 <= a <= b,
    ensures
        0 <= c_stack_size(ps, b) <= c_stack_size(ps, a),
    decreases b - a,
{
    if a < b {
        lemma_c_stack_size_mono(ps, a + 1, b);
    } else {
        lemma_c_stack_size_nonneg(ps, b);
    }
}

pub proof fn lemma_c_stack_size_nonneg(ps: Seq<(TypeModel, Option<(u16, Seq<u16>)>)>, a: int)
    ensures
        0 <= c_stack_size(ps, a),
    decreases ps.len() - a,
{
    if 0 <= a < ps.len() {
        lemma_c_stack_size_nonneg(ps, a + 1);
    }
}

/// The type a C function's result has in Stucker.
pub open spec fn c_ret_model(ret: Option<NumberType>) -> TypeModel {
    match ret {
        Some(n) => TypeModel::Number(n),
        None => TypeModel::Void,
    }
}

/// What a call of C function `name` writes.
pub open spec fn c_call_text(
    ps: Seq<(TypeModel, Option<(u16, Seq<u16>)>)>,
    sp: u16,
    name: Seq<char>,
    ret: Option<NumberType>,
) -> Seq<char> {
    let n = c_stack_size(ps, 0);
    c_args_text(ps, sp, 0) + line("xor eax, eax"@) + line("call "@ + "_"@ + name) + (if n != 0 {
        line("sub rsp, "@ + dec(n as nat))
    } else {
        Seq::empty()
    }) + (if ret is Some {
        push_register_text("rax"@, RegisterSize::S64)
    } else {
        Seq::empty()
    })
}

/// What copying the first `n` arguments `ps` onto the stack writes: the
/// first copy is made with `sp` items on the stack, and each copy takes one
/// more item and two labels, numbered from `u`.
pub open spec fn arg_copies_text(ps: Seq<(TypeModel, Option<(u16, Seq<u16>)>)>, n: nat, sp: u16, u: nat) -> Seq<char>
    decreases n,
{
    if n == 0 || n > ps.len() {
        Seq::empty()
    } else {
        let k = (n - 1) as nat;
        arg_copies_text(ps, k, sp, u) + idx2addr_text("rsi"@, item_of(ps[k as int].1).0, item_of(ps[k as int].1).1, (sp + k) as u16)
            + push_copy_addr_text(u + 2 * k)
    }
}

/// A call of a function returning `ret` with parameters `params` on the
/// arguments `ps` is well typed, its arguments are live items, and the
/// emitter `n` has room for the call's labels and items.
pub open spec fn stucker_call_fits(
    d: &DefinitionTable,
    ret: TypeModel,
    params: Seq<TypeModel>,
    ps: Seq<(TypeModel, Option<(u16, Seq<u16>)>)>,
    n: Nasm,
) -> bool {
    &&& ps.len() == params.len()
    &&& forall|i: int| 0 <= i < ps.len() ==> (#[trigger] ps[i]).0 == params[i] && addressable(ps[i].1, n.stack_pointer)
    &&& ret != TypeModel::Void ==> (alloc_top_spec(d, ret) matches Some((m, _)) && m <= u16::MAX)
    &&& n.labels_left(2 * ps.len() + 1)
    &&& n.items_left(ps.len() + 2)
}

/// What a call of the Stucker function `name` writes, with `sp` items on
/// the stack and labels numbered from `u`: the return slot (unless it
/// returns `void`), the return address, a copy of each argument, the jump,
/// and the label the callee returns to.
pub open spec fn stucker_call_text(
    d: &DefinitionTable,
    ret: TypeModel,
    ps: Seq<(TypeModel, Option<(u16, Seq<u16>)>)>,
    sp: u16,
    name: Seq<char>,
    u: nat,
) -> Seq<char> {
    let slot = if ret != TypeModel::Void { alloc_top_spec(d, ret)->Some_0.1 } else { Seq::empty() };
    let base = (sp + if ret != TypeModel::Void { 2int } else { 1int }) as u16;
    let back = local_name("call_return"@, u);
    slot + line("lea rax, ["@ + back + "] ; codegen_call (ret)"@) + push_register_text("rax"@, RegisterSize::S64)
        + arg_copies_text(ps, ps.len(), base, u) + line("jmp "@ + ("_"@ + name) + " ; codegen_call (jmp)"@) + label(back)
}

/// The code of a call of a Stucker function: the arguments' code takes the
/// emitter from `n0` to `mid`, leaving their values `ps`; then the call's
/// code follows.
pub open spec fn call_code(
    d: &DefinitionTable,
    ret: TypeModel,
    ps: Seq<(TypeModel, Option<(u16, Seq<u16>)>)>,
    name: Seq<char>,
    n0: Nasm,
    mid: Nasm,
    n1: Nasm,
) -> bool {
    &&& grows(n0, mid)
    &&& n1.writer@ == mid.writer@ + stucker_call_text(d, ret, ps, mid.stack_pointer, name, mid.uniq_index as nat)
}

/// A call of an `i32` function without arguments: its return slot, its
/// return address, the jump and the label it returns to.
pub proof fn lemma_no_arg_call_text(d: &DefinitionTable, sp: u16, name: Seq<char>, u: nat)
    ensures
        stucker_call_text(d, TypeModel::Number(NumberType::I32), Seq::empty(), sp, name, u) == push_text(12, "number"@)
            + line("lea rax, ["@ + local_name("call_return"@, u) + "] ; codegen_call (ret)"@) + push_register_text(
            "rax"@,
            RegisterSize::S64,
        ) + line("jmp "@ + ("_"@ + name) + " ; codegen_call (jmp)"@) + label(local_name("call_return"@, u)),
{
    let back = local_name("call_return"@, u);
    let a = push_text(12, "number"@) + line("lea rax, ["@ + back + "] ; codegen_call (ret)"@) + push_register_text(
        "rax"@,
        RegisterSize::S64,
    );
    assert(arg_copies_text(Seq::empty(), 0, (sp + 2) as u16, u) == Seq::<char>::empty());
    assert(a + Seq::<char>::empty() =~= a);
}

/// The code of a call of a C function: the arguments' code takes the emitter
/// from `n0` to `mid`, leaving their values `ps`; then the call's code
/// follows.
pub open spec fn c_call_code(
    ret: Option<NumberType>,
    ps: Seq<(TypeModel, Option<(u16, Seq<u16>)>)>,
    name: Seq<char>,
    n0: Nasm,
    mid: Nasm,
    n1: Nasm,
) -> bool {
    &&& grows(n0, mid)
    &&& n1.writer@ == mid.writer@ + c_call_text(ps, mid.stack_pointer, name, ret)
}

/// What a successful call of the function `name` with signature `f` did,
/// taking the emitter from `n0` to `n1`: the arguments' code, then the
/// call's code.
#[verifier::opaque]
pub open spec fn call_outcome(d: &DefinitionTable, f: FnModel, name: Seq<char>, n0: Nasm, n1: Nasm) -> bool {
    match f {
        FnModel::Stucker { ret, params } => exists|mid: Nasm, ps: Seq<(TypeModel, Option<(u16, Seq<u16>)>)>| #[trigger]
            call_code(d, ret, ps, name, n0, mid, n1),
        FnModel::C { c_ret, c_params, variadic } => exists|mid: Nasm, ps: Seq<(TypeModel, Option<(u16, Seq<u16>)>)>|
            #[trigger] c_call_code(c_ret, ps, name, n0, mid, n1),
    }
}

/// The register of argument `i < 6` of a C call.
fn c_register(i: usize, size: &RegisterSize) -> (r: &'static str)
    requires
        i < 6,
    ensures
        r@ == c_arg_reg(i as int, *size),
{
    match size {
        RegisterSize::S64 => if i == 0 { "rdi" } else if i == 1 { "rsi" } else if i == 2 { "rdx" } else if i == 3 {
            "rcx"
        } else if i == 4 { "r8" } else { "r9" },
        RegisterSize::S32 => if i == 0 { "edi" } else if i == 1 { "esi" } else if i == 2 { "edx" } else if i == 3 {
            "ecx"
        } else if i == 4 { "r8d" } else { "r9d" },
        RegisterSize::S16 => if i == 0 { "di" } else if i == 1 { "si" } else if i == 2 { "dx" } else if i == 3 {
            "cx"
        } else if i == 4 { "r8w" } else { "r9w" },
        RegisterSize::S8 => if i == 0 { "dil" } else if i == 1 { "sil" } else if i == 2 { "dl" } else if i == 3 {
            "cl"
        } else if i == 4 { "r8b" } else { "r9b" },
    }
}

/// The register width of an integer type.
fn int_size(t: NumberType) -> (r: RegisterSize)
    ensures
        r == crate::nasm::num_size(t),
{
    match t {
        NumberType::I8 | NumberType::U8 => RegisterSize::S8,
        NumberType::I16 | NumberType::U16 => RegisterSize::S16,
        NumberType::I32 | NumberType::U32 | NumberType::F32 => RegisterSize::S32,
        _ => RegisterSize::S64,
    }
}

/// Whether a string equals a literal.
pub fn str_is(s: &String, lit: &str) -> (r: bool)
    ensures
        r == (s@ == lit@),
{
    *s == owned(lit)
}

/// Code generation inside one function: the emitter, the variables in
/// scope and the definitions.
pub struct FunctionCodegen<'a> {
    pub nasm: Nasm,
    pub var: &'a VarTable,
    pub def: &'a DefinitionTable,
}

impl<'a> FunctionCodegen<'a> {
    /// The context of the generated code is unchanged: the same variables
    /// and definitions.
    pub open spec fn same_context(&self, other: &FunctionCodegen<'a>) -> bool {
        self.var == other.var && self.def == other.def
    }

    pub fn new(nasm: Nasm, var: &'a VarTable, def: &'a DefinitionTable) -> (r: Self)
        ensures
            r.nasm == nasm,
            r.var == var,
            r.def == def,
    {
        Self { nasm, var, def }
    }

    /// Moves a number into a register of its width (cleared first); floats
    /// are an `ExpectedInteger` error.
    pub fn mov_num(
        &mut self,
        num: (NumberType, Index),
        reg8: &str,
        reg16: &str,
        reg32: &str,
        reg64: &str,
        sreg64: &str,
    ) -> (r: Result<(), Error>)
        ensures
            final(self).same_context(old(self)),
            final(self).nasm.stack_pointer == old(self).nasm.stack_pointer,
            grows(old(self).nasm, final(self).nasm),
            r is Ok <==> (crate::nasm::addressable(num.1@, old(self).nasm.stack_pointer) && !num.0.is_float()),
            r is Ok ==> final(self).nasm.writer@ == old(self).nasm.writer@ + mov_num_text(
                num.0,
                item_of(num.1@),
                old(self).nasm.stack_pointer,
                reg8@,
                reg16@,
                reg32@,
                reg64@,
                sreg64@,
            ),
            final(self).nasm.uniq_index == old(self).nasm.uniq_index,
            final(self).nasm.rodata@ == old(self).nasm.rodata@,
            r matches Err(Error::ExpectedInteger(t)) ==> t@ == TypeModel::Number(num.0),
            r is Err && !num.0.is_float() ==> is_limit_error(r->Err_0),
            r matches Err(e) ==> mov_num_error(num.0, num.1@, old(self).nasm.stack_pointer, e),
            !crate::nasm::addressable(num.1@, old(self).nasm.stack_pointer) ==> final(self).nasm.writer@
                == old(self).nasm.writer@ + line("xor "@ + reg64@ + ", "@ + reg64@),
            crate::nasm::addressable(num.1@, old(self).nasm.stack_pointer) && num.0.is_float()
                ==> final(self).nasm.writer@ == old(self).nasm.writer@ + line("xor "@ + reg64@ + ", "@ + reg64@) + idx2addr_text(
                sreg64@,
                item_of(num.1@).0,
                item_of(num.1@).1,
                old(self).nasm.stack_pointer,
            ),
    {
        let (cond_type, cond_idx) = num;
        let ghost w0 = self.nasm.writer@;
        self.nasm.emit(cat(cat(cat(owned("xor "), reg64), ", "), reg64));
        let ghost a = line("xor "@ + reg64@ + ", "@ + reg64@);
        let ghost n1 = self.nasm;
        let r = self.nasm.idx2addr(sreg64, &cond_idx);
        proof {
            lemma_grows_append(old(self).nasm, n1, a);
        }
        match r {
            Ok(()) => {},
            Err(e) => {
                proof { lemma_grows_refl(n1); }
                return Err(e);
            },
        }
        let ghost b = idx2addr_text(sreg64@, item_of(cond_idx@).0, item_of(cond_idx@).1, old(self).nasm.stack_pointer);
        let l = match cond_type {
            NumberType::I8 => cat(cat(cat(cat(owned("mov "), reg8), ", byte ["), sreg64), "+8]"),
            NumberType::I16 => cat(cat(cat(cat(owned("mov "), reg16), ", word ["), sreg64), "+8]"),
            NumberType::I32 => cat(cat(cat(cat(owned("mov "), reg32), ", dword ["), sreg64), "+8]"),
            NumberType::I64 => cat(cat(cat(cat(owned("mov "), reg64), ", qword ["), sreg64), "+8]"),
            NumberType::U8 => cat(cat(cat(cat(owned("mov "), reg8), ", byte ["), sreg64), "+8]"),
            NumberType::U16 => cat(cat(cat(cat(owned("mov "), reg16), ", word ["), sreg64), "+8]"),
            NumberType::U32 => cat(cat(cat(cat(owned("mov "), reg32), ", dword ["), sreg64), "+8]"),
            NumberType::U64 => cat(cat(cat(cat(owned("mov "), reg64), ", qword ["), sreg64), "+8]"),
            NumberType::F32 | NumberType::F64 => {
                proof {
                    vstd::seq_lib::lemma_concat_associative(w0, a, b);
                    lemma_grows_append(old(self).nasm, self.nasm, a + b);
                }
                return Err(Error::ExpectedInteger(ExpressionType::Number(cond_type)));
            },
        };
        self.nasm.emit(l);
        proof {
            vstd::seq_lib::lemma_concat_associative(w0, a, b);
            vstd::seq_lib::lemma_concat_associative(w0, a + b, line(l@));
            lemma_grows_append(old(self).nasm, self.nasm, a + b + line(l@));
        }
        Ok(())
    }

    /// Pushes a number literal.
    pub fn codegen_number(&mut self, number: Number) -> (r: Result<(ExpressionType, Index), Error>)
        ensures
            final(self).same_context(old(self)),
            old(self).nasm.items_left(1) ==> (r matches Ok((t, idx)) && t@ == TypeModel::Number(number.spec_numtype())
                && idx@ == Some((old(self).nasm.stack_pointer, Seq::<u16>::empty()))
                && final(self).nasm.writer@ == old(self).nasm.writer@ + push_text(
                    (number.spec_numtype().spec_size_bytes() + 8) as nat,
                    "number"@,
                ) + number_line(number)
                && final(self).nasm.stack_pointer == old(self).nasm.stack_pointer + 1
                && final(self).nasm.uniq_index == old(self).nasm.uniq_index
                && final(self).nasm.rodata@ == old(self).nasm.rodata@),
            !old(self).nasm.items_left(1) ==> (r matches Err(Error::LimitExceeded) && final(self).nasm == old(self).nasm),
    {
        let idx = self.nasm.push(number.size_bytes(), "number")?;
        let numtype = number.numtype();
        let l = match number {
            Number::I8(value) => cat(cat(owned("mov byte [rsp+8], "), i64_text(value as i64).as_str()), " ; push_number (i8)"),
            Number::I16(value) => cat(cat(owned("mov word [rsp+8], "), i64_text(value as i64).as_str()), " ; push_number (i16)"),
            Number::I32(value) => cat(cat(owned("mov dword [rsp+8], "), i64_text(value as i64).as_str()), " ; push_number (i32)"),
            Number::I64(value) => cat(cat(owned("mov qword [rsp+8], "), i64_text(value).as_str()), " ; push_number (i64)"),
            Number::U8(value) => cat(cat(owned("mov byte [rsp+8], "), u64_text(value as u64).as_str()), " ; push_number (u8)"),
            Number::U16(value) => cat(cat(owned("mov word [rsp+8], "), u64_text(value as u64).as_str()), " ; push_number (u16)"),
            Number::U32(value) => cat(cat(owned("mov dword [rsp+8], "), u64_text(value as u64).as_str()), " ; push_number (u32)"),
            Number::U64(value) => cat(cat(owned("mov qword [rsp+8], "), u64_text(value).as_str()), " ; push_number (u64)"),
            Number::F32(bits) => cat(cat(owned("mov dword [rsp+8], "), u64_text(bits as u64).as_str()), " ; push_number (f32)"),
            Number::F64(bits) => cat(cat(owned("mov qword [rsp+8], "), u64_text(bits).as_str()), " ; push_number (f64)"),
        };
        self.nasm.emit(l);
        Ok((ExpressionType::Number(numtype), idx))
    }

    /// Compares two integers with `set{operation}` and pushes the `u8`
    /// result.
    pub fn codegen_ord(&mut self, lhs: (NumberType, Index), rhs: (NumberType, Index), operation: &str) -> (r: Result<Index, Error>)
        ensures
            r is Ok ==> final(self).nasm.uniq_index == old(self).nasm.uniq_index,
            final(self).same_context(old(self)),
            grows(old(self).nasm, final(self).nasm),
            final(self).nasm.stack_pointer >= old(self).nasm.stack_pointer,
            r is Ok ==> !lhs.0.is_float() && !rhs.0.is_float(),
            r is Err && !lhs.0.is_float() && !rhs.0.is_float() ==> is_limit_error(r->Err_0),
            (addressable(lhs.1@, old(self).nasm.stack_pointer) && addressable(rhs.1@, old(self).nasm.stack_pointer)
                && !lhs.0.is_float() && !rhs.0.is_float() && old(self).nasm.items_left(1)) ==> (r matches Ok(idx)
                && idx@ == Some((old(self).nasm.stack_pointer, Seq::<u16>::empty()))
                && final(self).nasm.stack_pointer == old(self).nasm.stack_pointer + 1
                && final(self).nasm.writer@ == old(self).nasm.writer@ + ord_text(
                    lhs.0, item_of(lhs.1@), rhs.0, item_of(rhs.1@), old(self).nasm.stack_pointer, operation@)),
            r is Ok ==> addressable(lhs.1@, old(self).nasm.stack_pointer) && addressable(rhs.1@, old(self).nasm.stack_pointer)
                && old(self).nasm.items_left(1),
            r matches Err(e) ==> ord_error(lhs.0, lhs.1@, rhs.0, rhs.1@, old(self).nasm.stack_pointer, e),
    {
        let ghost n0 = self.nasm;
        proof { reveal(ord_error); }
        let ghost lt = lhs.0;
        let ghost li = lhs.1@;
        let ghost rt = rhs.0;
        let ghost ri = rhs.1@;
        let r1 = self.mov_num(lhs, "bl", "bx", "ebx", "rbx", "rdx");
        if r1.is_err() {
            return Err(r1.unwrap_err());
        }
        let ghost n1 = self.nasm;
        let r2 = self.mov_num(rhs, "cl", "cx", "ecx", "rcx", "rdx");
        if r2.is_err() {
            proof { lemma_grows_trans(n0, n1, self.nasm); }
            return Err(r2.unwrap_err());
        }
        let ghost n2 = self.nasm;
        self.nasm.emit(owned("cmp rbx, rcx"));
        let l = cat(cat(owned("set"), operation), " bl");
        self.nasm.emit(l);
        let ghost n3 = self.nasm;
        proof {
            reveal_strlit("bl");
        }
        let r = self.nasm.push_register("bl", RegisterSize::S8);
        proof {
            let a = mov_num_text(lt, item_of(li), n0.stack_pointer, "bl"@, "bx"@, "ebx"@, "rbx"@, "rdx"@);
            let b = mov_num_text(rt, item_of(ri), n0.stack_pointer, "cl"@, "cx"@, "ecx"@, "rcx"@, "rdx"@);
            let c = line("cmp rbx, rcx"@);
            let d = line(l@);
            lemma_extend(n0.writer@, a, b);
            lemma_extend(n0.writer@, a + b, c);
            lemma_extend(n0.writer@, a + b + c, d);
            lemma_grows_trans(n0, n1, n2);
            lemma_extend(n2.writer@, c, d);
            lemma_grows_append(n2, n3, c + d);
            lemma_grows_trans(n0, n2, n3);
            if r is Ok {
                lemma_extend(n0.writer@, a + b + c + d, push_register_text("bl"@, RegisterSize::S8));
                lemma_grows_append(n3, self.nasm, push_register_text("bl"@, RegisterSize::S8));
                lemma_grows_trans(n0, n3, self.nasm);
            } else {
                lemma_grows_refl(n3);
            }
        }
        r
    }

    /// Turns both integers into booleans and combines them with `operation`
    /// (`and` or `or`); pushes the `u8` result.
    #[verifier::rlimit(40)]
    #[verifier::spinoff_prover]
    pub fn codegen_and_or(&mut self, lhs: (NumberType, Index), rhs: (NumberType, Index), operation: &str) -> (r: Result<Index, Error>)
        ensures
            r is Ok ==> final(self).nasm.uniq_index == old(self).nasm.uniq_index,
            final(self).same_context(old(self)),
            grows(old(self).nasm, final(self).nasm),
            final(self).nasm.stack_pointer >= old(self).nasm.stack_pointer,
            r is Ok ==> !lhs.0.is_float() && !rhs.0.is_float(),
            r is Err && !lhs.0.is_float() && !rhs.0.is_float() ==> is_limit_error(r->Err_0),
            (addressable(lhs.1@, old(self).nasm.stack_pointer) && addressable(rhs.1@, old(self).nasm.stack_pointer)
                && !lhs.0.is_float() && !rhs.0.is_float() && old(self).nasm.items_left(1)) ==> (r matches Ok(idx)
                && idx@ == Some((old(self).nasm.stack_pointer, Seq::<u16>::empty()))
                && final(self).nasm.stack_pointer == old(self).nasm.stack_pointer + 1
                && final(self).nasm.writer@ == old(self).nasm.writer@ + and_or_text(
                    lhs.0, item_of(lhs.1@), rhs.0, item_of(rhs.1@), old(self).nasm.stack_pointer, operation@)),
            r is Ok ==> addressable(lhs.1@, old(self).nasm.stack_pointer) && addressable(rhs.1@, old(self).nasm.stack_pointer)
                && old(self).nasm.items_left(1),
    {
        let ghost n0 = self.nasm;
        let ghost lt = lhs.0;
        let ghost li = lhs.1@;
        let ghost rt = rhs.0;
        let ghost ri = rhs.1@;
        let r1 = self.mov_num(lhs, "bl", "bx", "ebx", "rbx", "rcx");
        if r1.is_err() {
            return Err(r1.unwrap_err());
        }
        self.nasm.emit(owned("cmp rbx, 0"));
        self.nasm.emit(owned("setne bl"));
        let ghost n1 = self.nasm;
        let r2 = self.mov_num(rhs, "cl", "cx", "ecx", "rcx", "rdx");
        proof {
            let a = mov_num_text(lt, item_of(li), n0.stack_pointer, "bl"@, "bx"@, "ebx"@, "rbx"@, "rcx"@);
            lemma_extend(n0.writer@, a, line("cmp rbx, 0"@));
            lemma_extend(n0.writer@, a + line("cmp rbx, 0"@), line("setne bl"@));
            lemma_grows_append(n0, n1, a + line("cmp rbx, 0"@) + line("setne bl"@));
        }
        if r2.is_err() {
            proof { lemma_grows_trans(n0, n1, self.nasm); }
            return Err(r2.unwrap_err());
        }
        let ghost n2 = self.nasm;
        self.nasm.emit(owned("cmp rcx, 0"));
        self.nasm.emit(owned("setne cl"));
        let l = cat(owned(operation), " bl, cl");
        self.nasm.emit(l);
        let ghost n3 = self.nasm;
        proof {
            reveal_strlit("bl");
        }
        let r = self.nasm.push_register("bl", RegisterSize::S8);
        proof {
            let a = mov_num_text(lt, item_of(li), n0.stack_pointer, "bl"@, "bx"@, "ebx"@, "rbx"@, "rcx"@) + line("cmp rbx, 0"@) + line("setne bl"@);
            let b = mov_num_text(rt, item_of(ri), n0.stack_pointer, "cl"@, "cx"@, "ecx"@, "rcx"@, "rdx"@);
            let c = line("cmp rcx, 0"@) + line("setne cl"@) + line(l@);
            lemma_extend(n0.writer@, a, b);
            lemma_extend(n0.writer@ + a + b, line("cmp rcx, 0"@), line("setne cl"@));
            lemma_extend(n0.writer@ + a + b, line("cmp rcx, 0"@) + line("setne cl"@), line(l@));
            lemma_extend(n0.writer@, a + b, c);
            lemma_grows_trans(n0, n1, n2);
            lemma_grows_append(n2, n3, c);
            lemma_grows_trans(n0, n2, n3);
            if r is Ok {
                lemma_extend(n0.writer@, a + b + c, push_register_text("bl"@, RegisterSize::S8));
                lemma_grows_append(n3, self.nasm, push_register_text("bl"@, RegisterSize::S8));
                lemma_grows_trans(n0, n3, self.nasm);
            } else {
                lemma_grows_refl(n3);
            }
        }
        r
    }

    /// The first field of `struc` named `field_name`, with its position.
    fn find_field(struc: &crate::codegen::DefinedStruct, field_name: &String) -> (r: Option<usize>)
        ensures
            match r {
                Some(i) => i < struc.fields.len() && field_index(struc@, field_name@) == Some(i as int),
                None => field_index(struc@, field_name@) is None,
            },
    {
        let mut i: usize = 0;
        while i < struc.fields.len()
            invariant
                i <= struc.fields.len(),
                forall|j: int| 0 <= j < i ==> struc@[j].1 != field_name@,
            decreases struc.fields.len() - i,
        {
            if struc.fields[i].1 == *field_name {
                proof {
                    lemma_field_index(struc@, field_name@, i as int);
                }
                return Some(i);
            }
            i = i + 1;
        }
        None
    }

    /// Accesses a field of a struct value: the index gains the field's
    /// position as a path step.
    pub fn codegen_struct_access(&mut self, struct_name: String, struct_idx: Index, field_name: String) -> (r: Result<
        (ExpressionType, Index),
        Error,
    >)
        ensures
            *final(self) == *old(self),
            r matches Ok((t, idx)) ==> (field_type(old(self).def, struct_name@, field_name@) == Some(t@)
                && struct_idx@ is Some && idx@ == Some((struct_idx@->Some_0.0, struct_idx@->Some_0.1.push(
                    field_index(old(self).def.lookup_struct(struct_name@)->Some_0, field_name@)->Some_0 as u16,
                )))),
            field_type(old(self).def, struct_name@, field_name@) is Some && struct_idx@ is Some
                && field_index(old(self).def.lookup_struct(struct_name@)->Some_0, field_name@)->Some_0 <= u16::MAX
                ==> r is Ok,
            field_type(old(self).def, struct_name@, field_name@) is Some && r is Err ==> is_limit_error(r->Err_0),
            field_lookup(old(self).def, struct_name@, field_name@, old(self).nasm, final(self).nasm, r),
    {
        let struc = self.def.get_struct(struct_name.as_str())?;
        match Self::find_field(struc, &field_name) {
            Some(offset) => {
                if offset > 65535 {
                    return Err(Error::LimitExceeded);
                }
                let field_ty = struc.fields[offset].0.clone();
                let mut struct_idx = struct_idx;
                let idx = struct_idx.valid_mut()?;
                idx.1.push(offset as u16);
                Ok((field_ty, struct_idx))
            },
            None => Err(Error::UnknownField(struct_name, field_name)),
        }
    }

    /// Accesses a field through a reference to a struct: pushes a copy of
    /// the reference whose last step is advanced to the field.
    #[verifier::rlimit(30)]
    #[verifier::spinoff_prover]
    pub fn codegen_struct_ref_access(&mut self, struct_name: String, struct_ref_idx: Index, field_name: String) -> (r:
        Result<(ExpressionType, Index), Error>)
        ensures
            r is Ok ==> final(self).nasm.uniq_index == old(self).nasm.uniq_index + 2,
            final(self).same_context(old(self)),
            grows(old(self).nasm, final(self).nasm),
            final(self).nasm.stack_pointer >= old(self).nasm.stack_pointer,
            r matches Ok((t, _)) ==> (field_type(old(self).def, struct_name@, field_name@) matches Some(ft)
                && t@ == TypeModel::Ref(Box::new(ft))),
            field_type(old(self).def, struct_name@, field_name@) is Some && r is Err ==> is_limit_error(r->Err_0),
            field_lookup(old(self).def, struct_name@, field_name@, old(self).nasm, final(self).nasm, r),
            (field_type(old(self).def, struct_name@, field_name@) is Some && addressable(
                struct_ref_idx@,
                old(self).nasm.stack_pointer,
            ) && old(self).nasm.labels_left(2) && old(self).nasm.items_left(1)) ==> (r matches Ok((_, idx))
                && idx@ == Some((old(self).nasm.stack_pointer, Seq::<u16>::empty()))
                && final(self).nasm.stack_pointer == old(self).nasm.stack_pointer + 1
                && final(self).nasm.writer@ == old(self).nasm.writer@ + idx2addr_text(
                    "rsi"@,
                    item_of(struct_ref_idx@).0,
                    item_of(struct_ref_idx@).1,
                    old(self).nasm.stack_pointer,
                ) + push_copy_addr_text(old(self).nasm.uniq_index as nat) + line("mov rbx, rsp"@) + line(
                    "add rbx, [rbx]"@,
                ) + line("sub rbx, 2"@) + line("add word [rbx], "@ + dec(
                    (field_index(old(self).def.lookup_struct(struct_name@)->Some_0, field_name@)->Some_0 as u16) as nat,
                ))),
            r matches Ok((_, idx)) ==> (addressable(struct_ref_idx@, old(self).nasm.stack_pointer) && idx@ == Some(
                (old(self).nasm.stack_pointer, Seq::<u16>::empty()),
            ) && final(self).nasm.stack_pointer == old(self).nasm.stack_pointer + 1 && final(self).nasm.writer@
                == old(self).nasm.writer@ + ref_field_text(
                item_of(struct_ref_idx@),
                field_index(old(self).def.lookup_struct(struct_name@)->Some_0, field_name@)->Some_0,
                old(self).nasm.stack_pointer,
                old(self).nasm.uniq_index as nat,
            )),
    {
        let ghost n0 = self.nasm;
        proof { lemma_grows_refl(n0); }
        let struc = self.def.get_struct(struct_name.as_str())?;
        let (field_ty, offset) = match Self::find_field(struc, &field_name) {
            Some(offset) => (struc.fields[offset].0.clone(), offset as u16),
            None => return Err(Error::UnknownField(struct_name, field_name)),
        };
        let r = self.nasm.idx2addr("rsi", &struct_ref_idx);
        if r.is_err() {
            return Err(r.unwrap_err());
        }
        let ghost n1 = self.nasm;
        let r = self.nasm.push_copy_addr();
        let ghost a = idx2addr_text("rsi"@, item_of(struct_ref_idx@).0, item_of(struct_ref_idx@).1, n0.stack_pointer);
        proof { lemma_grows_append(n0, n1, a); }
        let idx = match r {
            Ok(idx) => idx,
            Err(e) => {
                return Err(e);
            },
        };
        let ghost n2 = self.nasm;
        self.nasm.emit(owned("mov rbx, rsp"));
        self.nasm.emit(owned("add rbx, [rbx]"));
        self.nasm.emit(owned("sub rbx, 2"));
        let l = cat(owned("add word [rbx], "), u64_text(offset as u64).as_str());
        self.nasm.emit(l);
        proof {
            let b = push_copy_addr_text(n0.uniq_index as nat);
            lemma_extend(n0.writer@, a, b);
            lemma_grows_append(n1, n2, b);
            lemma_grows_trans(n0, n1, n2);
            let c1 = line("mov rbx, rsp"@);
            let c2 = line("add rbx, [rbx]"@);
            let c3 = line("sub rbx, 2"@);
            let c4 = line(l@);
            lemma_extend(n0.writer@, a + b, c1);
            lemma_extend(n0.writer@, a + b + c1, c2);
            lemma_extend(n0.writer@, a + b + c1 + c2, c3);
            lemma_extend(n0.writer@, a + b + c1 + c2 + c3, c4);
            lemma_extend(n2.writer@, c1, c2);
            lemma_extend(n2.writer@, c1 + c2, c3);
            lemma_extend(n2.writer@, c1 + c2 + c3, c4);
            lemma_grows_append(n2, self.nasm, c1 + c2 + c3 + c4);
            lemma_grows_trans(n0, n2, self.nasm);
        }
        Ok((ExpressionType::Ref(Box::new(field_ty)), idx))
    }

    /// Indexes an array through a reference: pushes a copy of the reference
    /// with the element's position appended as a path step.
    #[verifier::rlimit(40)]
    #[verifier::spinoff_prover]
    pub fn codegen_array_ref_access(&mut self, elem_ty: Box<ExpressionType>, arr_ref_idx: Index, index_idx: Index) -> (r:
        Result<(ExpressionType, Index), Error>)
        ensures
            r is Ok ==> final(self).nasm.uniq_index == old(self).nasm.uniq_index + 2,
            final(self).same_context(old(self)),
            grows(old(self).nasm, final(self).nasm),
            final(self).nasm.stack_pointer >= old(self).nasm.stack_pointer,
            r matches Ok((t, _)) ==> t@ == TypeModel::Ref(Box::new((*elem_ty)@)),
            r is Err ==> is_limit_error(r->Err_0),
            arr_ref_idx@ is None ==> (r matches Err(Error::InvalidIndex) && final(self).nasm == old(self).nasm),
            (addressable(arr_ref_idx@, old(self).nasm.stack_pointer) && addressable(
                index_idx@,
                old(self).nasm.stack_pointer,
            ) && old(self).nasm.labels_left(2) && old(self).nasm.items_left(1)) ==> (r matches Ok((_, idx))
                && idx@ == Some((old(self).nasm.stack_pointer, Seq::<u16>::empty()))
                && final(self).nasm.stack_pointer == old(self).nasm.stack_pointer + 1
                && final(self).nasm.writer@ == old(self).nasm.writer@ + idx2addr_text(
                    "rsi"@,
                    item_of(arr_ref_idx@).0,
                    item_of(arr_ref_idx@).1,
                    old(self).nasm.stack_pointer,
                ) + idx2addr_text("rcx"@, item_of(index_idx@).0, item_of(index_idx@).1, old(self).nasm.stack_pointer)
                    + line("mov cx, [rcx+8]"@) + line("sub rsp, 2"@) + line("mov [rsp], cx"@) + push_copy_addr_text(
                    old(self).nasm.uniq_index as nat,
                ) + line("add qword [rsp], 2"@)),
            r matches Ok((_, idx)) ==> (addressable(arr_ref_idx@, old(self).nasm.stack_pointer) && addressable(
                index_idx@,
                old(self).nasm.stack_pointer,
            ) && idx@ == Some((old(self).nasm.stack_pointer, Seq::<u16>::empty())) && final(self).nasm.stack_pointer
                == old(self).nasm.stack_pointer + 1 && final(self).nasm.writer@ == old(self).nasm.writer@
                + array_elem_text(
                item_of(arr_ref_idx@),
                item_of(index_idx@),
                old(self).nasm.stack_pointer,
                old(self).nasm.uniq_index as nat,
            )),
    {
        let ghost n0 = self.nasm;
        proof { lemma_grows_refl(n0); }
        let r = self.nasm.idx2addr("rsi", &arr_ref_idx);
        if r.is_err() {
            return Err(r.unwrap_err());
        }
        let ghost a = idx2addr_text("rsi"@, item_of(arr_ref_idx@).0, item_of(arr_ref_idx@).1, n0.stack_pointer);
        let ghost n1 = self.nasm;
        proof { lemma_grows_append(n0, n1, a); }
        let r = self.nasm.idx2addr("rcx", &index_idx);
        if r.is_err() {
            return Err(r.unwrap_err());
        }
        let ghost b = idx2addr_text("rcx"@, item_of(index_idx@).0, item_of(index_idx@).1, n0.stack_pointer);
        self.nasm.emit(owned("mov cx, [rcx+8]"));
        self.nasm.emit(owned("sub rsp, 2"));
        self.nasm.emit(owned("mov [rsp], cx"));
        let ghost n2 = self.nasm;
        let ghost c = line("mov cx, [rcx+8]"@) + line("sub rsp, 2"@) + line("mov [rsp], cx"@);
        proof {
            lemma_extend(n1.writer@, b, line("mov cx, [rcx+8]"@));
            lemma_extend(n1.writer@, b + line("mov cx, [rcx+8]"@), line("sub rsp, 2"@));
            lemma_extend(n1.writer@, b + line("mov cx, [rcx+8]"@) + line("sub rsp, 2"@), line("mov [rsp], cx"@));
            assert(n2.writer@ =~= n1.writer@ + (b + c));
            lemma_grows_append(n1, n2, b + c);
            lemma_grows_trans(n0, n1, n2);
        }
        let r = self.nasm.push_copy_addr();
        let idx = match r {
            Ok(idx) => idx,
            Err(e) => {
                return Err(e);
            },
        };
        let ghost n3 = self.nasm;
        self.nasm.emit(owned("add qword [rsp], 2"));
        proof {
            let d = push_copy_addr_text(n0.uniq_index as nat);
            let e = line("add qword [rsp], 2"@);
            lemma_extend(n0.writer@, a, b);
            lemma_extend(n0.writer@, a + b, c);
            lemma_extend(n0.writer@, a + b + c, d);
            lemma_extend(n0.writer@, a + b + c + d, e);
            lemma_extend(n2.writer@, d, e);
            lemma_grows_append(n2, self.nasm, d + e);
            lemma_grows_trans(n0, n2, self.nasm);
        }
        Ok((ExpressionType::Ref(elem_ty), idx))
    }
    /// Calls a Stucker function: reserves the return slot, pushes the return
    /// address and a copy of each argument, jumps to the function and
    /// uncounts what the callee pops.
    #[verifier::rlimit(80)]
    #[verifier::spinoff_prover]
    pub fn codegen_call_stucker(&mut self, func: &StuckerFunction, name: String, params: Vec<(ExpressionType, Index)>) -> (r:
        Result<(ExpressionType, Index), Error>)
        ensures
            final(self).same_context(old(self)),
            grows(old(self).nasm, final(self).nasm),
            final(self).nasm.stack_pointer >= old(self).nasm.stack_pointer,
            params.len() != func.params.len() ==> (r matches Err(Error::ArityMismatch(a, b)) && a == func.params.len()
                && b == params.len() && final(self).nasm == old(self).nasm),
            r matches Err(Error::TypeMismatch(a, b)) ==> params.len() == func.params.len() && exists|j: int|
                0 <= j < params.len() && a@ == func.params@[j]@ && b@ == params@[j].0@ && a@ != b@ && forall|k: int|
                0 <= k < j ==> (#[trigger] params@[k]).0@ == func.params@[k]@,
            r matches Ok((t, idx)) ==> {
                &&& t@ == func.return_type@
                &&& params.len() == func.params.len()
                &&& forall|i: int| 0 <= i < params.len() ==> (#[trigger] params@[i]).0@ == func.params@[i]@
                &&& func.return_type@ != TypeModel::Void ==> (alloc_top_spec(old(self).def, func.return_type@) is Some
                    && idx@ == Some((old(self).nasm.stack_pointer, Seq::<u16>::empty()))
                    && final(self).nasm.stack_pointer == old(self).nasm.stack_pointer + 1)
                &&& func.return_type@ == TypeModel::Void ==> (idx@ is None && final(self).nasm.stack_pointer
                    == old(self).nasm.stack_pointer)
            },
            params.len() == func.params.len() && (forall|i: int|
                0 <= i < params.len() ==> (#[trigger] params@[i]).0@ == func.params@[i]@) && (func.return_type@
                != TypeModel::Void ==> alloc_top_spec(old(self).def, func.return_type@) is Some) ==> (r is Ok
                || is_limit_error(r->Err_0)),
            r is Ok ==> final(self).nasm.writer@ == old(self).nasm.writer@ + stucker_call_text(
                old(self).def,
                func.return_type@,
                args_view(params@),
                old(self).nasm.stack_pointer,
                name@,
                old(self).nasm.uniq_index as nat,
            ),
            stucker_call_fits(
                old(self).def,
                func.return_type@,
                types_view(func.params@),
                args_view(params@),
                old(self).nasm,
            ) ==> r is Ok,
            r is Ok ==> final(self).nasm.uniq_index == old(self).nasm.uniq_index + 2 * params.len() + 1
                && final(self).nasm.rodata@ == old(self).nasm.rodata@,
            params.len() == func.params.len() && (exists|j: int| 0 <= j < params.len() && (#[trigger] params@[j]).0@
                != func.params@[j]@) && (forall|i: int|
                0 <= i < params.len() ==> addressable((#[trigger] params@[i]).1@, old(self).nasm.stack_pointer)) && (
            func.return_type@ != TypeModel::Void ==> (alloc_top_spec(old(self).def, func.return_type@) matches Some(
                (m, _),
            ) && m <= u16::MAX)) && old(self).nasm.labels_left((2 * params.len() + 1) as nat) && old(self).nasm.items_left(
                (params.len() + 2) as nat,
            ) ==> r matches Err(Error::TypeMismatch(_, _)),
    {
        let ghost n0 = self.nasm;
        let ghost fits = stucker_call_fits(
            old(self).def,
            func.return_type@,
            types_view(func.params@),
            args_view(params@),
            old(self).nasm,
        );
        let ghost roomy = params.len() == func.params.len() && (forall|i: int|
            0 <= i < params.len() ==> addressable((#[trigger] params@[i]).1@, n0.stack_pointer)) && (func.return_type@
            != TypeModel::Void ==> (alloc_top_spec(old(self).def, func.return_type@) matches Some((m, _)) && m
            <= u16::MAX)) && n0.labels_left((2 * params.len() + 1) as nat) && n0.items_left((params.len() + 2) as nat);
        proof { lemma_grows_refl(n0); }
        if func.params.len() != params.len() {
            return Err(Error::ArityMismatch(func.params.len(), params.len()));
        }
        let ret_void = func.return_type.is_void_type();
        let ret_idx = if !ret_void {
            let r = self.def.allocate(&mut self.nasm, &func.return_type);
            proof { lemma_grows_prefix(n0, self.nasm); }
            match r {
                Ok(i) => i,
                Err(e) => return Err(e),
            }
        } else {
            Index::void()
        };
        let ghost n1 = self.nasm;
        let ret = self.nasm.get_local_label_name("call_return");
        self.nasm.emit(cat(cat(owned("lea rax, ["), ret.as_str()), "] ; codegen_call (ret)"));
        proof {
            reveal_strlit("rax");
            lemma_grows_append(n1, self.nasm, line("lea rax, ["@ + ret@ + "] ; codegen_call (ret)"@));
            lemma_grows_trans(n0, n1, self.nasm);
        }
        let ghost n2 = self.nasm;
        let r = self.nasm.push_register("rax", RegisterSize::S64);
        match r {
            Ok(_) => {},
            Err(e) => {
                proof { lemma_grows_refl(self.nasm); }
                return Err(e);
            },
        }
        proof {
            lemma_grows_append(n2, self.nasm, push_register_text("rax"@, RegisterSize::S64));
            lemma_grows_trans(n0, n2, self.nasm);
        }
        let ghost base = self.nasm.stack_pointer;
        let ghost nb = self.nasm;
        let mut i: usize = 0;
        while i < params.len()
            invariant
                i <= params.len(),
                self.nasm.writer@ == nb.writer@ + arg_copies_text(args_view(params@), i as nat, base, n1.uniq_index as nat),
                self.nasm.uniq_index == n1.uniq_index + 2 * i,
                nb.stack_pointer == base,
                n1.uniq_index == n0.uniq_index,
                self.nasm.rodata@ == n0.rodata@,
                fits == stucker_call_fits(
                    old(self).def,
                    func.return_type@,
                    types_view(func.params@),
                    args_view(params@),
                    n0,
                ),
                params.len() == func.params.len(),
                self.same_context(old(self)),
                n0 == old(self).nasm,
                grows(n0, self.nasm),
                self.nasm.stack_pointer == base + i,
                base == n0.stack_pointer + if ret_void { 1int } else { 2int },
                ret_void == (func.return_type@ == TypeModel::Void),
                !ret_void ==> (ret_idx@ == Some((n0.stack_pointer, Seq::<u16>::empty())) && alloc_top_spec(
                    old(self).def,
                    func.return_type@,
                ) is Some),
                ret_void ==> ret_idx@ is None,
                forall|j: int| 0 <= j < i ==> (#[trigger] params@[j]).0@ == func.params@[j]@,
                ret@ == crate::nasm::local_name("call_return"@, n1.uniq_index as nat),
                roomy == (params.len() == func.params.len() && (forall|i: int|
                    0 <= i < params.len() ==> addressable((#[trigger] params@[i]).1@, n0.stack_pointer)) && (
                func.return_type@ != TypeModel::Void ==> (alloc_top_spec(old(self).def, func.return_type@) matches Some(
                    (m, _),
                ) && m <= u16::MAX)) && n0.labels_left((2 * params.len() + 1) as nat) && n0.items_left((params.len() + 2) as nat)),
            decreases params.len() - i,
        {
            let (val_ty, idx) = &params[i];
            proof {
                if roomy {
                    assert(addressable(params@[i as int].1@, n0.stack_pointer));
                }
                if fits {
                    let ps = args_view(params@);
                    assert(ps[i as int].0 == types_view(func.params@)[i as int]);
                    assert(addressable(ps[i as int].1, n0.stack_pointer));
                }
            }
            if !func.params[i].same(val_ty) {
                return Err(Error::TypeMismatch(func.params[i].clone(), val_ty.clone()));
            }
            let ghost m0 = self.nasm;
            let r = self.nasm.push_copy(idx);
            proof { lemma_grows_trans(n0, m0, self.nasm); }
            match r {
                Ok(_) => {},
                Err(e) => return Err(e),
            }
            proof {
                let ps = args_view(params@);
                assert(ps[i as int].1 == params@[i as int].1@);
                crate::nasm::lemma_extend(
                    nb.writer@,
                    arg_copies_text(ps, i as nat, base, n1.uniq_index as nat),
                    idx2addr_text("rsi"@, item_of(ps[i as int].1).0, item_of(ps[i as int].1).1, (base + i) as u16)
                        + push_copy_addr_text((n1.uniq_index + 2 * i) as nat),
                );
                vstd::seq_lib::lemma_concat_associative(
                    nb.writer@ + arg_copies_text(ps, i as nat, base, n1.uniq_index as nat),
                    idx2addr_text("rsi"@, item_of(ps[i as int].1).0, item_of(ps[i as int].1).1, (base + i) as u16),
                    push_copy_addr_text((n1.uniq_index + 2 * i) as nat),
                );
                vstd::seq_lib::lemma_concat_associative(
                    arg_copies_text(ps, i as nat, base, n1.uniq_index as nat),
                    idx2addr_text("rsi"@, item_of(ps[i as int].1).0, item_of(ps[i as int].1).1, (base + i) as u16),
                    push_copy_addr_text((n1.uniq_index + 2 * i) as nat),
                );
            }
            i = i + 1;
        }
        let ghost n3 = self.nasm;
        self.nasm.emit(cat(cat(owned("jmp "), self.nasm.get_global_label_name(name.as_str()).as_str()), " ; codegen_call (jmp)"));
        proof {
            reveal_strlit("call_return");
            lemma_local_name_is_label("call_return"@, n1.uniq_index as nat);
            lemma_grows_prefix(n3, self.nasm);
            lemma_grows_trans(n0, n3, self.nasm);
        }
        let ghost n4 = self.nasm;
        let r = self.nasm.raw_label(ret.as_str());
        match r {
            Ok(()) => {},
            Err(e) => return Err(e),
        }
        proof {
            lemma_grows_prefix(n4, self.nasm);
            lemma_grows_trans(n0, n4, self.nasm);
        }
        let ghost n5 = self.nasm;
        let mut k: usize = 0;
        while k < func.params.len()
            invariant
                k <= func.params.len(),
                func.params.len() == params.len(),
                self.nasm.stack_pointer == n5.stack_pointer - k,
                n5.stack_pointer == base + params.len(),
                base >= 1,
                self.nasm.writer@ == n5.writer@,
                self.nasm.rodata@ == n5.rodata@,
                self.nasm.uniq_index == n5.uniq_index,
                self.same_context(old(self)),
            decreases func.params.len() - k,
        {
            self.nasm.pop_supress();
            k = k + 1;
        }
        self.nasm.pop_supress();
        proof {
            assert(n5.writer@.is_prefix_of(self.nasm.writer@));
            lemma_grows_prefix(n5, self.nasm);
            lemma_grows_trans(n0, n5, self.nasm);
            let ps = args_view(params@);
            let slot = if func.return_type@ != TypeModel::Void {
                alloc_top_spec(old(self).def, func.return_type@)->Some_0.1
            } else {
                Seq::<char>::empty()
            };
            let back = crate::nasm::local_name("call_return"@, n1.uniq_index as nat);
            let a = line("lea rax, ["@ + back + "] ; codegen_call (ret)"@);
            let b = push_register_text("rax"@, RegisterSize::S64);
            let c = arg_copies_text(ps, ps.len(), base, n1.uniq_index as nat);
            let e = line("jmp "@ + ("_"@ + name@) + " ; codegen_call (jmp)"@);
            let f = label(back);
            assert(n1.writer@ == n0.writer@ + slot);
            lemma_extend(n0.writer@, slot, a);
            lemma_extend(n0.writer@, slot + a, b);
            lemma_extend(n0.writer@, slot + a + b, c);
            lemma_extend(n0.writer@, slot + a + b + c, e);
            lemma_extend(n0.writer@, slot + a + b + c + e, f);
        }
        Ok((func.return_type.clone(), ret_idx))
    }
    /// Passes argument `i` (an integer) of a C call: into its register for
    /// the first six, else pushed on the machine stack; returns the bytes
    /// pushed.
    fn codegen_c_arg(&mut self, i: usize, numty: NumberType, idx: &Index) -> (r: Result<u16, Error>)
        requires
            !numty.is_float(),
        ensures
            final(self).same_context(old(self)),
            final(self).nasm.same_except_writer(&old(self).nasm),
            old(self).nasm.writer@.is_prefix_of(final(self).nasm.writer@),
            r is Err ==> is_limit_error(r->Err_0),
            r is Ok <==> addressable(idx@, old(self).nasm.stack_pointer),
            r matches Ok(n) ==> (n == (if i >= 6 {
                crate::nasm::num_size(numty).spec_size_bytes()
            } else {
                0
            }) && final(self).nasm.writer@ == old(self).nasm.writer@ + c_arg_text(
                i as int,
                numty,
                item_of(idx@),
                old(self).nasm.stack_pointer,
            )),
    {
        let ghost w = self.nasm.writer@;
        let ghost sp = self.nasm.stack_pointer;
        let size = int_size(numty);
        if i < 6 {
            let r64 = c_register(i, &RegisterSize::S64);
            self.nasm.emit(cat(cat(cat(owned("xor "), r64), ", "), r64));
            let reg = c_register(i, &size);
            let r = self.nasm.idx2addr("r10", idx);
            match r {
                Ok(()) => {},
                Err(e) => return Err(e),
            }
            self.nasm.emit(cat(cat(owned("mov "), reg), ", [r10+8]"));
            proof {
                let a = line("xor "@ + c_arg_reg(i as int, RegisterSize::S64) + ", "@ + c_arg_reg(i as int, RegisterSize::S64));
                let b = idx2addr_text("r10"@, item_of(idx@).0, item_of(idx@).1, sp);
                let c = line("mov "@ + c_arg_reg(i as int, size) + ", [r10+8]"@);
                lemma_extend(w, a, b);
                lemma_extend(w, a + b, c);
            }
            Ok(0)
        } else {
            let r = self.nasm.idx2addr("rbx", idx);
            match r {
                Ok(()) => {},
                Err(e) => return Err(e),
            }
            self.nasm.emit(cat(cat(owned("mov "), size.b()), ", [rbx+8]"));
            self.nasm.emit(cat(owned("push "), size.b()));
            proof {
                let b = idx2addr_text("rbx"@, item_of(idx@).0, item_of(idx@).1, sp);
                let c = line("mov "@ + size.spec_b() + ", [rbx+8]"@);
                let d = line("push "@ + size.spec_b());
                lemma_extend(w, b, c);
                lemma_extend(w, b + c, d);
            }
            Ok(size.size_bytes())
        }
    }

    /// Calls a C function (System V): the first six arguments go into
    /// registers, the others are pushed on the machine stack, last first.
    #[verifier::rlimit(100)]
    #[verifier::spinoff_prover]
    pub fn codegen_call_c(&mut self, func: &CFunction, name: String, params: Vec<(ExpressionType, Index)>) -> (r: Result<
        (ExpressionType, Index),
        Error,
    >)
        ensures
            r is Ok ==> final(self).nasm.uniq_index == old(self).nasm.uniq_index,
            final(self).same_context(old(self)),
            grows(old(self).nasm, final(self).nasm),
            final(self).nasm.stack_pointer >= old(self).nasm.stack_pointer,
            (if func.is_variadic { func.params.len() > params.len() } else { func.params.len() != params.len() })
                ==> (r matches Err(Error::ArityMismatch(a, b)) && a == func.params.len() && b == params.len()
                && final(self).nasm == old(self).nasm),
            r matches Err(Error::ArityMismatch(_, _)) ==> (if func.is_variadic {
                func.params.len() > params.len()
            } else {
                func.params.len() != params.len()
            }),
            r matches Err(Error::ExternCInvalidParameter) ==> !c_args_ok(args_view(params@)),
            (if func.is_variadic { func.params.len() <= params.len() } else { func.params.len() == params.len() })
                && !c_args_ok(args_view(params@)) ==> (r matches Err(e) && (e is ExternCInvalidParameter
                || is_limit_error(e))),
            r matches Ok((t, idx)) ==> {
                &&& (if func.is_variadic { func.params.len() <= params.len() } else { func.params.len() == params.len() })
                &&& c_args_ok(args_view(params@))
                &&& t@ == c_ret_model(func.return_type)
                &&& func.return_type is Some ==> (idx@ == Some((old(self).nasm.stack_pointer, Seq::<u16>::empty()))
                    && final(self).nasm.stack_pointer == old(self).nasm.stack_pointer + 1)
                &&& func.return_type is None ==> (idx@ is None && final(self).nasm.stack_pointer
                    == old(self).nasm.stack_pointer)
            },
            (if func.is_variadic { func.params.len() <= params.len() } else { func.params.len() == params.len() })
                && c_args_ok(args_view(params@)) ==> (r is Ok || is_limit_error(r->Err_0)),
            (if func.is_variadic { func.params.len() <= params.len() } else { func.params.len() == params.len() })
                && c_args_ok(args_view(params@)) && (forall|i: int|
                0 <= i < params.len() ==> addressable(#[trigger] args_view(params@)[i].1, old(self).nasm.stack_pointer))
                && c_stack_size(args_view(params@), 0) <= u16::MAX && (func.return_type is Some
                ==> old(self).nasm.items_left(1)) ==> (r is Ok && final(self).nasm.writer@ == old(self).nasm.writer@
                + c_call_text(args_view(params@), old(self).nasm.stack_pointer, name@, func.return_type)),
            r is Ok ==> final(self).nasm.writer@ == old(self).nasm.writer@ + c_call_text(
                args_view(params@),
                old(self).nasm.stack_pointer,
                name@,
                func.return_type,
            ),
            (if func.is_variadic { func.params.len() <= params.len() } else { func.params.len() == params.len() })
                && !c_args_ok(args_view(params@)) && (forall|i: int|
                0 <= i < params.len() ==> addressable(#[trigger] args_view(params@)[i].1, old(self).nasm.stack_pointer))
                && 8 * params.len() <= u16::MAX ==> r matches Err(Error::ExternCInvalidParameter),
    {
        let ghost n0 = self.nasm;
        let ghost ps = args_view(params@);
        proof { lemma_grows_refl(n0); }
        if !func.is_variadic && func.params.len() != params.len() {
            return Err(Error::ArityMismatch(func.params.len(), params.len()));
        }
        if func.is_variadic && func.params.len() > params.len() {
            return Err(Error::ArityMismatch(func.params.len(), params.len()));
        }
        let mut stack_size: u16 = 0;
        let mut i: usize = params.len();
        while i > 0
            invariant
                i <= params.len(),
                ps == args_view(params@),
                ps.len() == params.len(),
                (if func.is_variadic { func.params.len() <= params.len() } else { func.params.len() == params.len() }),
                self.same_context(old(self)),
                n0 == old(self).nasm,
                self.nasm.writer@ == n0.writer@ + c_args_text(ps, n0.stack_pointer, i as int),
                self.nasm.same_except_writer(&n0),
                stack_size == c_stack_size(ps, i as int),
                forall|j: int| i <= j < ps.len() ==> (#[trigger] ps[j]).0 is Number && !ps[j].0->Number_0.is_float(),
            decreases i,
        {
            i = i - 1;
            proof {
                assert(ps[i as int] == (params@[i as int].0@, params@[i as int].1@));
            }
            let (ty, idx) = &params[i];
            let numty = match ty {
                ExpressionType::Number(n) => *n,
                _ => {
                    proof { lemma_grows_prefix(n0, self.nasm); }
                    return Err(Error::ExternCInvalidParameter);
                },
            };
            if numty == NumberType::F32 || numty == NumberType::F64 {
                if i < 6 {
                    let r64 = c_register(i, &RegisterSize::S64);
                    self.nasm.emit(cat(cat(cat(owned("xor "), r64), ", "), r64));
                }
                proof { lemma_grows_prefix(n0, self.nasm); }
                return Err(Error::ExternCInvalidParameter);
            }
            let ghost before = self.nasm.writer@;
            let r = self.codegen_c_arg(i, numty, idx);
            let pushed = match r {
                Ok(n) => n,
                Err(e) => {
                    proof {
                        lemma_grows_prefix(n0, self.nasm);
                        if forall|j: int| 0 <= j < params.len() ==> addressable(#[trigger] args_view(params@)[j].1, n0.stack_pointer) {
                            assert(addressable(args_view(params@)[i as int].1, n0.stack_pointer));
                        }
                    }
                    return Err(e);
                },
            };
            proof {
                lemma_c_stack_size_mono(ps, 0, i as int);
            }
            proof {
                assert(ps[i as int].0->Number_0 == numty);
                assert(c_stack_size(ps, i as int) == c_stack_size(ps, i + 1) + pushed);
            }
            proof {
                lemma_c_stack_size_bound(ps, i as int);
            }
            if stack_size > u16::MAX - pushed {
                proof { lemma_grows_prefix(n0, self.nasm); }
                return Err(Error::LimitExceeded);
            }
            stack_size = stack_size + pushed;
            proof {
                assert(ps[i as int].0->Number_0 == numty);
                assert(ps[i as int].1 == idx@);
                assert(c_args_text(ps, n0.stack_pointer, i as int) == c_args_text(ps, n0.stack_pointer, i + 1)
                    + c_arg_text(i as int, numty, item_of(idx@), n0.stack_pointer));
                lemma_extend(n0.writer@, c_args_text(ps, n0.stack_pointer, i + 1), c_arg_text(i as int, numty, item_of(idx@), n0.stack_pointer));
            }
        }
        let ghost n1 = self.nasm;
        self.nasm.emit(owned("xor eax, eax"));
        let label = self.nasm.get_global_label_name(name.as_str());
        self.nasm.emit(cat(owned("call "), label.as_str()));
        if stack_size != 0 {
            self.nasm.emit(cat(owned("sub rsp, "), u64_text(stack_size as u64).as_str()));
        }
        let ghost n2 = self.nasm;
        proof {
            let a = line("xor eax, eax"@);
            let b = line("call "@ + "_"@ + name@);
            lemma_extend(n1.writer@, a, b);
            if stack_size != 0 {
                lemma_extend(n1.writer@, a + b, line("sub rsp, "@ + dec(stack_size as nat)));
            } else {
                assert(a + b + Seq::<char>::empty() =~= a + b);
            }
            lemma_grows_prefix(n0, n2);
        }
        match &func.return_type {
            Some(return_type) => {
                proof { reveal_strlit("rax"); }
                let r = self.nasm.push_register("rax", RegisterSize::S64);
                match r {
                    Ok(idx) => {
                        proof {
                            lemma_grows_append(n2, self.nasm, push_register_text("rax"@, RegisterSize::S64));
                            lemma_grows_trans(n0, n2, self.nasm);
                        }
                        Ok((ExpressionType::Number(*return_type), idx))
                    },
                    Err(e) => {
                        proof { lemma_grows_refl(self.nasm); }
                        Err(e)
                    },
                }
            },
            None => {
                proof { assert(n2.writer@ + Seq::<char>::empty() =~= n2.writer@); }
                Ok((ExpressionType::Void, Index::void()))
            },
        }
    }
    /// Evaluates the arguments left to right, then calls the function.
    #[verifier::rlimit(80)]
    #[verifier::spinoff_prover]
    pub fn codegen_call(&mut self, func: &DefinedFunction, name: String, expressions: Vec<Expression>) -> (r: Result<
        (ExpressionType, Index),
        Error,
    >)
        ensures
            final(self).same_context(old(self)),
            grows(old(self).nasm, final(self).nasm),
            final(self).nasm.stack_pointer >= old(self).nasm.stack_pointer,
            r matches Ok((t, _)) ==> (args_typed(old(self).def, old(self).var@, expressions@) matches Some(ts)
                && call_typed(old(self).def, func@, ts) == Some(t@)),
            (args_typed(old(self).def, old(self).var@, expressions@) matches Some(ts) && call_typed(
                old(self).def,
                func@,
                ts,
            ) is Some) && r is Err ==> is_limit_error(r->Err_0),
            func@ matches FnModel::Stucker { ret, params } ==> (r is Ok ==> exists|
                mid: Nasm,
                ps: Seq<(TypeModel, Option<(u16, Seq<u16>)>)>,
            | #[trigger] call_code(old(self).def, ret, ps, name@, old(self).nasm, mid, final(self).nasm)),
            func@ matches FnModel::C { c_ret, c_params, variadic } ==> (r is Ok ==> exists|
                mid: Nasm,
                ps: Seq<(TypeModel, Option<(u16, Seq<u16>)>)>,
            | #[trigger] c_call_code(c_ret, ps, name@, old(self).nasm, mid, final(self).nasm)),
            func@ matches FnModel::Stucker { ret, params } ==> (expressions.len() == 0 && stucker_call_fits(
                old(self).def,
                ret,
                params,
                Seq::empty(),
                old(self).nasm,
            ) ==> (r matches Ok((_, idx)) && final(self).nasm.writer@ == old(self).nasm.writer@ + stucker_call_text(
                old(self).def,
                ret,
                Seq::empty(),
                old(self).nasm.stack_pointer,
                name@,
                old(self).nasm.uniq_index as nat,
            ) && final(self).nasm.uniq_index == old(self).nasm.uniq_index + 1 && final(self).nasm.rodata@
                == old(self).nasm.rodata@ && (ret != TypeModel::Void ==> (idx@ == Some(
                (old(self).nasm.stack_pointer, Seq::<u16>::empty()),
            ) && final(self).nasm.stack_pointer == old(self).nasm.stack_pointer + 1)))),
            call_run(old(self).def, old(self).var@, func@, name@, expressions@, old(self).nasm, final(self).nasm, r),
            old(self).def.lookup_fn(name@) == Some(func@) && typed(
                old(self).def,
                old(self).var@,
                &Expression::Call(name, expressions),
            ) is Some && room(old(self).def, old(self).var@, &Expression::Call(name, expressions), old(self).nasm)
                ==> compiled(
                old(self).def,
                old(self).var@,
                &Expression::Call(name, expressions),
                old(self).nasm,
                final(self).nasm,
                r,
            ),
        decreases expressions@, 1nat,
    {
        let ghost all = expressions@;
        let ghost d = self.def;
        let ghost v = self.var@;
        let ghost n0 = self.nasm;
        let ghost ce = Expression::Call(name, expressions);
        let ghost fits = d.lookup_fn(name@) == Some(func@) && typed(d, v, &ce) is Some && room(d, v, &ce, n0);
        proof {
            reveal(call_run);
            if fits {
                lemma_args_prefix(d, v, all, all.len() as int);
                assert(all.take(all.len() as int) =~= all);
            }
            lemma_grows_refl(n0);
            assert(all.take(0) =~= Seq::<Expression>::empty());
            assert(param_types(Seq::<(ExpressionType, Index)>::empty()) =~= Seq::<TypeModel>::empty());
            assert(args_view(Seq::<(ExpressionType, Index)>::empty()) =~= Seq::empty());
            assert forall|n1: Nasm, rr: Result<Seq<(TypeModel, Option<(u16, Seq<u16>)>)>, Error>| #[trigger] args_run(
                d,
                v,
                all,
                n0,
                n1,
                rr,
            ) implies args_run(d, v, all, n0, n1, with_prefix(Seq::empty(), rr)) by {
                if rr is Ok {
                    assert(Seq::<(TypeModel, Option<(u16, Seq<u16>)>)>::empty() + rr->Ok_0 =~= rr->Ok_0);
                }
            }
        }
        let mut exprs = expressions;
        proof {
            assert(exprs@.len() == exprs.len());
        }
        let mut params: Vec<(ExpressionType, Index)> = Vec::new();
        let mut i: usize = 0;
        while exprs.len() > 0
            invariant
                exprs@ == all.skip(i as int),
                i <= all.len(),
                all.len() <= usize::MAX,
                params@.len() == i,
                args_typed(d, v, all.take(i as int)) == Some(param_types(params@)),
                self.same_context(old(self)),
                d == old(self).def,
                v == old(self).var@,
                n0 == old(self).nasm,
                all == expressions@,
                grows(n0, self.nasm),
                self.nasm.stack_pointer >= n0.stack_pointer,
                i == 0 ==> self.nasm == n0,
                forall|n1: Nasm, rr: Result<Seq<(TypeModel, Option<(u16, Seq<u16>)>)>, Error>| #[trigger] args_run(
                    d,
                    v,
                    exprs@,
                    self.nasm,
                    n1,
                    rr,
                ) ==> args_run(d, v, all, n0, n1, with_prefix(args_view(params@), rr)),
                fits == (d.lookup_fn(name@) == Some(func@) && typed(d, v, &ce) is Some && room(d, v, &ce, n0)),
                ce == Expression::Call(name, expressions),
                fits ==> {
                    &&& self.nasm.stack_pointer <= n0.stack_pointer + need_args(all.take(i as int))
                    &&& self.nasm.uniq_index <= n0.uniq_index + labs_args(all.take(i as int))
                    &&& forall|j: int| 0 <= j < i ==> addressable((#[trigger] params@[j]).1@, self.nasm.stack_pointer)
                },
            decreases exprs.len(),
        {
            let ghost before = params@;
            let ghost rest = exprs@;
            let x = exprs.remove(0);
            let ghost xg = x;
            proof {
                assert(x == all[i as int]);
                assert(exprs@ =~= all.skip(i + 1));
            }
            let ghost nb = self.nasm;
            proof {
                if fits {
                    lemma_args_prefix(d, v, all, i + 1);
                    lemma_args_prefix(d, v, all, all.len() as int);
                    assert(all.take(all.len() as int) =~= all);
                    let t = all.take(i + 1);
                    assert(t.drop_last() =~= all.take(i as int));
                    assert(t.last() == all[i as int]);
                    lemma_args_typed_prefix(d, v, all, i as int);
                    lemma_vars_live_grow(v, n0.stack_pointer, nb.stack_pointer);
                    assert(room(d, v, &xg, nb));
                }
            }
            let r = self.codegen_expression(x);
            proof {
                lemma_grows_trans(n0, nb, self.nasm);
                assert(expr_code(d, v, xg, nb, self.nasm, r));
                assert(rest[0] == xg);
                assert(rest.skip(1) =~= exprs@);
            }
            match r {
                Ok(p) => {
                    proof {
                        let t = all.take(i + 1);
                        assert(t.drop_last() =~= all.take(i as int));
                        assert(t.last() == all[i as int]);
                    }
                    let ghost pt = p.0@;
                    let ghost pi = p.1@;
                    let ghost m = self.nasm;
                    params.push(p);
                    proof {
                        assert(param_types(params@) =~= param_types(before).push(pt));
                        assert(args_view(params@) =~= args_view(before).push((pt, pi)));
                        assert forall|n1: Nasm, rr: Result<Seq<(TypeModel, Option<(u16, Seq<u16>)>)>, Error>| #[trigger] args_run(
                            d,
                            v,
                            exprs@,
                            m,
                            n1,
                            rr,
                        ) implies args_run(d, v, all, n0, n1, with_prefix(args_view(params@), rr)) by {
                            if rr is Ok {
                                assert((seq![(pt, pi)] + rr->Ok_0).drop_first() =~= rr->Ok_0);
                            }
                            assert(after_first(with_prefix(seq![(pt, pi)], rr)) == rr);
                            assert(args_run(d, v, rest, nb, n1, with_prefix(seq![(pt, pi)], rr)));
                            if rr is Ok {
                                assert(args_view(before) + (seq![(pt, pi)] + rr->Ok_0) =~= args_view(params@)
                                    + rr->Ok_0);
                            }
                        }
                    }
                },
                Err(e) => {
                    proof {
                        reveal(call_run);
                        assert(args_run(d, v, rest, nb, self.nasm, Err(e)));
                        if args_typed(d, v, all) is Some {
                            lemma_args_typed_prefix(d, v, all, i as int);
                        }
                    }
                    return Err(e);
                },
            }
            i = i + 1;
        }
        proof {
            assert(all.take(i as int) =~= all);
            assert(args_run(d, v, exprs@, self.nasm, self.nasm, Ok(Seq::empty())));
            assert(args_view(params@) + Seq::<(TypeModel, Option<(u16, Seq<u16>)>)>::empty() =~= args_view(params@));
            assert(args_run(d, v, all, n0, self.nasm, Ok(args_view(params@))));
        }
        let ghost ts = param_types(params@);
        let ghost nb = self.nasm;
        match func {
            DefinedFunction::Stucker(f) => {
                let ghost nm = name@;
                let ghost av = args_view(params@);
                let ghost pv = params@;
                proof {
                    if fits {
                        assert(ts.len() == av.len());
                        assert forall|k: int| 0 <= k < av.len() implies (#[trigger] av[k]).0 == ts[k] by {}
                        assert(stucker_call_fits(d, f.return_type@, types_view(f.params@), av, nb));
                    }
                }
                let r = self.codegen_call_stucker(f, name, params);
                let ghost rg = r;
                proof {
                    let fp = types_view(f.params@);
                    assert(fp.len() == f.params@.len());
                    assert forall|k: int| 0 <= k < pv.len() implies (#[trigger] av[k]).0 == pv[k].0@ by {}
                    assert forall|k: int| 0 <= k < fp.len() implies #[trigger] fp[k] == f.params@[k]@ by {}
                    if let Err(Error::TypeMismatch(a, b)) = rg {
                        let j = choose|j: int| 0 <= j < pv.len() && a@ == f.params@[j]@ && b@ == pv[j].0@ && a@ != b@
                            && forall|k: int| 0 <= k < j ==> (#[trigger] pv[k]).0@ == f.params@[k]@;
                        assert(a@ == fp[j] && b@ == av[j].0);
                        assert forall|k: int| 0 <= k < j implies (#[trigger] av[k]).0 == fp[k] by {
                            assert(pv[k].0@ == f.params@[k]@);
                        }
                    }
                    assert(av.len() != fp.len() ==> (r matches Err(Error::ArityMismatch(a, b)) && a == fp.len() && b
                        == av.len() && self.nasm == nb));
                    assert(r matches Err(Error::TypeMismatch(a, b)) ==> exists|j: int|
                        0 <= j < av.len() && a@ == fp[j] && b@ == av[j].0 && a@ != b@ && forall|k: int|
                            0 <= k < j ==> (#[trigger] av[k]).0 == fp[k]);
                    assert(stucker_call_fits(d, f.return_type@, fp, av, nb) ==> (r is Ok && self.nasm.writer@
                        == nb.writer@ + stucker_call_text(d, f.return_type@, av, nb.stack_pointer, nm, nb.uniq_index as nat)));
                    assert(func@ == FnModel::Stucker { ret: f.return_type@, params: fp });
                    lemma_stucker_after_args(d, f.return_type@, fp, nm, av, nb, self.nasm, r);
                    lemma_grows_trans(n0, nb, self.nasm);
                    if r is Ok {
                        assert(call_code(d, f.return_type@, av, nm, n0, nb, self.nasm));
                    }
                    if i == 0 {
                        assert(av =~= Seq::<(TypeModel, Option<(u16, Seq<u16>)>)>::empty());
                    }
                    assert(types_view(f.params@).len() == f.params@.len());
                    if r is Ok {
                        assert forall|j: int| 0 <= j < ts.len() implies ts[j] == types_view(f.params@)[j] by {
                            assert(ts[j] == params@[j].0@);
                        }
                    }
                    if call_typed(d, func@, ts) is Some {
                        assert forall|j: int| 0 <= j < params@.len() implies (#[trigger] params@[j]).0@
                            == f.params@[j]@ by {
                            assert(ts[j] == params@[j].0@);
                            assert(types_view(f.params@)[j] == f.params@[j]@);
                        }
                    }
                }
                r
            },
            DefinedFunction::C(f) => {
                let ghost av = args_view(params@);
                let ghost nm = name@;
                proof {
                    if fits {
                        assert(ts.len() == av.len());
                        assert forall|k: int| 0 <= k < av.len() implies (#[trigger] av[k]).0 == ts[k] by {}
                        assert(c_args_ok(av));
                        lemma_c_stack_size_bound(av, 0);
                        assert forall|k: int| 0 <= k < av.len() implies addressable(#[trigger] av[k].1, nb.stack_pointer) by {
                            assert(av[k].1 == params@[k].1@);
                        }
                    }
                }
                let r = self.codegen_call_c(f, name, params);
                proof {
                    lemma_grows_trans(n0, nb, self.nasm);
                    if r is Ok {
                        assert(c_call_code(f.return_type, av, nm, n0, nb, self.nasm));
                    }
                    if r is Ok {
                        assert forall|j: int| 0 <= j < ts.len() implies (ts[j] is Number && !ts[j]->Number_0.is_float()) by {
                            assert(ts[j] == av[j].0);
                        }
                    }
                    if call_typed(d, func@, ts) is Some {
                        assert forall|j: int| 0 <= j < av.len() implies (#[trigger] av[j]).0 is Number
                            && !av[j].0->Number_0.is_float() by {
                            assert(ts[j] == av[j].0);
                        }
                    }
                }
                r
            },
        }
    }

    /// A binary operation: evaluates both operands (numbers), then applies
    /// the operator named by the string.
    #[verifier::rlimit(30)]
    #[verifier::spinoff_prover]
    pub fn codegen_binop(&mut self, b: (Expression, String, Expression)) -> (r: Result<(ExpressionType, Index), Error>)
        ensures
            final(self).same_context(old(self)),
            grows(old(self).nasm, final(self).nasm),
            final(self).nasm.stack_pointer >= old(self).nasm.stack_pointer,
            r matches Ok((t, _)) ==> typed(old(self).def, old(self).var@, &Expression::BinOp(Box::new(b))) == Some(
                t@,
            ),
            typed(old(self).def, old(self).var@, &Expression::BinOp(Box::new(b))) is Some && r is Err
                ==> is_limit_error(r->Err_0),
            r matches Ok((_, idx)) ==> binop_outcome(old(self).def, old(self).var@, b, old(self).nasm, final(self).nasm, idx@),
            binop_run(old(self).def, old(self).var@, b, old(self).nasm, final(self).nasm, r),
            typed(old(self).def, old(self).var@, &Expression::BinOp(Box::new(b))) is Some && room(
                old(self).def,
                old(self).var@,
                &Expression::BinOp(Box::new(b)),
                old(self).nasm,
            ) ==> compiled(old(self).def, old(self).var@, &Expression::BinOp(Box::new(b)), old(self).nasm, final(self).nasm, r),
        decreases b, 1nat,
    {
        let ghost d = self.def;
        let ghost v = self.var@;
        let ghost n0 = self.nasm;
        let ghost bb = b;
        proof { reveal(binop_run); }
        let (lhs, op, rhs) = b;
        let r1 = self.codegen_expression(lhs);
        let ghost n1 = self.nasm;
        let ghost g1 = r1;
        proof { assert(expr_code(d, v, bb.0, n0, n1, g1)); }
        let (lhs_type, lhs) = match r1 {
            Ok(x) => x,
            Err(e) => return Err(e),
        };
        let r2 = self.codegen_expression(rhs);
        let ghost n2 = self.nasm;
        let ghost g2 = r2;
        proof {
            assert(expr_code(d, v, bb.2, n1, n2, g2));
            lemma_grows_trans(n0, n1, n2);
            lemma_grows_refl(n2);
        }
        let (rhs_type, rhs) = match r2 {
            Ok(x) => x,
            Err(e) => return Err(e),
        };
        let lt = match lhs_type.to_number() {
            Ok(t) => t,
            Err(e) => return Err(e),
        };
        let rt = match rhs_type.to_number() {
            Ok(t) => t,
            Err(e) => return Err(e),
        };
        proof {
            assert(typed(d, v, &bb.0) == Some(TypeModel::Number(lt)));
            assert(typed(d, v, &bb.2) == Some(TypeModel::Number(rt)));
        }
        let ghost li = item_of(lhs@);
        let ghost ri = item_of(rhs@);
        let ghost lx = lhs@;
        let ghost rx = rhs@;
        let ghost o = op@;
        let r = self.codegen_operator(op, (lt, lhs), (rt, rhs));
        proof {
            lemma_grows_trans(n0, n2, self.nasm);
            assert(operator_result(o, lt, lx, rt, rx, n2, self.nasm, r));
            if r is Ok {
                assert(binop_code(n0, n2, self.nasm, o, lt, li, rt, ri, r->Ok_0.1@));
                reveal(binop_outcome);
            }
        }
        r
    }

    /// Applies the operator named `op` to two numbers already on the stack.
    #[verifier::rlimit(100)]
    #[verifier::spinoff_prover]
    fn codegen_operator(&mut self, op: String, lhs: (NumberType, Index), rhs: (NumberType, Index)) -> (r: Result<
        (ExpressionType, Index),
        Error,
    >)
        ensures
            r is Ok ==> final(self).nasm.uniq_index == old(self).nasm.uniq_index,
            final(self).same_context(old(self)),
            grows(old(self).nasm, final(self).nasm),
            final(self).nasm.stack_pointer >= old(self).nasm.stack_pointer,
            r matches Ok((t, _)) ==> binop_typed(op@, lhs.0, rhs.0) == Some(t@),
            binop_typed(op@, lhs.0, rhs.0) is Some && r is Err ==> is_limit_error(r->Err_0),
            binop_typed(op@, lhs.0, rhs.0) is Some && addressable(lhs.1@, old(self).nasm.stack_pointer) && addressable(
                rhs.1@,
                old(self).nasm.stack_pointer,
            ) && old(self).nasm.items_left(1) ==> (r matches Ok((_, idx)) && idx@ == Some(
                (old(self).nasm.stack_pointer, Seq::<u16>::empty()),
            ) && final(self).nasm.stack_pointer == old(self).nasm.stack_pointer + 1 && final(self).nasm.writer@
                == old(self).nasm.writer@ + operator_text(
                op@,
                lhs.0,
                item_of(lhs.1@),
                rhs.0,
                item_of(rhs.1@),
                old(self).nasm.stack_pointer,
            )),
            r is Ok ==> addressable(lhs.1@, old(self).nasm.stack_pointer) && addressable(
                rhs.1@,
                old(self).nasm.stack_pointer,
            ) && old(self).nasm.items_left(1),
            !known_operator(op@) ==> (r matches Err(Error::InvalidOperator(o)) && o@ == op@),
    {
        let ghost n2 = self.nasm;
        proof {
            reveal(operator_text);
            lemma_grows_refl(n2);
            reveal_strlit("add");
            reveal_strlit("addss");
            reveal_strlit("addsd");
            reveal_strlit("sub");
            reveal_strlit("subss");
            reveal_strlit("subsd");
            reveal_strlit("mul");
            reveal_strlit("imul");
            reveal_strlit("div");
            reveal_strlit("idiv");
            reveal_strlit("and");
            reveal_strlit("or");
            reveal_strlit("xor");
            reveal_strlit("shl");
            reveal_strlit("shr");
        }
        let (lt, lhs) = lhs;
        let (rt, rhs) = rhs;
        if str_is(&op, "+") || str_is(&op, "-") {
            let r = if str_is(&op, "+") {
                self.nasm.sum("add", "addss", "addsd", lt, rt, &lhs, &rhs)
            } else {
                self.nasm.sum("sub", "subss", "subsd", lt, rt, &lhs, &rhs)
            };
            return match r {
                Ok(idx) => Ok((ExpressionType::Number(lt), idx)),
                Err(e) => Err(e),
            };
        }
        if str_is(&op, "*") || str_is(&op, "/") || str_is(&op, "%") {
            if lt == rt && (lt == NumberType::F32 || lt == NumberType::F64) {
                return Err(Error::FloatMath);
            }
            let r = if str_is(&op, "*") {
                self.nasm.prod("mul", "imul", lt, rt, &lhs, &rhs, false)
            } else if str_is(&op, "/") {
                self.nasm.prod("div", "idiv", lt, rt, &lhs, &rhs, false)
            } else {
                self.nasm.prod("div", "idiv", lt, rt, &lhs, &rhs, true)
            };
            return match r {
                Ok(idx) => Ok((ExpressionType::Number(lt), idx)),
                Err(e) => Err(e),
            };
        }
        if str_is(&op, "&") || str_is(&op, "|") || str_is(&op, "^") {
            let r = if str_is(&op, "&") {
                self.nasm.bitwise("and", lt, rt, &lhs, &rhs)
            } else if str_is(&op, "|") {
                self.nasm.bitwise("or", lt, rt, &lhs, &rhs)
            } else {
                self.nasm.bitwise("xor", lt, rt, &lhs, &rhs)
            };
            return match r {
                Ok(idx) => Ok((ExpressionType::Number(lt), idx)),
                Err(e) => Err(e),
            };
        }
        if str_is(&op, "<<") || str_is(&op, ">>") {
            let r = if str_is(&op, "<<") {
                self.nasm.bitshift("shl", lt, rt, &lhs, &rhs)
            } else {
                self.nasm.bitshift("shr", lt, rt, &lhs, &rhs)
            };
            return match r {
                Ok(idx) => Ok((ExpressionType::Number(lt), idx)),
                Err(e) => Err(e),
            };
        }
        proof {
            reveal_strlit("+");
            reveal_strlit("-");
            reveal_strlit("*");
            reveal_strlit("/");
            reveal_strlit("%");
            reveal_strlit("&");
            reveal_strlit("|");
            reveal_strlit("^");
            reveal_strlit("<<");
            reveal_strlit(">>");
        }
        self.codegen_logic(op, (lt, lhs), (rt, rhs))
    }

    /// Applies a logical or comparison operator (or refuses an unknown
    /// one) to two numbers already on the stack.
    #[verifier::rlimit(100)]
    #[verifier::spinoff_prover]
    fn codegen_logic(&mut self, op: String, lhs: (NumberType, Index), rhs: (NumberType, Index)) -> (r: Result<
        (ExpressionType, Index),
        Error,
    >)
        requires
            !(op@ == "+"@ || op@ == "-"@ || op@ == "*"@ || op@ == "/"@ || op@ == "%"@ || op@ == "&"@ || op@ == "|"@
                || op@ == "^"@ || op@ == "<<"@ || op@ == ">>"@),
        ensures
            r is Ok ==> final(self).nasm.uniq_index == old(self).nasm.uniq_index,
            final(self).same_context(old(self)),
            grows(old(self).nasm, final(self).nasm),
            final(self).nasm.stack_pointer >= old(self).nasm.stack_pointer,
            r matches Ok((t, _)) ==> binop_typed(op@, lhs.0, rhs.0) == Some(t@),
            binop_typed(op@, lhs.0, rhs.0) is Some && r is Err ==> is_limit_error(r->Err_0),
            binop_typed(op@, lhs.0, rhs.0) is Some && addressable(lhs.1@, old(self).nasm.stack_pointer) && addressable(
                rhs.1@,
                old(self).nasm.stack_pointer,
            ) && old(self).nasm.items_left(1) ==> (r matches Ok((_, idx)) && idx@ == Some(
                (old(self).nasm.stack_pointer, Seq::<u16>::empty()),
            ) && final(self).nasm.stack_pointer == old(self).nasm.stack_pointer + 1 && final(self).nasm.writer@
                == old(self).nasm.writer@ + operator_text(
                op@,
                lhs.0,
                item_of(lhs.1@),
                rhs.0,
                item_of(rhs.1@),
                old(self).nasm.stack_pointer,
            )),
            r is Ok ==> addressable(lhs.1@, old(self).nasm.stack_pointer) && addressable(
                rhs.1@,
                old(self).nasm.stack_pointer,
            ) && old(self).nasm.items_left(1),
            !known_operator(op@) ==> (r matches Err(Error::InvalidOperator(o)) && o@ == op@),
    {
        let ghost n2 = self.nasm;
        proof {
            reveal(operator_text);
            lemma_grows_refl(n2);
        }
        let (lt, lhs) = lhs;
        let (rt, rhs) = rhs;
        if str_is(&op, "&&") || str_is(&op, "||") {
            let r = if str_is(&op, "&&") {
                self.codegen_and_or((lt, lhs), (rt, rhs), "and")
            } else {
                self.codegen_and_or((lt, lhs), (rt, rhs), "or")
            };
            return match r {
                Ok(idx) => Ok((ExpressionType::Number(NumberType::U8), idx)),
                Err(e) => Err(e),
            };
        }
        let operation = if str_is(&op, ">") {
            "g"
        } else if str_is(&op, ">=") {
            "ge"
        } else if str_is(&op, "<") {
            "l"
        } else if str_is(&op, "<=") {
            "le"
        } else if str_is(&op, "==") {
            "e"
        } else if str_is(&op, "!=") {
            "ne"
        } else {
            return Err(Error::InvalidOperator(op));
        };
        let r = self.codegen_ord((lt, lhs), (rt, rhs), operation);
        match r {
            Ok(idx) => Ok((ExpressionType::Number(NumberType::U8), idx)),
            Err(e) => Err(e),
        }
    }

    /// `&x`: pushes a reference to the value of `x`.
    #[verifier::rlimit(30)]
    #[verifier::spinoff_prover]
    fn codegen_ref(&mut self, x: Expression) -> (r: Result<(ExpressionType, Index), Error>)
        ensures
            final(self).same_context(old(self)),
            grows(old(self).nasm, final(self).nasm),
            final(self).nasm.stack_pointer >= old(self).nasm.stack_pointer,
            r matches Ok((t, _)) ==> typed(old(self).def, old(self).var@, &Expression::Ref(Box::new(x))) == Some(t@),
            typed(old(self).def, old(self).var@, &Expression::Ref(Box::new(x))) is Some && r is Err ==> is_limit_error(
                r->Err_0,
            ),
            r matches Ok((_, idx)) ==> ref_outcome(old(self).nasm, final(self).nasm, idx@),
            ref_run(old(self).def, old(self).var@, x, old(self).nasm, final(self).nasm, r),
            typed(old(self).def, old(self).var@, &Expression::Ref(Box::new(x))) is Some && room(
                old(self).def,
                old(self).var@,
                &Expression::Ref(Box::new(x)),
                old(self).nasm,
            ) ==> compiled(old(self).def, old(self).var@, &Expression::Ref(Box::new(x)), old(self).nasm, final(self).nasm, r),
        decreases x, 1nat,
    {
        let ghost n0 = self.nasm;
        let ghost xg = x;
        proof { reveal(ref_run); }
        let rx = self.codegen_expression(x);
        let ghost n1 = self.nasm;
        proof { assert(expr_code(self.def, self.var@, xg, n0, n1, rx)); }
        let (expr_type, expr_idx) = match rx {
            Ok(p) => p,
            Err(e) => return Err(e),
        };
        let r = self.nasm.push_idx2ref(&expr_idx, "bx");
        match r {
            Ok(ref_idx) => {
                proof {
                    lemma_grows_append(n1, self.nasm, push_idx2ref_text("bx"@, item_of(expr_idx@).0, item_of(expr_idx@).1, n1.stack_pointer));
                    lemma_grows_trans(n0, n1, self.nasm);
                    assert(ref_code(n0, n1, self.nasm, item_of(expr_idx@), ref_idx@));
                    reveal(ref_outcome);
                }
                Ok((ExpressionType::Ref(Box::new(expr_type)), ref_idx))
            },
            Err(e) => Err(e),
        }
    }

    /// `*x`: pushes a copy of the value `x` refers to.
    #[verifier::rlimit(30)]
    #[verifier::spinoff_prover]
    fn codegen_deref(&mut self, x: Expression) -> (r: Result<(ExpressionType, Index), Error>)
        ensures
            final(self).same_context(old(self)),
            grows(old(self).nasm, final(self).nasm),
            final(self).nasm.stack_pointer >= old(self).nasm.stack_pointer,
            r matches Ok((t, _)) ==> typed(old(self).def, old(self).var@, &Expression::Deref(Box::new(x))) == Some(t@),
            typed(old(self).def, old(self).var@, &Expression::Deref(Box::new(x))) is Some && r is Err
                ==> is_limit_error(r->Err_0),
            r matches Ok((_, idx)) ==> deref_outcome(old(self).nasm, final(self).nasm, idx@),
            deref_run(old(self).def, old(self).var@, x, old(self).nasm, final(self).nasm, r),
            typed(old(self).def, old(self).var@, &Expression::Deref(Box::new(x))) is Some && room(
                old(self).def,
                old(self).var@,
                &Expression::Deref(Box::new(x)),
                old(self).nasm,
            ) ==> compiled(old(self).def, old(self).var@, &Expression::Deref(Box::new(x)), old(self).nasm, final(self).nasm, r),
        decreases x, 1nat,
    {
        let ghost n0 = self.nasm;
        let ghost xg = x;
        proof { reveal(deref_run); }
        let rx = self.codegen_expression(x);
        proof { assert(expr_code(self.def, self.var@, xg, n0, self.nasm, rx)); }
        let (ref_ty, ref_idx) = match rx {
            Ok(p) => p,
            Err(e) => return Err(e),
        };
        let ref_value_ty = match ref_ty.to_ref() {
            Ok(t) => t,
            Err(e) => return Err(e),
        };
        let ghost n1 = self.nasm;
        let r = self.nasm.idx2addr("rbx", &ref_idx);
        match r {
            Ok(()) => {},
            Err(e) => return Err(e),
        }
        proof {
            lemma_grows_append(n1, self.nasm, idx2addr_text("rbx"@, item_of(ref_idx@).0, item_of(ref_idx@).1, n1.stack_pointer));
            lemma_grows_trans(n0, n1, self.nasm);
        }
        let ghost n2 = self.nasm;
        let r = self.nasm.ref2addr();
        match r {
            Ok(()) => {},
            Err(e) => return Err(e),
        }
        proof {
            lemma_grows_append(n2, self.nasm, ref2addr_text(n2.uniq_index as nat));
            lemma_grows_trans(n0, n2, self.nasm);
        }
        let ghost n3 = self.nasm;
        let r = self.nasm.push_copy_addr();
        match r {
            Ok(expr_idx) => {
                proof {
                    lemma_grows_append(n3, self.nasm, push_copy_addr_text(n3.uniq_index as nat));
                    lemma_grows_trans(n0, n3, self.nasm);
                    assert(deref_code(n0, n1, self.nasm, item_of(ref_idx@), expr_idx@));
                    reveal(deref_outcome);
                }
                Ok((ref_value_ty, expr_idx))
            },
            Err(e) => Err(e),
        }
    }

    /// `[len]T`: an array of `len` (a `u64`) elements of type `T`, laid out
    /// by a runtime loop under one size tag.
    #[verifier::rlimit(60)]
    #[verifier::spinoff_prover]
    fn codegen_init_array(&mut self, b: (Expression, ExpressionType)) -> (r: Result<(ExpressionType, Index), Error>)
        ensures
            final(self).same_context(old(self)),
            grows(old(self).nasm, final(self).nasm),
            final(self).nasm.stack_pointer >= old(self).nasm.stack_pointer,
            r matches Ok((t, _)) ==> typed(old(self).def, old(self).var@, &Expression::InitArray(Box::new(b))) == Some(
                t@,
            ),
            typed(old(self).def, old(self).var@, &Expression::InitArray(Box::new(b))) is Some && r is Err
                ==> is_limit_error(r->Err_0),
            r matches Ok((_, idx)) ==> init_array_outcome(old(self).def, b.1@, old(self).nasm, final(self).nasm, idx@),
            init_array_run(old(self).def, old(self).var@, b, old(self).nasm, final(self).nasm, r),
            typed(old(self).def, old(self).var@, &Expression::InitArray(Box::new(b))) is Some && room(
                old(self).def,
                old(self).var@,
                &Expression::InitArray(Box::new(b)),
                old(self).nasm,
            ) ==> compiled(old(self).def, old(self).var@, &Expression::InitArray(Box::new(b)), old(self).nasm, final(self).nasm, r),
        decreases b, 1nat,
    {
        let ghost n0 = self.nasm;
        let ghost bb = b;
        proof { reveal(init_array_run); }
        let (len, elem_ty) = b;
        let rx = self.codegen_expression(len);
        proof { assert(expr_code(self.def, self.var@, bb.0, n0, self.nasm, rx)); }
        let (index_ty, index_idx) = match rx {
            Ok(p) => p,
            Err(e) => return Err(e),
        };
        let expected_ty = ExpressionType::Number(NumberType::U64);
        if !expected_ty.same(&index_ty) {
            return Err(Error::TypeMismatch(expected_ty, index_ty));
        }
        let ghost n1 = self.nasm;
        let r = self.nasm.idx2addr("rcx", &index_idx);
        match r {
            Ok(()) => {},
            Err(e) => return Err(e),
        }
        proof {
            lemma_grows_append(n1, self.nasm, idx2addr_text("rcx"@, item_of(index_idx@).0, item_of(index_idx@).1, n1.stack_pointer));
            lemma_grows_trans(n0, n1, self.nasm);
        }
        let ghost n2 = self.nasm;
        self.nasm.emit(owned("mov rcx, [rcx+8]"));
        let ghost n3 = self.nasm;
        self.nasm.emit(owned("mov rdx, 8"));
        proof {
            lemma_grows_trans(n2, n3, self.nasm);
            lemma_grows_trans(n0, n2, self.nasm);
        }
        let ret = self.nasm.get_local_label_name("init_array_return");
        let ghost u_ret = self.nasm.uniq_index;
        proof {
            reveal_strlit("init_array_body");
            reveal_strlit("init_array_return");
            lemma_local_name_is_label("init_array_return"@, u_ret as nat);
        }
        let ghost n4 = self.nasm;
        let body = match self.nasm.local_label("init_array_body") {
            Ok(l) => l,
            Err(e) => return Err(e),
        };
        proof {
            lemma_grows_append(n4, self.nasm, label(local_name("init_array_body"@, n4.uniq_index as nat)));
            lemma_grows_trans(n0, n4, self.nasm);
        }
        let ghost n5 = self.nasm;
        self.nasm.emit(owned("cmp rcx, 0"));
        let ghost n6 = self.nasm;
        self.nasm.emit(cat(owned("je "), ret.as_str()));
        proof {
            lemma_grows_trans(n5, n6, self.nasm);
            lemma_grows_trans(n0, n5, self.nasm);
        }
        let ghost n7 = self.nasm;
        let size = match self.def.alloc_hidden(&mut self.nasm, &elem_ty) {
            Ok(s) => s,
            Err(e) => {
                proof {
                    lemma_grows_prefix(n7, self.nasm);
                    lemma_grows_trans(n0, n7, self.nasm);
                }
                return Err(e);
            },
        };
        proof {
            lemma_grows_prefix(n7, self.nasm);
            lemma_grows_trans(n0, n7, self.nasm);
        }
        let ghost n8 = self.nasm;
        self.nasm.emit(cat(owned("add rdx, "), u64_text(size as u64).as_str()));
        let ghost n9 = self.nasm;
        self.nasm.emit(owned("sub rcx, 1"));
        let ghost n10 = self.nasm;
        self.nasm.emit(cat(owned("jmp "), body.as_str()));
        proof {
            lemma_grows_trans(n8, n9, n10);
            lemma_grows_trans(n8, n10, self.nasm);
            lemma_grows_trans(n0, n8, self.nasm);
        }
        let ghost n11 = self.nasm;
        match self.nasm.raw_label(ret.as_str()) {
            Ok(()) => {},
            Err(e) => return Err(e),
        }
        proof {
            lemma_grows_append(n11, self.nasm, label(ret@));
            lemma_grows_trans(n0, n11, self.nasm);
        }
        let ghost n12 = self.nasm;
        let r = self.nasm.push_stag_reg("rdx");
        match r {
            Ok(idx) => {
                proof {
                    lemma_extend(n12.writer@, inc_text(), stag_text("rdx"@));
                    lemma_grows_append(n12, self.nasm, inc_text() + stag_text("rdx"@));
                    lemma_grows_trans(n0, n12, self.nasm);
                    assert(init_array_code(self.def, elem_ty@, n0, n1, self.nasm, item_of(index_idx@), idx@));
                    reveal(init_array_outcome);
                }
                Ok((ExpressionType::Array(Box::new(elem_ty)), idx))
            },
            Err(e) => Err(e),
        }
    }

    /// `as(T)x`: reinterprets `x` as type `T`; a number converted to a number
    /// is moved into a fresh item of the new width.
    #[verifier::rlimit(40)]
    #[verifier::spinoff_prover]
    fn codegen_as(&mut self, b: (ExpressionType, Expression)) -> (r: Result<(ExpressionType, Index), Error>)
        ensures
            final(self).same_context(old(self)),
            grows(old(self).nasm, final(self).nasm),
            final(self).nasm.stack_pointer >= old(self).nasm.stack_pointer,
            r matches Ok((t, _)) ==> typed(old(self).def, old(self).var@, &Expression::As(Box::new(b))) == Some(t@),
            typed(old(self).def, old(self).var@, &Expression::As(Box::new(b))) is Some && r is Err ==> is_limit_error(
                r->Err_0,
            ),
            r matches Ok((_, idx)) ==> as_outcome(old(self).def, old(self).var@, b, old(self).nasm, final(self).nasm, idx@),
            as_run(old(self).def, old(self).var@, b, old(self).nasm, final(self).nasm, r),
            typed(old(self).def, old(self).var@, &Expression::As(Box::new(b))) is Some && room(
                old(self).def,
                old(self).var@,
                &Expression::As(Box::new(b)),
                old(self).nasm,
            ) ==> compiled(old(self).def, old(self).var@, &Expression::As(Box::new(b)), old(self).nasm, final(self).nasm, r),
        decreases b, 1nat,
    {
        let ghost n0 = self.nasm;
        let ghost bb = b;
        proof { reveal(as_run); }
        let (ty, inn) = b;
        let rx = self.codegen_expression(inn);
        proof { assert(expr_code(self.def, self.var@, bb.1, n0, self.nasm, rx)); }
        let (expr_ty, idx) = match rx {
            Ok(p) => p,
            Err(e) => return Err(e),
        };
        let idx = match (&expr_ty, &ty) {
            (ExpressionType::Number(from), ExpressionType::Number(to)) => {
                let ghost n1 = self.nasm;
                let ghost xi = idx@;
                let r = self.mov_num((*from, idx), "b", "bx", "ebx", "rbx", "rcx");
                proof { lemma_grows_trans(n0, n1, self.nasm); }
                match r {
                    Ok(()) => {},
                    Err(e) => return Err(e),
                }
                let ghost n2 = self.nasm;
                let pushed = match to {
                    NumberType::I8 => self.nasm.push(1, "as_i8"),
                    NumberType::I16 => self.nasm.push(2, "as_i16"),
                    NumberType::I32 => self.nasm.push(4, "as_i32"),
                    NumberType::I64 => self.nasm.push(8, "as_i64"),
                    NumberType::U8 => self.nasm.push(1, "as_u8"),
                    NumberType::U16 => self.nasm.push(2, "as_u16"),
                    NumberType::U32 => self.nasm.push(4, "as_u32"),
                    NumberType::U64 => self.nasm.push(8, "as_u64"),
                    NumberType::F32 => self.nasm.push(4, "as_f32"),
                    NumberType::F64 => self.nasm.push(8, "as_f64"),
                };
                let new_idx = match pushed {
                    Ok(i) => i,
                    Err(e) => return Err(e),
                };
                proof {
                    lemma_grows_prefix(n2, self.nasm);
                    lemma_grows_trans(n0, n2, self.nasm);
                }
                let ghost n3 = self.nasm;
                match to {
                    NumberType::U8 | NumberType::I8 => self.nasm.emit(owned("mov [rsp+8], b")),
                    NumberType::U16 | NumberType::I16 => self.nasm.emit(owned("mov [rsp+8], bx")),
                    NumberType::F32 | NumberType::U32 | NumberType::I32 => self.nasm.emit(owned("mov [rsp+8], ebx")),
                    NumberType::F64 | NumberType::U64 | NumberType::I64 => self.nasm.emit(owned("mov [rsp+8], rbx")),
                }
                proof {
                    lemma_grows_trans(n0, n3, self.nasm);
                    assert(as_code(n0, n1, self.nasm, *from, *to, item_of(xi), new_idx@));
                    reveal(as_outcome);
                }
                new_idx
            },
            _ => {
                proof {
                    lemma_grows_refl(n0);
                    reveal(as_outcome);
                }
                idx
            },
        };
        Ok((ty, idx))
    }

    /// `x.field`: a field of a struct value, or of the struct a reference
    /// points to.
    #[verifier::rlimit(30)]
    #[verifier::spinoff_prover]
    fn codegen_field_access(&mut self, b: (Expression, String)) -> (r: Result<(ExpressionType, Index), Error>)
        ensures
            final(self).same_context(old(self)),
            grows(old(self).nasm, final(self).nasm),
            final(self).nasm.stack_pointer >= old(self).nasm.stack_pointer,
            r matches Ok((t, _)) ==> typed(old(self).def, old(self).var@, &Expression::FieldAccess(Box::new(b)))
                == Some(t@),
            typed(old(self).def, old(self).var@, &Expression::FieldAccess(Box::new(b))) is Some && r is Err
                ==> is_limit_error(r->Err_0),
            r matches Ok((_, idx)) ==> field_outcome(old(self).def, old(self).var@, b, old(self).nasm, final(self).nasm, idx@),
            field_run(old(self).def, old(self).var@, b, old(self).nasm, final(self).nasm, r),
            typed(old(self).def, old(self).var@, &Expression::FieldAccess(Box::new(b))) is Some && room(
                old(self).def,
                old(self).var@,
                &Expression::FieldAccess(Box::new(b)),
                old(self).nasm,
            ) ==> compiled(old(self).def, old(self).var@, &Expression::FieldAccess(Box::new(b)), old(self).nasm, final(self).nasm, r),
        decreases b, 1nat,
    {
        let ghost n0 = self.nasm;
        let ghost bb = b;
        proof { reveal(field_run); }
        let (expr, field_name) = b;
        let rx = self.codegen_expression(expr);
        proof { assert(expr_code(self.def, self.var@, bb.0, n0, self.nasm, rx)); }
        let (struct_ty, struct_idx) = match rx {
            Ok(p) => p,
            Err(e) => return Err(e),
        };
        let ghost n1 = self.nasm;
        proof { lemma_grows_refl(n1); }
        let ghost st = struct_ty@;
        proof {
            assert(typed(old(self).def, old(self).var@, &bb.0) == Some(st));
        }
        match struct_ty {
            ExpressionType::Ref(inner) => {
                let ghost iv = (*inner)@;
                proof {
                    assert(st == TypeModel::Ref(Box::new(iv)));
                }
                match *inner {
                    ExpressionType::Struct(struct_name) => {
                        proof {
                            assert(iv == TypeModel::Struct(struct_name@));
                        }
                        let ghost sn = struct_name@;
                        let ghost fname = field_name@;
                        let ghost si = struct_idx@;
                        let r = self.codegen_struct_ref_access(struct_name, struct_idx, field_name);
                        proof {
                            lemma_grows_trans(n0, n1, self.nasm);
                            if r is Ok {
                                let k = field_index(old(self).def.lookup_struct(sn)->Some_0, fname)->Some_0;
                                assert(ref_field_code(n0, n1, self.nasm, item_of(si), k, r->Ok_0.1@));
                                reveal(field_outcome);
                            }
                        }
                        r
                    },
                    _ => Err(Error::CannotAccessStruct),
                }
            },
            ExpressionType::Struct(struct_name) => {
                let ghost sn = struct_name@;
                let ghost fname = field_name@;
                let ghost si = struct_idx@;
                let r = self.codegen_struct_access(struct_name, struct_idx, field_name);
                proof {
                    if r is Ok {
                        let k = field_index(old(self).def.lookup_struct(sn)->Some_0, fname)->Some_0;
                        lemma_grows_refl(n0);
                        assert(field_code(n0, self.nasm, item_of(si), k, r->Ok_0.1@));
                        reveal(field_outcome);
                    }
                }
                r
            },
            _ => Err(Error::CannotAccessStruct),
        }
    }

    /// `(&arr)[i]`: a reference to element `i` (a `u16`) of the array a
    /// reference points to; indexing an array value directly is refused.
    #[verifier::rlimit(30)]
    #[verifier::spinoff_prover]
    fn codegen_array_access(&mut self, b: (Expression, Expression)) -> (r: Result<(ExpressionType, Index), Error>)
        ensures
            final(self).same_context(old(self)),
            grows(old(self).nasm, final(self).nasm),
            final(self).nasm.stack_pointer >= old(self).nasm.stack_pointer,
            r matches Ok((t, _)) ==> typed(old(self).def, old(self).var@, &Expression::ArrayAccess(Box::new(b)))
                == Some(t@),
            typed(old(self).def, old(self).var@, &Expression::ArrayAccess(Box::new(b))) is Some && r is Err
                ==> is_limit_error(r->Err_0),
            r matches Ok((_, idx)) ==> array_outcome(old(self).nasm, final(self).nasm, idx@),
            array_run(old(self).def, old(self).var@, b, old(self).nasm, final(self).nasm, r),
            typed(old(self).def, old(self).var@, &Expression::ArrayAccess(Box::new(b))) is Some && room(
                old(self).def,
                old(self).var@,
                &Expression::ArrayAccess(Box::new(b)),
                old(self).nasm,
            ) ==> compiled(old(self).def, old(self).var@, &Expression::ArrayAccess(Box::new(b)), old(self).nasm, final(self).nasm, r),
        decreases b, 1nat,
    {
        let ghost n0 = self.nasm;
        let ghost bb = b;
        proof { reveal(array_run); }
        let (arr_expr, index_expr) = b;
        let ra = self.codegen_expression(arr_expr);
        let ghost n1 = self.nasm;
        proof { assert(expr_code(self.def, self.var@, bb.0, n0, n1, ra)); }
        let (arr_ty, arr_idx) = match ra {
            Ok(p) => p,
            Err(e) => return Err(e),
        };
        let rx = self.codegen_expression(index_expr);
        proof { assert(expr_code(self.def, self.var@, bb.1, n1, self.nasm, rx)); }
        let (index_ty, index_idx) = match rx {
            Ok(x) => x,
            Err(e) => {
                proof { lemma_grows_trans(n0, n1, self.nasm); }
                return Err(e);
            },
        };
        let ghost n2 = self.nasm;
        proof { lemma_grows_trans(n0, n1, n2); }
        let index_expected = ExpressionType::Number(NumberType::U16);
        if !index_expected.same(&index_ty) {
            return Err(Error::TypeMismatch(index_expected, index_ty));
        }
        let ghost at = arr_ty@;
        proof {
            assert(typed(old(self).def, old(self).var@, &bb.0) == Some(at));
            assert(typed(old(self).def, old(self).var@, &bb.1) == Some(TypeModel::Number(NumberType::U16)));
        }
        match arr_ty {
            ExpressionType::Ref(inner) => {
                let ghost iv = (*inner)@;
                proof {
                    assert(at == TypeModel::Ref(Box::new(iv)));
                }
                match *inner {
                    ExpressionType::Array(elem_ty) => {
                        proof {
                            assert(iv == TypeModel::Array(Box::new((*elem_ty)@)));
                        }
                        let ghost ai = arr_idx@;
                        let ghost xi = index_idx@;
                        let r = self.codegen_array_ref_access(elem_ty, arr_idx, index_idx);
                        proof {
                            lemma_grows_trans(n0, n2, self.nasm);
                            if r is Ok {
                                assert(array_code(n0, n2, self.nasm, item_of(ai), item_of(xi), r->Ok_0.1@));
                                reveal(array_outcome);
                            }
                        }
                        r
                    },
                    _ => Err(Error::CannotAccessArray),
                }
            },
            // indexing an array value (not through a reference) is not supported
            ExpressionType::Array(_) => Err(Error::CannotAccessArray),
            _ => Err(Error::CannotAccessArray),
        }
    }

    /// A string literal: a zero-terminated string in the data section, whose
    /// address is pushed as a `u64`.
    #[verifier::rlimit(30)]
    #[verifier::spinoff_prover]
    fn codegen_string(&mut self, s: String) -> (r: Result<(ExpressionType, Index), Error>)
        ensures
            final(self).same_context(old(self)),
            grows(old(self).nasm, final(self).nasm),
            final(self).nasm.stack_pointer >= old(self).nasm.stack_pointer,
            r matches Ok((t, _)) ==> t@ == TypeModel::Number(NumberType::U64),
            r is Err ==> is_limit_error(r->Err_0),
            old(self).nasm.labels_left(1) && old(self).nasm.items_left(1) ==> string_outcome(
                old(self).nasm,
                final(self).nasm,
                s@,
                r,
            ),
            !(old(self).nasm.labels_left(1) && old(self).nasm.items_left(1)) ==> r matches Err(Error::LimitExceeded),
    {
        let ghost n0 = self.nasm;
        proof { lemma_grows_refl(n0); }
        match self.nasm.db_cstr(s.as_str(), "rbx") {
            Ok(_) => {},
            Err(e) => return Err(e),
        }
        proof {
            reveal_strlit("rbx");
        }
        let ghost n1 = self.nasm;
        match self.nasm.push_register("rbx", RegisterSize::S64) {
            Ok(idx) => {
                proof {
                    lemma_grows_append(n1, self.nasm, push_register_text("rbx"@, RegisterSize::S64));
                    lemma_grows_trans(n0, n1, self.nasm);
                    reveal(string_outcome);
                }
                Ok((ExpressionType::Number(NumberType::U64), idx))
            },
            Err(e) => Err(e),
        }
    }

    /// Generates code that computes an expression and pushes its value;
    /// returns its type and its index. An expression that has no type is
    /// refused; one that has a type is only refused when a compile-time
    /// limit is reached or an index names no live item.
    #[verifier::rlimit(30)]
    #[verifier::spinoff_prover]
    pub fn codegen_expression(&mut self, expr: Expression) -> (r: Result<(ExpressionType, Index), Error>)
        ensures
            final(self).same_context(old(self)),
            grows(old(self).nasm, final(self).nasm),
            final(self).nasm.stack_pointer >= old(self).nasm.stack_pointer,
            r matches Ok((t, _)) ==> typed(old(self).def, old(self).var@, &expr) == Some(t@),
            typed(old(self).def, old(self).var@, &expr) is Some && r is Err ==> is_limit_error(r->Err_0),
            expr matches Expression::Symbol(s) ==> final(self).nasm == old(self).nasm && match r {
                Ok((t, i)) => old(self).var@.resolve(s@) == Some((t@, i@)),
                Err(e) => old(self).var@.resolve(s@) is None && (e matches Error::UnknownSymbol(n) && n@ == s@),
            },
            expr matches Expression::Number(n) ==> (old(self).nasm.items_left(1) ==> (r matches Ok((t, idx)) && t@
                == TypeModel::Number(n.spec_numtype()) && idx@ == Some((old(self).nasm.stack_pointer, Seq::<u16>::empty()))
                && final(self).nasm.writer@ == old(self).nasm.writer@ + push_text(
                (n.spec_numtype().spec_size_bytes() + 8) as nat,
                "number"@,
            ) + number_line(n) && final(self).nasm.stack_pointer == old(self).nasm.stack_pointer + 1)),
            expr matches Expression::Number(_) && !old(self).nasm.items_left(1) ==> (r matches Err(Error::LimitExceeded)),
            expr matches Expression::Call(k, _) ==> (old(self).def.lookup_fn(k@) is None ==> (r matches Err(
                Error::UnknownFunction(n),
            ) && n@ == k@ && final(self).nasm == old(self).nasm)),
            expr_code(old(self).def, old(self).var@, expr, old(self).nasm, final(self).nasm, r),
            expr matches Expression::BinOp(b) ==> binop_run(
                old(self).def,
                old(self).var@,
                *b,
                old(self).nasm,
                final(self).nasm,
                r,
            ),
            expr matches Expression::Call(k, es) ==> (old(self).def.lookup_fn(k@) matches Some(f) ==> call_run(
                old(self).def,
                old(self).var@,
                f,
                k@,
                es@,
                old(self).nasm,
                final(self).nasm,
                r,
            )),
            expr matches Expression::Ref(x) ==> ref_run(old(self).def, old(self).var@, *x, old(self).nasm, final(self).nasm, r),
            expr matches Expression::Deref(x) ==> deref_run(old(self).def, old(self).var@, *x, old(self).nasm, final(self).nasm, r),
            expr matches Expression::InitArray(b) ==> init_array_run(
                old(self).def,
                old(self).var@,
                *b,
                old(self).nasm,
                final(self).nasm,
                r,
            ),
            expr matches Expression::As(b) ==> as_run(old(self).def, old(self).var@, *b, old(self).nasm, final(self).nasm, r),
            expr matches Expression::FieldAccess(b) ==> field_run(
                old(self).def,
                old(self).var@,
                *b,
                old(self).nasm,
                final(self).nasm,
                r,
            ),
            expr matches Expression::ArrayAccess(b) ==> array_run(
                old(self).def,
                old(self).var@,
                *b,
                old(self).nasm,
                final(self).nasm,
                r,
            ),
            typed(old(self).def, old(self).var@, &expr) is Some && room(
                old(self).def,
                old(self).var@,
                &expr,
                old(self).nasm,
            ) ==> compiled(old(self).def, old(self).var@, &expr, old(self).nasm, final(self).nasm, r),
        decreases expr, 0nat,
    {
        let ghost n0 = self.nasm;
        let ghost e0 = expr;
        proof { lemma_grows_refl(n0); }
        let r = match expr {
            Expression::Call(k, expressions) => match self.def.get_function(k.as_str()) {
                Some(func) => {
                    let r = self.codegen_call(func, k, expressions);
                    proof {
                        reveal(call_outcome);
                    }
                    r
                },
                None => Err(Error::UnknownFunction(k)),
            },
            Expression::Symbol(symbol) => self.var.get_symbol(symbol),
            Expression::Number(number) => {
                let r = self.codegen_number(number);
                proof {
                    if r is Ok {
                        lemma_extend(n0.writer@, push_text(
                            (number.spec_numtype().spec_size_bytes() + 8) as nat,
                            "number"@,
                        ), number_line(number));
                        lemma_grows_append(n0, self.nasm, push_text(
                            (number.spec_numtype().spec_size_bytes() + 8) as nat,
                            "number"@,
                        ) + number_line(number));
                    }
                }
                r
            },
            Expression::BinOp(binop) => self.codegen_binop(*binop),
            Expression::Ref(x) => self.codegen_ref(*x),
            Expression::Deref(x) => self.codegen_deref(*x),
            Expression::InitArray(b) => self.codegen_init_array(*b),
            Expression::As(b) => self.codegen_as(*b),
            Expression::FieldAccess(b) => self.codegen_field_access(*b),
            Expression::ArrayAccess(b) => self.codegen_array_access(*b),
            Expression::String(s) => {
                let r = self.codegen_string(s);
                proof {
                    reveal(string_outcome);
                }
                r
            },
        };
        proof {
            reveal(expr_code);
        }
        r
    }
}

} // verus!
