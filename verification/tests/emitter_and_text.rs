use stucker::ast::{Abi, DefAssignment, Expression, ExpressionType, Function, GlobalValue, Number, NumberType, Statement};
use stucker::codegen::{DefinedFunction, DefinitionTable, Error, StuckerFunction, VarTable};
use stucker::expr::FunctionCodegen;
use stucker::compile::run;
use stucker::nasm::{validate_symbol, Index, Nasm, ValidIndex};
use stucker::parse::Parser;
use stucker::statement::Codegen;
use stucker::tokenize::{FloatBits, Token, Tokenizer};

struct Floats;

impl FloatBits for Floats {
    fn single_bits(&self, text: &str) -> Option<u32> {
        text.parse::<f32>().ok().map(|x| x.to_bits())
    }

    fn double_bits(&self, text: &str) -> Option<u64> {
        text.parse::<f64>().ok().map(|x| x.to_bits())
    }

    fn single_text(&self, bits: u32) -> String {
        format!("{}", f32::from_bits(bits))
    }

    fn double_text(&self, bits: u64) -> String {
        format!("{}", f64::from_bits(bits))
    }
}

fn parser_of(src: &str) -> Parser<Floats> {
    Parser::new(src.as_bytes().to_vec(), Floats).unwrap()
}

fn expr_text(src: &str) -> String {
    parser_of(src).parse_expr().unwrap().debug_text(&Floats)
}

fn stmt_text(src: &str) -> String {
    parser_of(src).parse_stmt().unwrap().debug_text(&Floats)
}

const INC: &str = "    add rbp, 1 ; inc_stack\n";

#[test]
fn push_tags_data_with_its_size_plus_eight() {
    let mut n = Nasm::new();
    let idx = n.push(4, "number").unwrap();
    assert_eq!(idx.valid().unwrap().0, 0);
    assert_eq!(n.stack_pointer, 1);
    let expected = format!("{INC}    sub rsp, 12 ; push (number)\n    mov qword [rsp], 12 ; push (number)\n");
    assert_eq!(n.writer, expected);
}

#[test]
fn pop_undoes_push_on_the_stack_count() {
    let mut n = Nasm::new();
    n.push(8, "x").unwrap();
    let before = n.writer.clone();
    n.pop().unwrap();
    assert_eq!(n.stack_pointer, 0);
    assert_eq!(n.writer, format!("{before}    sub rbp, 1 ; dec_stack\n    add rsp, [rsp] ; pop\n"));
}

#[test]
fn idx2addr_walks_back_length_minus_index_minus_one_items() {
    let mut n = Nasm::new();
    n.push(1, "a").unwrap();
    n.push(1, "b").unwrap();
    n.push(1, "c").unwrap();
    let start = n.writer.len();
    n.idx2addr("rsi", &Index::new(0)).unwrap();
    assert_eq!(
        &n.writer[start..],
        "    mov rsi, rsp ; idx2addr (<0>)\n    add rsi, [rsi] ; idx2addr (1)\n    add rsi, [rsi] ; idx2addr (0)\n"
    );
    let start = n.writer.len();
    n.idx2addr("rdi", &Index::new(2)).unwrap();
    assert_eq!(&n.writer[start..], "    mov rdi, rsp ; idx2addr (<2>)\n");
}

#[test]
fn idx2addr_descends_into_nested_items() {
    let mut n = Nasm::new();
    n.push(16, "s").unwrap();
    let idx = Index(Some(ValidIndex(0, vec![1])));
    n.idx2addr("rsi", &idx).unwrap();
    assert!(n.writer.ends_with(
        "    mov rsi, rsp ; idx2addr (<0>[1])\n    add rsi, 8 ; idx2addr\n    add rsi, [rsi] ; idx2addr (0)\n"
    ));
}

#[test]
fn indexes_of_no_live_item_are_refused() {
    let mut n = Nasm::new();
    assert!(matches!(n.idx2addr("rsi", &Index::new(0)), Err(Error::DanglingIndex)));
    assert!(matches!(n.idx2addr("rsi", &Index::void()), Err(Error::InvalidIndex)));
    assert_eq!(n.writer, "");
}

#[test]
fn stack_limits_are_refused() {
    let mut n = Nasm::new();
    assert!(matches!(n.push(65530, "big"), Err(Error::LimitExceeded)));
    assert_eq!(n.stack_pointer, 0);
    assert_eq!(n.writer, "");
    n.stack_pointer = 65535;
    assert!(matches!(n.push(1, "x"), Err(Error::LimitExceeded)));
    assert_eq!(n.stack_pointer, 65535);
}

#[test]
fn pop_until_pops_down_to_the_pointer() {
    let mut n = Nasm::new();
    n.push(1, "a").unwrap();
    n.push(1, "b").unwrap();
    n.push(1, "c").unwrap();
    let before = n.writer.clone();
    n.pop_until(1).unwrap();
    assert_eq!(n.stack_pointer, 1);
    let pop = "    sub rbp, 1 ; dec_stack\n    add rsp, [rsp] ; pop\n";
    assert_eq!(n.writer, format!("{before}{pop}{pop}"));
    n.pop_until(5).unwrap();
    assert_eq!(n.stack_pointer, 1);
    assert_eq!(n.writer, format!("{before}{pop}{pop}"));
}

#[test]
fn strings_become_zero_terminated_data() {
    let mut n = Nasm::new();
    assert_eq!(n.db_cstr("a\nb", "rsi").unwrap(), "db_string_0");
    assert_eq!(n.writer, "    mov rsi, db_string_0\n");
    assert_eq!(n.rodata, "    db_string_0: db \"a\", 10, \"b\", 0\n");
    assert_eq!(n.db_cstr("\n", "rdi").unwrap(), "db_string_1");
    assert!(n.rodata.ends_with("    db_string_1: db \"\", 10, 0\n"));
    let data = n.rodata.clone();
    let text = n.writer.clone();
    n.finalize().unwrap();
    assert_eq!(n.writer, format!("{text}\nsection .data\n{data}"));
}

#[test]
fn local_labels_are_numbered_apart() {
    let mut n = Nasm::new();
    let a = n.local_label("loop").unwrap();
    let b = n.local_label("loop").unwrap();
    assert_eq!(a, "._loop_0");
    assert_eq!(b, "._loop_1");
    assert_ne!(a, b);
    assert_eq!(n.writer, "._loop_0:\n._loop_1:\n");
    assert_eq!(n.get_global_label_name("main"), "_main");
}

#[test]
fn index_debug_text() {
    assert_eq!(ValidIndex(3, vec![1, 2]).debug_text(), "<3>[1][2]");
    assert_eq!(ValidIndex(0, vec![]).debug_text(), "<0>");
}

#[test]
fn definitions_read_back_what_was_written() {
    let mut d = DefinitionTable::new();
    assert!(d.get_function("f").is_none());
    assert!(matches!(d.get_struct("S"), Err(Error::UnknownType(s)) if s == "S"));
    let f1 = DefinedFunction::Stucker(StuckerFunction { return_type: ExpressionType::Void, params: vec![] });
    d.insert_function("f".to_string(), f1);
    assert!(matches!(d.get_function("f"), Some(DefinedFunction::Stucker(s)) if s.params.is_empty()));
    let f2 = DefinedFunction::Stucker(StuckerFunction {
        return_type: ExpressionType::Number(NumberType::I32),
        params: vec![ExpressionType::Number(NumberType::U8)],
    });
    d.insert_function("f".to_string(), f2);
    assert!(matches!(d.get_function("f"), Some(DefinedFunction::Stucker(s)) if s.params.len() == 1));
    assert_eq!(d.fn_table.len(), 1);
    assert!(d.get_function("g").is_none());
}

#[test]
fn inner_scopes_shadow_outer_ones() {
    let mut outer = VarTable::new(None);
    outer.insert("x".to_string(), ExpressionType::Number(NumberType::I32), Index::new(0));
    outer.insert("y".to_string(), ExpressionType::Str, Index::new(1));
    let mut inner = VarTable::new(Some(outer));
    let (t, i) = inner.get_symbol("x".to_string()).unwrap();
    assert_eq!(t.to_string(), "i32");
    assert_eq!(i.valid().unwrap().0, 0);
    inner.insert("x".to_string(), ExpressionType::Number(NumberType::U8), Index::new(2));
    let (t, i) = inner.get_symbol("x".to_string()).unwrap();
    assert_eq!(t.to_string(), "u8");
    assert_eq!(i.valid().unwrap().0, 2);
    let (t, _) = inner.get_symbol("y".to_string()).unwrap();
    assert_eq!(t.to_string(), "str");
    assert!(matches!(inner.get_symbol("z".to_string()), Err(Error::UnknownSymbol(s)) if s == "z"));
}

#[test]
fn decimal_literals_read_back_their_value() {
    for (src, v) in [("0u64", 0u64), ("4294967295u64", 4294967295u64), ("18446744073709551615u64", u64::MAX)] {
        let mut t = Tokenizer::new(src.as_bytes().to_vec(), Floats);
        assert!(matches!(t.next_token(), Ok(Some(Token::Number(Number::U64(x)))) if x == v));
    }
}

#[test]
fn type_names_read_back_as_their_type() {
    for name in ["i8", "i16", "i32", "i64", "u8", "u16", "u32", "u64", "f32", "f64", "void", "str"] {
        let t = parser_of(name).parse_type().unwrap();
        assert_eq!(t.to_string(), name);
        assert!(!matches!(t, ExpressionType::Struct(_)));
    }
    assert!(matches!(parser_of("i9").parse_type().unwrap(), ExpressionType::Struct(s) if s == "i9"));
}

#[test]
fn every_parsed_operator_compiles_on_u16_operands() {
    // `-` cannot be written between operands in source (it starts a number
    // literal), so that operator is given as a tree.
    let ops = ["+", "*", "/", "%", "&", "|", "^", ">", "<", "<<", ">>", "&&", "||", ">=", "<=", "==", "!="];
    for op in ops {
        let src = format!("i32 main() {{ def u16 a = 1u16; a {op} a; return 0; }}");
        let mut p = Parser::new(src.into_bytes(), Floats).unwrap();
        assert!(run(&mut p, &mut String::new()).is_ok(), "operator {op}");
    }
    let mut c = Codegen::new();
    c.init().unwrap();
    let a = || Expression::Symbol("a".to_string());
    let body = vec![
        Statement::DefAssign(DefAssignment {
            var_type: ExpressionType::Number(NumberType::U16),
            var_name: "a".to_string(),
            var_value: Some(Expression::Number(Number::U16(1))),
        }),
        Statement::Expr(Expression::BinOp(Box::new((a(), "-".to_string(), a())))),
        Statement::Return(Some(Expression::Number(Number::I32(0)))),
    ];
    let f = Function {
        return_type: ExpressionType::Number(NumberType::I32),
        params: vec![],
        body: Some(body),
        abi: Abi::Stucker,
        is_variadic: false,
    };
    assert!(c.codegen("main".to_string(), GlobalValue::Function(f)).is_ok());
}

#[test]
fn unknown_operators_are_refused_by_the_code_generator() {
    let mut c = Codegen::new();
    c.init().unwrap();
    let e = Expression::BinOp(Box::new((
        Expression::Number(Number::I32(1)),
        "@".to_string(),
        Expression::Number(Number::I32(2)),
    )));
    let f = Function {
        return_type: ExpressionType::Number(NumberType::I32),
        params: vec![],
        body: Some(vec![Statement::Return(Some(e))]),
        abi: Abi::Stucker,
        is_variadic: false,
    };
    assert!(matches!(c.codegen("main".to_string(), GlobalValue::Function(f)), Err(Error::InvalidOperator(s)) if s == "@"));
}

#[test]
fn expression_debug_text() {
    assert_eq!(expr_text("foo(1, x + 2u8)"), "foo(1i32, (\"x\" + 2u8))");
    assert_eq!(expr_text("f()"), "f()");
    assert_eq!(expr_text("-5"), "-5i32");
    assert_eq!(expr_text("&x"), "&(\"x\")");
    assert_eq!(expr_text("*p"), "*(\"p\")");
    assert_eq!(expr_text("as(u8)x"), "as(u8)(\"x\")");
    assert_eq!(expr_text("[3u64]i32"), "[3u64]i32");
    assert_eq!(expr_text("x.a"), "(\"x\").a");
    assert_eq!(expr_text("(&arr)[0u16]"), "(&(\"arr\"))[0u16]");
    assert_eq!(expr_text("1 * 2 + 3"), "((1i32 * 2i32) + 3i32)");
    assert_eq!(expr_text("a <= b"), "(\"a\" <= \"b\")");
}

#[test]
fn string_literal_debug_text_escapes_quotes_then_backslashes() {
    assert_eq!(expr_text("\"hi\""), "\"hi\"");
    // `"` becomes `\"`, and that backslash is then doubled.
    assert_eq!(expr_text("\"a\\\"b\""), "\"a\\\\\"b\"");
    assert_eq!(expr_text("\"c\\\\d\""), "\"c\\\\d\"");
}

#[test]
fn float_literals_print_through_the_float_reader() {
    assert_eq!(expr_text("1.5"), "1.5f64");
    assert_eq!(expr_text("2.0f32"), "2f32");
    assert_eq!(expr_text("g(1.5, 2.5f32)"), "g(1.5f64, 2.5f32)");
}

#[test]
fn statement_debug_text() {
    assert_eq!(stmt_text("def i32 x = 3;"), "def i32 \"x\" = 3i32;");
    assert_eq!(stmt_text("def i32 x;"), "def i32 \"x\";;");
    assert_eq!(stmt_text("set *p = 4;"), "set *\"p\" = 4i32;");
    assert_eq!(stmt_text("set x.a = 1;"), "set (\"x\").a = 1i32;");
    assert_eq!(stmt_text("return;"), "return;");
    assert_eq!(stmt_text("return x;"), "return \"x\";");
    assert_eq!(stmt_text("f(x);"), "f(\"x\");");
    assert_eq!(stmt_text("{ return; breakpoint; }"), "{ return; breakpoint; }");
    assert_eq!(stmt_text("{}"), "{  }");
    assert_eq!(stmt_text("if (x) { return; }"), "if (\"x\") { return; } else None");
    assert_eq!(stmt_text("if (x) { return; } else breakpoint;"), "if (\"x\") { return; } else Some(breakpoint;)");
    assert_eq!(stmt_text("while (1) {}"), "while (1i32) {  }");
    assert_eq!(
        stmt_text("for (def i32 i = 0; i < 10; set i = i + 1) {}"),
        "for (def i32 \"i\" = 0i32;; (\"i\" < 10i32); set \"i\" = (\"i\" + 1i32);) {  }"
    );
}

#[test]
fn global_debug_text() {
    let mut p = parser_of("struct S { i32 a, u8 b } i32 main(i32 a, &u8 b) { return a; } void proto();");
    let (_, s) = p.next_global().unwrap().unwrap();
    assert_eq!(s.debug_text(&Floats), "struct { i32 a, u8 b }");
    let (_, f) = p.next_global().unwrap().unwrap();
    assert_eq!(f.debug_text(&Floats), "fn i32 (i32 a, &u8 b) { return \"a\"; }");
    let (_, g) = p.next_global().unwrap().unwrap();
    assert_eq!(g.debug_text(&Floats), "fn void ();");
}

#[test]
fn binary_operation_ends_with_the_operator_on_its_operands() {
    let var = VarTable::new(None);
    let def = DefinitionTable::new();
    let mut fc = FunctionCodegen::new(Nasm::new(), &var, &def);
    let e = Expression::BinOp(Box::new((
        Expression::Number(Number::U8(1)),
        "+".to_string(),
        Expression::Number(Number::U8(2)),
    )));
    let (t, idx) = fc.codegen_expression(e).unwrap();
    assert!(matches!(t, ExpressionType::Number(NumberType::U8)));
    assert_eq!(idx.valid().unwrap().0, 2);
    assert_eq!(fc.nasm.stack_pointer, 3);
    let tail = format!(
        "    add bl, cl ; add_S8\n{INC}    sub rsp, 9 ; push (reg)\n    mov qword [rsp], 9 ; push (reg)\n    mov [rsp+8], bl ; push_register\n"
    );
    assert!(fc.nasm.writer.ends_with(&tail), "{}", fc.nasm.writer);
}

#[test]
fn comparison_sets_a_byte_from_the_flags() {
    let var = VarTable::new(None);
    let def = DefinitionTable::new();
    let mut fc = FunctionCodegen::new(Nasm::new(), &var, &def);
    let e = Expression::BinOp(Box::new((
        Expression::Number(Number::I32(1)),
        ">=".to_string(),
        Expression::Number(Number::I32(2)),
    )));
    let (t, _) = fc.codegen_expression(e).unwrap();
    assert!(matches!(t, ExpressionType::Number(NumberType::U8)));
    assert!(fc.nasm.writer.contains("    cmp rbx, rcx\n    setge bl\n"), "{}", fc.nasm.writer);
}

#[test]
fn runtime_routines_come_in_order() {
    let mut c = Codegen::new();
    c.codegen_stdlib().unwrap();
    let w = &c.nasm.writer;
    assert!(w.starts_with("\ncopy_addr:\n"));
    let a = w.find("\ncopy_addr:\n").unwrap();
    let b = w.find("\nref2addr:\n").unwrap();
    let r = w.find("\n_resize:\n").unwrap();
    assert!(a < b && b < r);
    assert_eq!(c.nasm.uniq_index, 24);
    assert!(w.ends_with("    jmp rax\n"));
}

#[test]
fn the_entry_point_calls_main_and_exits_with_its_result() {
    let mut c = Codegen::new();
    c.init().unwrap();
    let w = &c.nasm.writer;
    assert!(w.starts_with("    global main\n    section .text\nmain:\n    mov rbp, 0\n"));
    assert!(w.contains("    lea rax, [._call_return_1] ; codegen_call (ret)\n"));
    assert!(w.contains("    jmp _main ; codegen_call (jmp)\n._call_return_1:\n"));
    assert!(w.contains("    mov ebx, [rbx+8]\n    mov eax, 1\n    int 0x80\n\ncopy_addr:\n"));
    assert_eq!(c.nasm.uniq_index, 26);
}

#[test]
fn labels_may_hold_unicode_letters() {
    assert!(validate_symbol("._if_false_3"));
    assert!(validate_symbol("_main"));
    assert!(validate_symbol("été"));
    assert!(validate_symbol("x٣"));
    assert!(!validate_symbol(""));
    assert!(!validate_symbol("1abc"));
    assert!(!validate_symbol("a-b"));
    assert!(!validate_symbol("٣x"));
}

#[test]
fn cast_to_u8_copies_into_a_fresh_item() {
    let var = VarTable::new(None);
    let def = DefinitionTable::new();
    let mut fc = FunctionCodegen::new(Nasm::new(), &var, &def);
    let e = Expression::As(Box::new((ExpressionType::Number(NumberType::U8), Expression::Number(Number::I32(300)))));
    let (t, idx) = fc.codegen_expression(e).unwrap();
    assert!(matches!(t, ExpressionType::Number(NumberType::U8)));
    assert_eq!(idx.valid().unwrap().0, 1);
    assert!(idx.valid().unwrap().1.is_empty());
    assert_eq!(fc.nasm.stack_pointer, 2);
}

#[test]
fn following_a_number_is_expected_ref() {
    let var = VarTable::new(None);
    let def = DefinitionTable::new();
    let mut fc = FunctionCodegen::new(Nasm::new(), &var, &def);
    let e = Expression::Deref(Box::new(Expression::Number(Number::U8(1))));
    assert!(matches!(fc.codegen_expression(e), Err(Error::ExpectedRef(ExpressionType::Number(NumberType::U8)))));
}

#[test]
fn array_index_must_be_u16() {
    let var = VarTable::new(None);
    let def = DefinitionTable::new();
    let mut fc = FunctionCodegen::new(Nasm::new(), &var, &def);
    let e = Expression::ArrayAccess(Box::new((Expression::Number(Number::U8(1)), Expression::Number(Number::U8(0)))));
    assert!(matches!(
        fc.codegen_expression(e),
        Err(Error::TypeMismatch(ExpressionType::Number(NumberType::U16), ExpressionType::Number(NumberType::U8)))
    ));
}

#[test]
fn unknown_operator_is_refused() {
    let var = VarTable::new(None);
    let def = DefinitionTable::new();
    let mut fc = FunctionCodegen::new(Nasm::new(), &var, &def);
    let e = Expression::BinOp(Box::new((
        Expression::Number(Number::U8(1)),
        "**".to_string(),
        Expression::Number(Number::U8(2)),
    )));
    assert!(matches!(fc.codegen_expression(e), Err(Error::InvalidOperator(o)) if o == "**"));
}

#[test]
fn binop_tail_parses_after_a_left_operand() {
    let mut p = parser_of("+ 2 * 3");
    let e = p.parse_binop(0, Expression::Number(Number::I32(1))).unwrap();
    assert_eq!(e.debug_text(&Floats), expr_text("1 + 2 * 3"));
}

#[test]
fn reference_to_a_compound_value_is_pushed() {
    let var = VarTable::new(None);
    let def = DefinitionTable::new();
    let mut fc = FunctionCodegen::new(Nasm::new(), &var, &def);
    let e = Expression::Ref(Box::new(Expression::BinOp(Box::new((
        Expression::Number(Number::U8(1)),
        "+".to_string(),
        Expression::Number(Number::U8(2)),
    )))));
    let (t, idx) = fc.codegen_expression(e).unwrap();
    assert!(matches!(t, ExpressionType::Ref(_)));
    assert_eq!(idx.valid().unwrap().0, 3);
    assert_eq!(fc.nasm.stack_pointer, 4);
}

#[test]
fn breakpoint_and_empty_block_statements_parse() {
    assert!(matches!(parser_of("breakpoint").parse_stmt(), Ok(Statement::Breakpoint)));
    assert!(matches!(parser_of("breakpoint; x").parse_stmt(), Ok(Statement::Breakpoint)));
    assert!(matches!(parser_of("{}").parse_stmt(), Ok(Statement::Block(v)) if v.is_empty()));
    assert!(matches!(parser_of("{ breakpoint; { } }").parse_stmt(), Ok(Statement::Block(v)) if v.len() == 2));
}

#[test]
fn a_block_failure_is_not_blamed_on_its_opening_brace() {
    let mut p = parser_of("{ breakpoint;");
    let r = p.parse_block();
    assert!(matches!(r, Err(stucker::parse::Error::ExpectedOperand('}'))));
    assert!(p.buf.is_none());
}

#[test]
fn a_block_fails_at_a_token_that_cannot_begin_a_statement() {
    let mut p = parser_of("{ breakpoint; ) }");
    assert!(matches!(p.parse_block(), Err(stucker::parse::Error::UnknownToken)));
    assert!(matches!(p.buf, Some(Token::Operand(')'))));
    let mut q = parser_of("( 1");
    assert!(matches!(q.parse_expr(), Err(stucker::parse::Error::UnexpectedEof) | Err(stucker::parse::Error::ExpectedOperand(')'))));
}

#[test]
fn a_return_after_a_definition_leaves_the_stack_where_the_block_began() {
    let mut c = Codegen::new();
    c.init().unwrap();
    let mut var = VarTable::new(None);
    let start = c.nasm.stack_pointer;
    let def = Statement::DefAssign(DefAssignment {
        var_type: ExpressionType::Number(NumberType::I32),
        var_name: "x".to_string(),
        var_value: Some(Expression::Number(Number::I32(1))),
    });
    let block = Statement::Block(vec![def, Statement::Return(None)]);
    let cond = Expression::Number(Number::I32(1));
    let stmt = Statement::If(Box::new((cond, block, None)));
    c.codegen_stmt(&ExpressionType::Void, &mut var, stmt).unwrap();
    assert_eq!(c.nasm.stack_pointer, start);
    let bare = Statement::While(Box::new((Expression::Number(Number::I32(1)), Statement::Return(None))));
    c.codegen_stmt(&ExpressionType::Void, &mut var, bare).unwrap();
    assert_eq!(c.nasm.stack_pointer, start - 1);
}

#[test]
fn compound_statements_fail_inside_their_parts() {
    let mut p = parser_of("if 1 )");
    assert!(matches!(p.parse_stmt(), Err(stucker::parse::Error::UnknownToken)));
    assert!(matches!(p.buf, Some(Token::Operand(')'))));
    let mut q = parser_of("while x");
    assert!(matches!(q.parse_stmt(), Err(stucker::parse::Error::UnexpectedEof)));
    let mut r = parser_of("return ;");
    assert!(matches!(r.parse_stmt(), Ok(Statement::Return(None))));
    let mut s = parser_of("if 1 breakpoint else )");
    assert!(matches!(s.parse_stmt(), Err(stucker::parse::Error::UnknownToken)));
}
