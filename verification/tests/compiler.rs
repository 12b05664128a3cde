use stucker::ast::{Abi, Expression, ExpressionType, Function, GlobalValue, Number, NumberType};
use stucker::statement::Codegen;
use stucker::codegen::Error;
use stucker::compile::{run, RunError};
use stucker::parse::{Error as ParseError, Parser};
use stucker::tokenize::{Error as TokError, FloatBits, IntErrorKind, Token, Tokenizer};

struct StdFloats;

impl FloatBits for StdFloats {
    fn single_bits(&self, text: &str) -> Option<u32> {
        text.parse::<f32>().ok().map(|x| x.to_bits())
    }

    fn double_bits(&self, text: &str) -> Option<u64> {
        text.parse::<f64>().ok().map(|x| x.to_bits())
    }

    fn single_text(&self, bits: u32) -> String {
        format!("{}", f32::from_bits(bits))
    }

    fn double_text(&self, bits: u64) -> String {
        format!("{}", f64::from_bits(bits))
    }
}

fn tokens(src: &str) -> Result<Vec<Token>, TokError> {
    let mut t = Tokenizer::new(src.as_bytes().to_vec(), StdFloats);
    let mut out = Vec::new();
    while let Some(tok) = t.next_token()? {
        out.push(tok);
    }
    Ok(out)
}

fn one_token(src: &str) -> Result<Option<Token>, TokError> {
    let mut t = Tokenizer::new(src.as_bytes().to_vec(), StdFloats);
    t.next_token()
}

fn parser(src: &str) -> Parser<StdFloats> {
    Parser::new(src.as_bytes().to_vec(), StdFloats).unwrap()
}

fn compile(src: &str) -> Result<String, RunError> {
    let mut p = Parser::new(src.as_bytes().to_vec(), StdFloats).map_err(RunError::Parse)?;
    let mut out = String::new();
    run(&mut p, &mut out)?;
    Ok(out)
}

fn compile_partial(src: &str) -> (String, Result<(), RunError>) {
    let mut p = Parser::new(src.as_bytes().to_vec(), StdFloats).unwrap();
    let mut out = String::new();
    let r = run(&mut p, &mut out);
    (out, r)
}

fn codegen_err(src: &str) -> Error {
    match compile(src) {
        Err(RunError::Codegen(e)) => e,
        Err(RunError::Parse(e)) => panic!("parse error {:?}", e),
        Ok(_) => panic!("compiled"),
    }
}

fn is_sym(t: &Token, s: &str) -> bool {
    matches!(t, Token::Symbol(x) if x == s)
}

#[test]
fn tokens_of_a_definition() {
    let t = tokens("def i32 x = 3;").unwrap();
    assert_eq!(t.len(), 6);
    assert!(is_sym(&t[0], "def"));
    assert!(is_sym(&t[1], "i32"));
    assert!(is_sym(&t[2], "x"));
    assert!(matches!(t[3], Token::Operand('=')));
    assert!(matches!(t[4], Token::Number(Number::I32(3))));
    assert!(matches!(t[5], Token::Operand(';')));
}

#[test]
fn two_character_operators() {
    let t = tokens("a <= b && c != d << e >> f || g == h >= i < j").unwrap();
    assert!(matches!(t[1], Token::Operand2('<', '=')));
    assert!(matches!(t[3], Token::Operand2('&', '&')));
    assert!(matches!(t[5], Token::Operand2('!', '=')));
    assert!(matches!(t[7], Token::Operand2('<', '<')));
    assert!(matches!(t[9], Token::Operand2('>', '>')));
    assert!(matches!(t[11], Token::Operand2('|', '|')));
    assert!(matches!(t[13], Token::Operand2('=', '=')));
    assert!(matches!(t[15], Token::Operand2('>', '=')));
    assert!(matches!(t[17], Token::Operand('<')));
    assert_eq!(t.len(), 19);
}

#[test]
fn number_suffixes() {
    assert!(matches!(one_token("3u64"), Ok(Some(Token::Number(Number::U64(3))))));
    assert!(matches!(one_token("4u16"), Ok(Some(Token::Number(Number::U16(4))))));
    assert!(matches!(one_token("2u8"), Ok(Some(Token::Number(Number::U8(2))))));
    assert!(matches!(one_token("-7i8"), Ok(Some(Token::Number(Number::I8(-7))))));
    assert!(matches!(one_token("7i64"), Ok(Some(Token::Number(Number::I64(7))))));
    assert!(matches!(one_token("-5"), Ok(Some(Token::Number(Number::I32(-5))))));
    assert!(matches!(one_token("65535u16"), Ok(Some(Token::Number(Number::U16(65535))))));
    assert!(matches!(one_token("+12"), Ok(Some(Token::Operand('+')))));
}

#[test]
fn float_literals_keep_their_bits() {
    let bits64 = 1.5f64.to_bits();
    assert!(matches!(one_token("1.5"), Ok(Some(Token::Number(Number::F64(b)))) if b == bits64));
    let bits32 = 2.0f32.to_bits();
    assert!(matches!(one_token("2.0f32"), Ok(Some(Token::Number(Number::F32(b)))) if b == bits32));
    assert!(matches!(one_token("1.2.3"), Err(TokError::ParseFloat)));
}

#[test]
fn integer_literal_errors() {
    assert!(matches!(one_token("300u8"), Err(TokError::ParseInt(IntErrorKind::PosOverflow))));
    assert!(matches!(one_token("12ab"), Err(TokError::ParseInt(IntErrorKind::InvalidDigit))));
    assert!(matches!(one_token("99999999999"), Err(TokError::ParseInt(IntErrorKind::PosOverflow))));
    assert!(matches!(one_token("-3000000000"), Err(TokError::ParseInt(IntErrorKind::NegOverflow))));
    assert!(matches!(one_token("-1u32"), Err(TokError::ParseInt(IntErrorKind::InvalidDigit))));
    assert!(matches!(one_token("u8"), Ok(Some(Token::Symbol(_)))));
}

#[test]
fn a_lone_minus_starts_a_number() {
    // `-` begins a number, so a spaced subtraction is read as a malformed
    // number literal.
    assert!(matches!(tokens("a - b"), Err(TokError::ParseInt(IntErrorKind::InvalidDigit))));
    let t = tokens("a -1").unwrap();
    assert!(matches!(t[1], Token::Number(Number::I32(-1))));
}

#[test]
fn comments_and_whitespace_are_skipped() {
    let t = tokens("# a comment\n  foo # another\n\tbar").unwrap();
    assert_eq!(t.len(), 2);
    assert!(is_sym(&t[0], "foo"));
    assert!(is_sym(&t[1], "bar"));
    assert!(tokens("   # only a comment").unwrap().is_empty());
}

#[test]
fn string_literals() {
    assert!(matches!(one_token("\"Hello, World\""), Ok(Some(Token::String(s))) if s == "Hello, World"));
    assert!(matches!(one_token("\"a\\\"b\\\\c\""), Ok(Some(Token::String(s))) if s == "a\"b\\c"));
    assert!(matches!(one_token("\"tab\\tline\\n\""), Ok(Some(Token::String(s))) if s == "tab\tline\n"));
    assert!(matches!(one_token("\"abc"), Err(TokError::UnterminatedString)));
    assert!(matches!(one_token("\"abc\\"), Err(TokError::UnterminatedString)));
}

#[test]
fn tokenizer_byte_level_operations() {
    let mut t = Tokenizer::new(b"  ab#x\ny".to_vec(), StdFloats);
    assert_eq!(t.peek(), Some(b' '));
    t.skip_whitespace().unwrap();
    assert_eq!(t.pos, 2);
    assert_eq!(t.pop().unwrap(), Some(b'a'));
    t.skip_until(b'#').unwrap();
    assert_eq!(t.pos, 4);
    t.parse_comment().unwrap();
    assert_eq!(t.pos, 7);
    assert!(matches!(t.parse_symbol(), Ok(Token::Symbol(s)) if s == "y"));
    assert!(matches!(t.parse_symbol(), Err(TokError::MalformedToken)));
    assert_eq!(t.pop().unwrap(), None);
}

#[test]
fn types_parse() {
    let mut p = parser("&[]i32 Foo void str u8");
    assert_eq!(p.parse_type().unwrap().to_string(), "&[]i32");
    assert!(matches!(p.parse_type().unwrap(), ExpressionType::Struct(s) if s == "Foo"));
    assert!(matches!(p.parse_type().unwrap(), ExpressionType::Void));
    assert!(matches!(p.parse_type().unwrap(), ExpressionType::Str));
    assert!(matches!(p.parse_type().unwrap(), ExpressionType::Number(NumberType::U8)));
}

fn binop_parts(e: Expression) -> (Expression, String, Expression) {
    match e {
        Expression::BinOp(b) => *b,
        _ => panic!("not a binop"),
    }
}

#[test]
fn multiplication_binds_tighter_than_addition() {
    let (l, op, r) = binop_parts(parser("1 + 2 * 3").parse_expr().unwrap());
    assert_eq!(op, "+");
    assert!(matches!(l, Expression::Number(Number::I32(1))));
    let (l2, op2, r2) = binop_parts(r);
    assert_eq!(op2, "*");
    assert!(matches!(l2, Expression::Number(Number::I32(2))));
    assert!(matches!(r2, Expression::Number(Number::I32(3))));

    let (l, op, r) = binop_parts(parser("1 * 2 + 3").parse_expr().unwrap());
    assert_eq!(op, "+");
    assert!(matches!(r, Expression::Number(Number::I32(3))));
    let (_, op2, _) = binop_parts(l);
    assert_eq!(op2, "*");
}

#[test]
fn equal_precedence_groups_to_the_left() {
    let (l, op, r) = binop_parts(parser("1 + 2 + 3").parse_expr().unwrap());
    assert_eq!(op, "+");
    assert!(matches!(r, Expression::Number(Number::I32(3))));
    let (_, op2, _) = binop_parts(l);
    assert_eq!(op2, "+");
}

#[test]
fn postfix_and_prefix_expressions() {
    let e = parser("*(&arr)[4u16]").parse_expr().unwrap();
    match e {
        Expression::Deref(inner) => match *inner {
            Expression::ArrayAccess(b) => {
                assert!(matches!(b.0, Expression::Ref(_)));
                assert!(matches!(b.1, Expression::Number(Number::U16(4))));
            },
            _ => panic!("expected an index"),
        },
        _ => panic!("expected a deref"),
    }
    let e = parser("f(1, x.y, \"s\")").parse_expr().unwrap();
    match e {
        Expression::Call(name, args) => {
            assert_eq!(name, "f");
            assert_eq!(args.len(), 3);
            assert!(matches!(&args[1], Expression::FieldAccess(_)));
            assert!(matches!(&args[2], Expression::String(s) if s == "s"));
        },
        _ => panic!("expected a call"),
    }
    assert!(matches!(parser("as(u8)300").parse_expr().unwrap(), Expression::As(_)));
    assert!(matches!(parser("[3u64]i32").parse_expr().unwrap(), Expression::InitArray(_)));
}

#[test]
fn duplicate_struct_fields_are_refused() {
    let mut p = parser("struct S { i32 a, u8 b, i64 a }");
    assert!(matches!(p.next_global(), Err(ParseError::DuplicateField(f)) if f == "a"));
}

#[test]
fn parse_errors() {
    assert!(matches!(parser("i32").next_global(), Err(ParseError::UnexpectedEof)));
    assert!(matches!(parser("i32 123").next_global(), Err(ParseError::ExpectedSymbol)));
    assert!(matches!(parser("{").next_global(), Err(ParseError::ExpectedSymbol)));
    assert!(matches!(parser("i32 main {").next_global(), Err(ParseError::ExpectedOperand('('))));
    assert!(matches!(parser("foo S {}").parse_struct(), Err(ParseError::ExpectedStruct)));
    assert!(matches!(parser("i32 main() { return ); }").next_global(), Err(ParseError::UnknownToken)));
    assert!(matches!(parser("x").parse_number(), Err(ParseError::ExpectedNumber)));
    assert!(matches!(parser("i32 main() { return 0;").next_global(), Err(ParseError::ExpectedOperand('}'))));
    assert!(matches!(Parser::new(b"\"open".to_vec(), StdFloats), Err(ParseError::Tokenizer(TokError::UnterminatedString))));
}

#[test]
fn globals_in_order() {
    let mut p = parser("struct P { i32 x } extern \"C\" void puts(u64 s); i32 main() { return 0; }");
    match p.next_global().unwrap() {
        Some((name, GlobalValue::Struct(s))) => {
            assert_eq!(name, "P");
            assert_eq!(s.0.len(), 1);
        },
        _ => panic!("expected a struct"),
    }
    match p.next_global().unwrap() {
        Some((name, GlobalValue::Function(f))) => {
            assert_eq!(name, "puts");
            assert!(matches!(f.abi, Abi::C));
            assert!(f.body.is_none());
        },
        _ => panic!("expected a declaration"),
    }
    match p.next_global().unwrap() {
        Some((name, GlobalValue::Function(f))) => {
            assert_eq!(name, "main");
            assert!(matches!(f.abi, Abi::Stucker));
            assert_eq!(f.body.unwrap().len(), 1);
        },
        _ => panic!("expected main"),
    }
    assert!(p.next_global().unwrap().is_none());
}

const HEAD: &str = "    global main\n    section .text\nmain:\n    mov rbp, 0\n";

#[test]
fn readme_resizable_array_program_compiles() {
    let src = "void double_size(&[]i32 arr, u64 size) {\n    set *arr = [size * 2u64]i32;\n}\n\ni32 main() {\n    # init array with 3 items\n    def u64 size = 3u64;\n    def []i32 arr = [size]i32;\n    \n    double_size(&arr, size);\n\n    set *(&arr)[4u16] = 3;\n\n    return 0;\n}\n";
    let out = compile(src).unwrap();
    assert!(out.starts_with(HEAD));
    assert!(out.contains("\n_double_size:\n"));
    assert!(out.contains("jmp _double_size ; codegen_call (jmp)"));
    assert!(out.contains("\n_main:\n"));
    assert!(out.contains("\ncopy_addr:\n"));
    assert!(out.contains("\nref2addr:\n"));
    assert!(out.contains("\n_resize:\n"));
    assert!(out.ends_with("\nsection .data\n"));
}

#[test]
fn readme_loop_programs_compile() {
    let sum = "i32 main() {\ndef i32 count = 0;\nfor (def i32 i = 0; i < 10; set i = i + 1) {\n    set count = count + i;\n}\nreturn count;\n}\n";
    let out = compile(sum).unwrap();
    assert!(out.contains("._for_body_"));
    assert!(out.contains("setl bl"));
    let hang = "i32 main() { while (1) {} return 0; }";
    let out = compile(hang).unwrap();
    assert!(out.contains("._while_body_"));
    assert!(out.contains("cmp rbx, 0"));
}

#[test]
fn readme_struct_program_compiles() {
    let src = "struct MyStruct {\n    i32 a,\n    u8 b,\n    &MyStruct c,\n}\n\ni32 main() {\n    def MyStruct x;\n    set x.a = 1;\n    set x.b = 2u8;\n    set *x.c.a = 3;\n    set *x.c.b = 4u8;\n    return 0;\n}\n";
    assert!(compile(src).is_ok());
}

#[test]
fn readme_infinitely_sized_struct_is_refused() {
    let src = "struct MyStruct {\n    i32 a,\n    u8 b,\n    MyStruct c,\n}\n\ni32 main() {\n    def MyStruct x;\n    return 0;\n}\n";
    assert!(matches!(codegen_err(src), Error::RecursiveStruct(s) if s == "MyStruct"));
}

#[test]
fn resize_takes_a_void_reference() {
    // Parameter types must match exactly, so `resize` takes a `&void`.
    let src = "i32 main() {\n    def i32 x = 0;\n    resize(&x, 8u64);\n    return x;\n}\n";
    assert!(matches!(codegen_err(src), Error::TypeMismatch(a, b) if a.to_string() == "&void" && b.to_string() == "&i32"));
    let src = "i32 main() {\n    def i32 x = 0;\n    def &void p = as(&void)&x;\n    resize(p, 8u64);\n    return x;\n}\n";
    let out = compile(src).unwrap();
    assert!(out.contains("jmp _resize ; codegen_call (jmp)"));
}

#[test]
fn breakpoint_writes_int3() {
    let out = compile("i32 main() {\n    breakpoint;\n    return 0;\n}\n").unwrap();
    assert!(out.contains("    int3\n"));
}

#[test]
fn readme_printf_program_compiles() {
    let src = "extern \"C\" void printf(u64 fmt);\n\ni32 main() {\n    printf(\"Hello, World\\n\");\n    return 0;\n}\n";
    let out = compile(src).unwrap();
    assert!(out.contains("\nextern printf\n\n_printf:\n    jmp printf\n"));
    assert!(out.contains("    call _printf\n"));
    assert!(out.contains("db_string_"));
    assert!(out.contains(": db \"Hello, World\", 10, 0\n"));
}

#[test]
fn type_errors_are_reported() {
    assert!(matches!(codegen_err("i32 main() { def u8 x = 1; return 0; }"),
        Error::TypeMismatch(a, b) if a.to_string() == "u8" && b.to_string() == "i32"));
    assert!(matches!(codegen_err("i32 main() { return y; }"), Error::UnknownSymbol(s) if s == "y"));
    assert!(matches!(codegen_err("i32 main() { f(); return 0; }"), Error::UnknownFunction(s) if s == "f"));
    assert!(matches!(codegen_err("void f(i32 a) {} i32 main() { f(); return 0; }"), Error::ArityMismatch(1, 0)));
    assert!(matches!(codegen_err("void f(Foo a) {}"), Error::UnknownType(s) if s == "Foo"));
    assert!(matches!(codegen_err("void main() {}"), Error::MainInvalidSignature));
    assert!(matches!(codegen_err("i32 main() { def i32 x = 1; return x.a; }"), Error::CannotAccessStruct));
    assert!(matches!(codegen_err("i32 main() { def []i32 a = [3u64]i32; def i32 b = a[0u16]; return 0; }"),
        Error::CannotAccessArray));
    assert!(matches!(codegen_err("struct S { i32 a } i32 main() { def S s; return s.b; }"),
        Error::UnknownField(s, f) if s == "S" && f == "b"));
    assert!(matches!(codegen_err("i32 main() { def void x; return 0; }"), Error::CannotAllocVoid));
    assert!(matches!(codegen_err("i32 main() { def f64 x = 1.5 & 2.5; return 0; }"), Error::BitwiseFloat));
    assert!(matches!(codegen_err("i32 main() { def i32 x = 1 << 2; return 0; }"), Error::BitShiftU16));
    assert!(matches!(codegen_err("i32 main() { def f64 x = 1.5 * 2.5; return 0; }"), Error::FloatMath));
    assert!(matches!(codegen_err("struct S { i32 a } i32 main() { def S s; return 1 + s; }"),
        Error::ExpectedNumber(t) if t.to_string() == "S"));
    assert!(matches!(codegen_err("i32 main() { if (1.5) {} return 0; }"), Error::ExpectedInteger(_)));
    assert!(matches!(codegen_err("i32 main() { def i32 x = 1; set *x = 2; return 0; }"), Error::ExpectedRef(_)));
}

#[test]
fn extern_declarations_are_checked() {
    assert!(matches!(codegen_err("extern \"C\" void f() {}"), Error::ExternFunctionBody));
    assert!(matches!(codegen_err("extern \"C\" void f(&i32 p);"), Error::ExternCInvalidParameter));
    assert!(matches!(codegen_err("extern \"C\" &i32 f();"), Error::ExternCInvalidParameter));
}

#[test]
fn void_values_have_no_item() {
    let src = "void g() {} i32 main() { def void v = g(); def &void r = &v; return 0; }";
    assert!(matches!(codegen_err(src), Error::InvalidIndex));
}

#[test]
fn returning_twice_from_a_void_function_underflows() {
    assert!(matches!(codegen_err("void f() { return; } i32 main() { return 0; }"), Error::StackUnderflow));
}

#[test]
fn variadic_stucker_functions_are_refused() {
    let mut c = Codegen::new();
    c.init().unwrap();
    let f = Function { return_type: ExpressionType::Void, params: vec![], body: None, abi: Abi::Stucker, is_variadic: true };
    assert!(matches!(c.codegen("f".to_string(), GlobalValue::Function(f)), Err(Error::VariadicStuckerFunction)));
}

fn label_number(out: &str, prefix: &str) -> String {
    let at = out.find(prefix).unwrap() + prefix.len();
    out[at..].chars().take_while(|c| c.is_ascii_digit()).collect()
}

#[test]
fn loops_and_branches_have_their_jumps_in_place() {
    let out = compile("i32 main() { while (1) { breakpoint; } return 0; }").unwrap();
    let n = label_number(&out, "\n._while_body_");
    let top = out.find(&format!("\n._while_body_{n}:\n")).unwrap();
    let test = out[top..].find("    cmp rbx, 0\n    je ._while_return_").unwrap() + top;
    let body = out[top..].find("    int3\n").unwrap() + top;
    let back = out[top..].find(&format!("    jmp ._while_body_{n}\n._while_return_{n}:\n")).unwrap() + top;
    assert!(top < test && test < body && body < back);

    let out = compile("i32 main() { if (1) { breakpoint; } else { return 1; } return 0; }").unwrap();
    let n = label_number(&out, "je ._if_false_");
    let other = out.find(&format!("    jmp ._if_return_{n}\n._if_false_{n}:\n")).unwrap();
    let exit = out.find(&format!("._if_return_{n}:\n")).unwrap();
    let then = out.find("    int3\n").unwrap();
    assert!(then < other && other < exit);
}

#[test]
fn return_and_set_copy_through_the_runtime_routine() {
    // `return x` copies x's item into the return slot (item 0) with copy_addr.
    let out = compile("i32 main() { def i32 x = 7; return x; }").unwrap();
    let body = &out[out.find("\n_main:\n").unwrap()..];
    let rsi = body.find("    mov rsi, rsp ; idx2addr (<2>)\n").unwrap();
    let rdi = body.find("    mov rdi, rsp ; idx2addr (<0>)\n").unwrap();
    let jmp = body.find("    jmp copy_addr\n").unwrap();
    assert!(rsi < rdi && rdi < jmp);

    // `set x = y` puts the destination in rdi, the source in rsi, then copies.
    let out = compile("i32 main() { def i32 x = 1; def i32 y = 2; set x = y; return 0; }").unwrap();
    let body = &out[out.find("\n_main:\n").unwrap()..];
    let dest = body.find("    mov rdi, rsp ; idx2addr (<2>)\n").unwrap();
    let src = body.find("    mov rsi, rsp ; idx2addr (<3>)\n").unwrap();
    let jmp = body.find("    jmp copy_addr\n").unwrap();
    assert!(dest < src && src < jmp);
}

#[test]
fn a_call_pushes_its_return_address_then_jumps_and_is_returned_to() {
    let out = compile("void f(i32 a) { return; }\ni32 main() { f(5); return 0; }").unwrap();
    let body = &out[out.find("\n_main:\n").unwrap()..];
    let n = label_number(body, "lea rax, [._call_return_");
    let lea = body.find(&format!("    lea rax, [._call_return_{n}] ; codegen_call (ret)\n")).unwrap();
    let copy = body.find("    mov rsi, rsp ; idx2addr (").unwrap();
    let jmp = body.find(&format!("    jmp _f ; codegen_call (jmp)\n._call_return_{n}:\n")).unwrap();
    assert!(lea < copy && copy < jmp);
}

#[test]
fn statement_errors_name_the_types() {
    assert!(matches!(codegen_err("i32 main() { return 1u8; }"),
        Error::TypeMismatch(a, b) if a.to_string() == "i32" && b.to_string() == "u8"));
    assert!(matches!(codegen_err("i32 main() { def void x; return 0; }"), Error::CannotAllocVoid));
    assert!(matches!(codegen_err("i32 main() { if 1.5 { } return 0; }"),
        Error::ExpectedInteger(t) if t.to_string() == "f64"));
    assert!(matches!(codegen_err("i32 main() { def i32 x = 0; set *x = 1; return 0; }"),
        Error::ExpectedRef(t) if t.to_string() == "i32"));
}

#[test]
fn a_prototype_is_accepted_and_writes_nothing() {
    let mut c = Codegen::new();
    let f = Function {
        return_type: ExpressionType::Void,
        params: vec![(ExpressionType::Number(NumberType::I32), "a".to_string())],
        body: None,
        abi: Abi::Stucker,
        is_variadic: false,
    };
    let before = c.nasm.writer.clone();
    assert!(c.codegen("later".to_string(), GlobalValue::Function(f)).is_ok());
    assert_eq!(c.nasm.writer, before);
}

#[test]
fn output_before_a_codegen_failure_is_kept() {
    let (out, r) = compile_partial("i32 main() { return 0; } i32 f() { return x; }");
    assert!(matches!(r, Err(RunError::Codegen(Error::UnknownSymbol(ref s))) if s == "x"));
    assert!(out.starts_with(HEAD));
    assert!(out.contains("\n_main:\n"));
    assert!(out.contains("\n_f:\n"));
    assert!(!out.contains("section .data"));
}

#[test]
fn output_before_a_parse_failure_is_kept() {
    let (out, r) = compile_partial("i32 main() { return 0; } )");
    assert!(matches!(r, Err(RunError::Parse(ParseError::ExpectedSymbol))));
    assert!(out.starts_with(HEAD));
    assert!(out.contains("\n_main:\n"));
    assert!(!out.contains("section .data"));
}
