use stabel::cross_ref::cross_reference;
use stabel::lex::lex;
use stabel::ops::{FuncPtr, Instruction, Operator, TypeLiteral, Value};
use stabel::parse::parse;
use stabel::strutil::{int_to_string, parse_int};
use stabel::Runtime;

fn pos() -> (usize, usize, String) {
    (1, 1, String::from("prove"))
}

fn toks(src: &str) -> Vec<(String, (usize, usize, String))> {
    let lines: Vec<String> = src.lines().map(|s| s.to_string()).collect();
    lex(&lines, &String::from("prove"))
}

#[test]
fn int_to_string_matches_host_formatting() {
    for x in [0i32, 7, -7, 12345, i32::MAX, i32::MIN] {
        assert_eq!(int_to_string(x), x.to_string());
    }
}

#[test]
fn parse_int_matches_host_parser() {
    for s in ["0", "7", "-7", "+42", "2147483647", "-2147483648", "2147483648",
        "-2147483649", "", "-", "+", "abc", "1x", " 1", "007"] {
        assert_eq!(parse_int(s), s.parse::<i32>().ok(), "token {:?}", s);
    }
}

#[test]
fn lexer_splits_words_and_keeps_quoted_spaces() {
    let t = toks("en to  \"en to\" tre");
    let words: Vec<&str> = t.iter().map(|(w, _)| w.as_str()).collect();
    assert_eq!(words, ["en", "to", "\"en to\"", "tre"]);
}

#[test]
fn lexer_reports_line_numbers() {
    let t = toks("en\nto");
    assert_eq!(t[0].1 .0, 1);
    assert_eq!(t[1].1 .0, 2);
}

#[test]
fn lexer_drops_comments() {
    let t = toks("en # to tre");
    let words: Vec<&str> = t.iter().map(|(w, _)| w.as_str()).collect();
    // the word being collected when the comment cuts the line is still
    // emitted, here as an empty token (which the parser then drops)
    assert_eq!(words, ["en", ""]);
}

#[test]
fn parser_maps_fixed_tokens() {
    let mut ctx = Runtime::new();
    let p = parse(toks("skriv + hvis slutt"), &mut ctx).unwrap();
    let ops: Vec<Operator> = p.iter().map(|i| i.op).collect();
    assert_eq!(ops, [Operator::Print, Operator::Add, Operator::If, Operator::End]);
}

#[test]
fn parser_maps_literals() {
    let mut ctx = Runtime::new();
    let p = parse(toks("5 sann Helt"), &mut ctx).unwrap();
    assert_eq!(p[0].val, Some(Value::Int(5)));
    assert_eq!(p[1].val, Some(Value::Bool(true)));
    assert_eq!(p[2].val, Some(Value::TypeLiteral(TypeLiteral::Int)));
}

#[test]
fn parser_leaves_float_literals_for_the_embedder() {
    let mut ctx = Runtime::new();
    for tok in ["2.5", "-0.5", "1e3", "2.5E-2", "inf", "NaN", "2147483648"] {
        let p = parse(toks(tok), &mut ctx).unwrap();
        assert_eq!(p[0].op, Operator::Literal, "token {:?}", tok);
        assert_eq!(p[0].val, None, "token {:?}", tok);
        assert_eq!(p[0].name.as_deref(), Some(tok), "token {:?}", tok);
        assert!(tok.parse::<f32>().is_ok(), "token {:?}", tok);
    }
    // not float literals: these stay symbol references
    for tok in ["infx", "e5", "1e", "1.2.3", "."] {
        let p = parse(toks(tok), &mut ctx).unwrap();
        assert_eq!(p[0].op, Operator::Word, "token {:?}", tok);
        assert!(tok.parse::<f32>().is_err(), "token {:?}", tok);
    }
}

#[test]
fn parser_materializes_string_literals() {
    let mut ctx = Runtime::new();
    let p = parse(toks("\"hei\""), &mut ctx).unwrap();
    assert_eq!(p[0].val, Some(Value::Str(0, 3)));
    assert_eq!(ctx.read(0), Some(Value::Char('h')));
    assert_eq!(ctx.read(2), Some(Value::Char('i')));
}

#[test]
fn parser_expands_index_sugar() {
    let mut ctx = Runtime::new();
    // the sugar is prefix-form: read the cell one past `x`
    let p = parse(toks("@[2]x"), &mut ctx).unwrap();
    let ops: Vec<Operator> = p.iter().map(|i| i.op).collect();
    assert_eq!(ops, [Operator::Word, Operator::Literal, Operator::Add, Operator::Read]);
    assert_eq!(p[0].name.as_deref(), Some("x"));
    assert_eq!(p[1].val, Some(Value::Int(2)));
}

#[test]
fn resolver_links_a_loop() {
    let mut ctx = Runtime::new();
    let mut p = parse(toks("når gjør slutt"), &mut ctx).unwrap();
    let r = cross_reference(&mut p, &ctx).unwrap();
    assert_eq!(r[1].arg, Some(2)); // the guard jumps past the end on false
    assert_eq!(r[2].arg, Some(0)); // the end jumps back to the loop head
}

#[test]
fn resolver_links_a_conditional() {
    let mut ctx = Runtime::new();
    let mut p = parse(toks("hvis gjør ellers slutt"), &mut ctx).unwrap();
    let r = cross_reference(&mut p, &ctx).unwrap();
    assert_eq!(r[1].arg, Some(2)); // the guard jumps to the else branch
    assert_eq!(r[2].arg, Some(3)); // the else jumps past the end
}

#[test]
fn resolver_rejects_else_outside_a_guarded_block() {
    let mut ctx = Runtime::new();
    let mut p = parse(toks("når ellers slutt"), &mut ctx).unwrap();
    let r = cross_reference(&mut p, &ctx);
    assert!(r.is_err());
}

#[test]
fn resolver_rejects_else_closing_a_loop() {
    // an else may only close an if/elif guard, never a while guard
    let mut ctx = Runtime::new();
    let mut p = parse(toks("når gjør ellers slutt"), &mut ctx).unwrap();
    let r = cross_reference(&mut p, &ctx);
    assert!(r.is_err());
}

#[test]
fn runtime_stack_basics() {
    let mut ctx = Runtime::new();
    assert_eq!(ctx.pop(), None);
    ctx.push(Value::Int(1));
    ctx.push(Value::Int(2));
    assert_eq!(ctx.peek(), Some(Value::Int(2)));
    assert_eq!(ctx.pop(), Some(Value::Int(2)));
    assert_eq!(ctx.pop(), Some(Value::Int(1)));
}

#[test]
fn runtime_arena_write_read() {
    let mut ctx = Runtime::new();
    let (ptr, len) = ctx.write(&vec![Value::Int(1), Value::Int(2)]);
    assert_eq!((ptr, len), (0, 2));
    assert_eq!(ctx.read(1), Some(Value::Int(2)));
    ctx.over_write(1, &Value::Int(9));
    assert_eq!(ctx.read(1), Some(Value::Int(9)));
    assert_eq!(ctx.read(5), None);
    let data = ctx.read_data(0, 2).unwrap();
    assert_eq!(data, vec![Value::Int(1), Value::Int(9)]);
}

#[test]
fn runtime_read_str_materializes_characters() {
    let mut ctx = Runtime::new();
    let (ptr, len) = ctx.write(&vec![Value::Char('h'), Value::Char('i')]);
    let s = ctx.read_str(&Value::Str(ptr, len)).unwrap();
    assert_eq!(s, "hi");
    assert_eq!(ctx.read_str(&Value::Int(3)), None);
    // a range holding anything but characters cannot be materialized
    let (p2, l2) = ctx.write(&vec![Value::Char('x'), Value::Int(9)]);
    assert_eq!(ctx.read_str(&Value::Str(p2, l2)), None);
    // nor one that leaves the arena
    assert_eq!(ctx.read_str(&Value::Str(0, 99)), None);
}

#[test]
fn runtime_call_checks_parameter_types() {
    let mut ctx = Runtime::new();
    let f = FuncPtr { ptr: 9, params: vec![TypeLiteral::Int], rets: vec![] };
    ctx.push(Value::Bool(true));
    assert_eq!(ctx.call(&f, 0), None); // wrong argument type
    let mut ctx2 = Runtime::new();
    ctx2.push(Value::Int(5));
    assert_eq!(ctx2.call(&f, 3), Some(9));
    assert_eq!(ctx2.peek(), Some(Value::Int(5)));
    assert_eq!(ctx2.return_stack, vec![3]);
}

#[test]
fn runtime_retur_restores_the_caller_stack() {
    let mut ctx = Runtime::new();
    let f = FuncPtr { ptr: 9, params: vec![TypeLiteral::Int], rets: vec![TypeLiteral::Int] };
    ctx.push(Value::Int(1)); // caller value that stays below
    ctx.push(Value::Int(5)); // the argument
    assert_eq!(ctx.call(&f, 3), Some(9));
    ctx.push(Value::Int(10)); // computed result above the argument
    let f2 = FuncPtr { ptr: 9, params: vec![], rets: vec![TypeLiteral::Int] };
    assert_eq!(ctx.retur(&f2), Some(3));
    assert_eq!(ctx.pop(), Some(Value::Int(10)));
    assert_eq!(ctx.pop(), Some(Value::Int(1)));
}

#[test]
fn value_type_test() {
    assert!(Value::Int(1).eq(&TypeLiteral::Int));
    assert!(!Value::Int(1).eq(&TypeLiteral::Bool));
    assert!(Value::Float(0).eq(&TypeLiteral::Float));
    assert!(!Value::Null.eq(&TypeLiteral::Int));
    assert!(!Value::TypeLiteral(TypeLiteral::Int).eq(&TypeLiteral::Int));
}

#[test]
fn value_to_string_renders() {
    let ctx = Runtime::new();
    assert_eq!(Value::Int(-3).to_string(&ctx).as_deref(), Some("-3"));
    assert_eq!(Value::Bool(true).to_string(&ctx).as_deref(), Some("sann"));
    assert_eq!(Value::Byte(0x1f).to_string(&ctx).as_deref(), Some("0x1f"));
    assert_eq!(Value::Char('x').to_string(&ctx).as_deref(), Some("x"));
    assert_eq!(Value::Null.to_string(&ctx).as_deref(), Some("null"));
    assert_eq!(
        Value::Ptr(4, 2, TypeLiteral::Int).to_string(&ctx).as_deref(),
        Some("[Helt; 2] -> 4")
    );
    assert_eq!(Value::Float(0).to_string(&ctx), None);
}

#[test]
fn instruction_new_leaves_target_open() {
    let i = Instruction::new(Operator::Add, None, None, pos());
    assert_eq!(i.op, Operator::Add);
    assert_eq!(i.arg, None);
    let d = i.duplicate();
    assert_eq!(d.op, i.op);
    assert_eq!(d.pos, i.pos);
}
