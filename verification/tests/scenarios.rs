use stabel::cross_ref::cross_reference;
use stabel::execute::{execute, Outcome, Reply, Request};
use stabel::lex::lex;
use stabel::ops::{Operator, Value};
use stabel::parse::parse;
use stabel::Runtime;

/// Answer an engine request the way the reference embedder would: float
/// work with host floats, input from a canned line.
fn answer(req: Request, input: &str) -> Reply {
    match req {
        Request::ReadLine => Reply::Line(input.to_string()),
        Request::FloatBin(op, a, b) => {
            let x = f32::from_bits(a);
            let y = f32::from_bits(b);
            match op {
                Operator::Add => Reply::Bits((x + y).to_bits()),
                Operator::Sub => Reply::Bits((x - y).to_bits()),
                Operator::Mult => Reply::Bits((x * y).to_bits()),
                Operator::Div => Reply::Pair((x % y).to_bits(), (x / y).to_bits()),
                _ => panic!("unexpected float operator"),
            }
        }
        Request::FloatCmp(op, a, b) => {
            let x = f32::from_bits(a);
            let y = f32::from_bits(b);
            Reply::Truth(match op {
                Operator::Eq => x == y,
                Operator::Lt => x < y,
                Operator::Le => x <= y,
                Operator::Gt => x > y,
                Operator::Ge => x >= y,
                _ => panic!("unexpected comparison"),
            })
        }
        Request::IntToFloat(i) => Reply::Bits((i as f32).to_bits()),
        Request::FloatToInt(b) => Reply::Whole(f32::from_bits(b) as i32),
        Request::StrToFloat(s) => {
            Reply::MaybeBits(s.parse::<f32>().ok().map(|f| f.to_bits()))
        }
        Request::FloatToStr(b) => Reply::Text(f32::from_bits(b).to_string()),
    }
}

/// Run a source text end to end; returns the exit code and everything
/// printed, or the error message and position.
fn run_with_input(src: &str, input: &str) -> Result<(u8, String), (String, (usize, usize))> {
    let lines: Vec<String> = src.lines().map(|s| s.to_string()).collect();
    let path = String::from("prove");
    let toks = lex(&lines, &path);
    let mut ctx = Runtime::new();
    let mut prg = match parse(toks, &mut ctx) {
        Ok(p) => p,
        Err((m, p)) => return Err((m.to_string(), (p.0, p.1))),
    };
    // the embedder's float-literal pass: fill in the bit patterns the
    // verified parser left open
    for ins in prg.iter_mut() {
        if matches!(ins.op, Operator::Literal) && ins.val.is_none() {
            if let Some(name) = &ins.name {
                if let Ok(f) = name.parse::<f32>() {
                    ins.val = Some(Value::Float(f.to_bits()));
                }
            }
        }
    }
    let resolved = match cross_reference(&mut prg, &ctx) {
        Ok(r) => r,
        Err((m, p)) => return Err((m.to_string(), (p.0, p.1))),
    };
    let mut reply: Option<Reply> = None;
    loop {
        match execute(&mut ctx, &resolved, reply.take(), 100_000) {
            Ok(Outcome::Done(c)) => {
                return Ok((c, ctx.out.concat()));
            }
            Ok(Outcome::Paused) => {}
            Ok(Outcome::Suspended(req)) => {
                reply = Some(answer(req, input));
            }
            Err((m, p)) => return Err((m.to_string(), (p.0, p.1))),
        }
    }
}

fn run(src: &str) -> Result<(u8, String), (String, (usize, usize))> {
    run_with_input(src, "")
}

fn output(src: &str) -> String {
    match run(src) {
        Ok((_, out)) => out,
        Err((m, p)) => panic!("run failed: {} at {:?}", m, p),
    }
}

#[test]
fn arithmetic_prints_seven() {
    assert_eq!(output("3 4 + skriv"), "7");
}

#[test]
fn conditional_false_takes_else() {
    assert_eq!(output("usann hvis gjør 1 skriv ellers 2 skriv slutt"), "2");
}

#[test]
fn conditional_true_takes_then() {
    assert_eq!(output("sann hvis gjør 1 skriv ellers 2 skriv slutt"), "1");
}

#[test]
fn chained_branches_are_exclusive() {
    let prog = |x: &str| {
        format!(
            "{} hvis dup 1 = gjør slipp 10 skriv ellvis dup 2 = gjør slipp 20 skriv ellers slipp 30 skriv slutt",
            x
        )
    };
    assert_eq!(output(&prog("1")), "10");
    assert_eq!(output(&prog("2")), "20");
    assert_eq!(output(&prog("3")), "30");
}

#[test]
fn while_loop_runs_body_once_per_true_guard() {
    assert_eq!(output("0 når dup 3 < gjør 1 + slutt skriv"), "3");
}

#[test]
fn div_pushes_remainder_then_quotient() {
    // quotient ends on top, so it prints first
    assert_eq!(output("7 3 / skriv skriv"), "21");
    assert_eq!(output("-7 3 / skriv skriv"), "-2-1");
}

#[test]
fn function_call_doubles() {
    assert_eq!(output("funk dobbel Helt -- Helt inni dup + slutt 5 dobbel skriv"), "10");
}

#[test]
fn function_call_with_float_argument_is_a_type_error() {
    let r = run("funk dobbel Helt -- Helt inni dup + slutt 5.0 dobbel skriv");
    match r {
        Err((m, _)) => assert_eq!(m, "feil argumenter for funksjonen"),
        Ok(x) => panic!("expected a type error, got {:?}", x),
    }
}

#[test]
fn memory_cell_write_read() {
    assert_eq!(output("minne celle Helt 1 slutt celle 42 -> celle @ skriv"), "42");
}

#[test]
fn unterminated_block_is_rejected_at_the_opener() {
    let r = run("hvis 1 skriv");
    match r {
        Err((m, p)) => {
            assert_eq!(m, "ikke stengt blokk");
            assert_eq!(p, (1, 1));
        }
        Ok(x) => panic!("expected a resolution error, got {:?}", x),
    }
}

#[test]
fn let_binding_is_unreachable_after_end() {
    // one end closes the let block, the next the do block
    let r = run("sann hvis gjør 5 let x inni x skriv slutt slutt x skriv");
    match r {
        Err((m, _)) => assert_eq!(m, "ukjent ord"),
        Ok(x) => panic!("expected an unknown-word error, got {:?}", x),
    }
}

#[test]
fn let_binds_in_reverse_declaration_order() {
    // the last-declared name receives the top of the stack
    assert_eq!(output("1 2 let a b inni a skriv b skriv slutt"), "12");
}

#[test]
fn int_string_round_trip() {
    assert_eq!(output("123 Str omgjør Helt omgjør skriv"), "123");
    assert_eq!(output("-45 Str omgjør Helt omgjør skriv"), "-45");
}

#[test]
fn float_string_round_trip() {
    assert_eq!(output("1.5 Str omgjør Flyt omgjør skriv"), "1.5");
}

#[test]
fn float_literals_cover_the_host_grammar() {
    assert_eq!(output("1e2 Helt omgjør skriv"), "100");
    assert_eq!(output("inf skriv"), "inf");
    assert_eq!(output("2. .5 + skriv"), "2.5");
}

#[test]
fn else_after_a_loop_guard_is_rejected_at_the_opener() {
    let r = run("sann når gjør ellers slutt");
    match r {
        Err((m, p)) => {
            assert_eq!(m, "'ellers' kan bare stenge 'hvis-gjor' og 'ellvis-gjor' blokker");
            assert_eq!(p, (1, 10)); // the guard that opened the block
        }
        Ok(x) => panic!("expected a resolution error, got {:?}", x),
    }
}

#[test]
fn printing_uninitialized_cells_as_text_is_an_error() {
    // a character pointer over never-written cells cannot be read as text
    let r = run("minne c Bokst 1 slutt c Str omgjør skriv");
    match r {
        Err((m, _)) => assert_eq!(m, "tekst-verdi kan ikke leses"),
        Ok(x) => panic!("expected an unreadable-text error, got {:?}", x),
    }
}

#[test]
fn float_arithmetic_through_the_embedder() {
    assert_eq!(output("1.5 2.25 + skriv"), "3.75");
    assert_eq!(output("1.5 2.25 + 3.75 = skriv"), "sann");
}

#[test]
fn string_literal_prints() {
    assert_eq!(output("\"hei\" skriv"), "hei");
}

#[test]
fn string_literal_escapes_are_resolved() {
    // the quotes are stripped and the escape becomes a real line break;
    // an unescaper that handed the token back unchanged would keep both
    assert_eq!(output("\"a\\nb\" skriv"), "a\nb");
}

#[test]
fn string_concat() {
    assert_eq!(output("\"hei \" \"verden\" + skriv"), "hei verden");
}

#[test]
fn string_equality_is_by_content() {
    assert_eq!(output("\"abc\" \"abc\" = skriv"), "sann");
    assert_eq!(output("\"abc\" \"abd\" = skriv"), "usann");
}

#[test]
fn type_test_with_type_literal() {
    assert_eq!(output("5 Helt = skriv"), "sann");
    assert_eq!(output("5 Bool = skriv"), "usann");
}

#[test]
fn constant_definition() {
    assert_eq!(output("konst to 1 1 + slutt to to + skriv"), "4");
}

#[test]
fn exit_code_is_returned() {
    let (c, _) = run("7 avslutt 9 skriv").unwrap();
    assert_eq!(c, 7);
}

#[test]
fn exit_code_truncates_to_byte() {
    let (c, _) = run("300 avslutt").unwrap();
    assert_eq!(c, 44);
}

#[test]
fn falling_off_the_end_exits_zero() {
    let (c, _) = run("1 2 +").unwrap();
    assert_eq!(c, 0);
}

#[test]
fn stack_shuffles() {
    assert_eq!(output("1 2 snu skriv skriv"), "12");
    assert_eq!(output("1 2 over skriv skriv skriv"), "121");
    assert_eq!(output("1 2 3 rot skriv skriv skriv"), "132");
    assert_eq!(output("5 dup + skriv"), "10");
    assert_eq!(output("1 2 slipp skriv"), "1");
}

#[test]
fn insufficient_operands_is_an_error() {
    let r = run("+ skriv");
    assert!(r.is_err());
}

#[test]
fn unknown_word_is_an_error() {
    let r = run("ukjentnavn skriv");
    match r {
        Err((m, _)) => assert_eq!(m, "ukjent ord"),
        Ok(x) => panic!("expected an error, got {:?}", x),
    }
}

#[test]
fn println_appends_newline() {
    assert_eq!(output("1 skrivnl 2 skriv"), "1\n2");
}

#[test]
fn input_reads_a_line() {
    let r = run_with_input("spør Helt omgjør 1 + skriv", "41");
    assert_eq!(r.unwrap().1, "42");
}

#[test]
fn input_prints_the_prompt_first() {
    let r = run_with_input("\"tall: \" spør slipp", "x");
    assert_eq!(r.unwrap().1, "tall: ");
}

#[test]
fn pointer_arithmetic_indexes_memory() {
    // two cells; write through an index, read it back
    let src = "minne par Helt 2 slutt par 7 -> par 1 + 9 -> par 1 + @ skriv par @ skriv";
    assert_eq!(output(src), "97");
}

#[test]
fn index_sugar_reads_a_cell() {
    // prefix-form sugar: @[1]par reads the cell one past par
    let src = "minne par Helt 2 slutt par 5 -> par 1 + 6 -> @[1]par skriv @par skriv";
    assert_eq!(output(src), "65");
}

#[test]
fn comments_are_dropped() {
    assert_eq!(output("3 4 + # alt etter brikka forsvinner\nskriv"), "7");
}

#[test]
fn bitwise_and_logical_operators() {
    assert_eq!(output("6 3 og skriv"), "2");
    assert_eq!(output("6 3 eller skriv"), "7");
    assert_eq!(output("sann usann og skriv"), "usann");
    assert_eq!(output("sann ikke skriv"), "usann");
    assert_eq!(output("5 ikke skriv"), "-6");
}

#[test]
fn comparisons() {
    assert_eq!(output("1 2 < skriv"), "sann");
    assert_eq!(output("2 2 <= skriv"), "sann");
    assert_eq!(output("1 2 > skriv"), "usann");
    assert_eq!(output("2 2 >= skriv"), "sann");
}

#[test]
fn debug_renders_the_stack() {
    let (_, out) = run("1 2 feilsøk").unwrap();
    assert_eq!(out, "\nStabel: 1, 2, \n");
}

#[test]
fn while_false_guard_resumes_after_end() {
    assert_eq!(output("0 når dup 0 > gjør 1 - slutt slipp 7 skriv"), "7");
}

#[test]
fn if_without_else_skips_to_end() {
    assert_eq!(output("usann hvis gjør 1 skriv slutt 2 skriv"), "2");
}

#[test]
fn nested_conditionals() {
    assert_eq!(output("sann hvis gjør sann hvis gjør 1 skriv slutt slutt"), "1");
}

#[test]
fn elif_chain_without_else_can_fall_through() {
    let src = "5 hvis dup 1 = gjør 10 skriv ellvis dup 2 = gjør 20 skriv slutt 99 skriv";
    assert_eq!(output(src), "99");
}

#[test]
fn non_bool_guard_is_an_error() {
    let r = run("5 hvis gjør slutt");
    match r {
        Err((m, _)) => assert_eq!(m, "'gjor' tar bare Bool"),
        Ok(x) => panic!("expected a type error, got {:?}", x),
    }
}

#[test]
fn cast_target_must_be_a_type_literal() {
    let r = run("sann 5 omgjør");
    match r {
        Err((m, _)) => assert_eq!(m, "andre argument maa vaere en bokstavelig type"),
        Ok(x) => panic!("expected an error, got {:?}", x),
    }
}

#[test]
fn cast_of_unparseable_text_is_an_error() {
    let r = run("\"abc\" Helt omgjør");
    match r {
        Err((m, _)) => assert_eq!(m, "fikk ikke til aa omgjore til Helt"),
        Ok(x) => panic!("expected an error, got {:?}", x),
    }
}

#[test]
fn read_requires_a_pointer() {
    assert!(run("5 @ skriv").is_err());
}

#[test]
fn write_checks_the_element_type() {
    let r = run("minne c Helt 1 slutt c sann ->");
    match r {
        Err((m, _)) => assert_eq!(m, "verdien har ikke pekerens type"),
        Ok(x) => panic!("expected an error, got {:?}", x),
    }
}

#[test]
fn bool_to_int_and_back() {
    assert_eq!(output("sann Helt omgjør skriv usann Helt omgjør skriv"), "10");
}

#[test]
fn division_by_zero_is_an_error() {
    assert!(run("1 0 / skriv").is_err());
}

#[test]
fn overflow_is_an_error() {
    assert!(run("2147483647 1 + skriv").is_err());
}
