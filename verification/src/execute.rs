use vstd::prelude::*;
use crate::ops::{FuncPtr, Instruction, Operator, Pos, TypeLiteral, Value};
use crate::Runtime;
use crate::{has_type_at, lookup, swept, str_chars, DefEntry};
use crate::ops::{has_type, text_of, char_values};
use vstd::string::StringExecFns;

verus! {

/// Work the engine cannot do itself and hands to its embedder: reading a
/// line of input, and every computation on floating-point values (the
/// engine only carries their bit patterns).
pub enum Request {
    /// Read one line from standard input.
    ReadLine,
    /// Apply an arithmetic operator to two float bit patterns. For the
    /// division operator the engine expects both remainder and quotient
    /// back (`Reply::Pair`), for the others one result (`Reply::Bits`).
    FloatBin(Operator, u32, u32),
    /// Apply a comparison operator to two float bit patterns
    /// (`Reply::Truth`).
    FloatCmp(Operator, u32, u32),
    /// Convert an integer to float bits (`Reply::Bits`).
    IntToFloat(i32),
    /// Truncate float bits to an integer, saturating (`Reply::Whole`).
    FloatToInt(u32),
    /// Parse a decimal text as a float (`Reply::MaybeBits`).
    StrToFloat(String),
    /// Render float bits as decimal text (`Reply::Text`).
    FloatToStr(u32),
}

/// The embedder's answer to a `Request`.
pub enum Reply {
    Line(String),
    Bits(u32),
    Pair(u32, u32),
    Truth(bool),
    Whole(i32),
    MaybeBits(Option<u32>),
    Text(String),
}

/// How one engine step left the machine: go on with the next instruction,
/// stop with an exit code, or suspend on a request for the embedder (the
/// instruction pointer stays on the suspended instruction; run `execute`
/// again with the reply).
pub enum Flow {
    Next,
    Stop(u8),
    Suspend(Request),
}

/// What a whole run produced: normal or explicit termination with an exit
/// code, or a request the embedder must answer before calling `execute`
/// again.
pub enum Outcome {
    Done(u8),
    Suspended(Request),
    /// The step budget ran out with work left; call `execute` again (with
    /// no reply) to go on.
    Paused,
}

/// A fatal runtime error: message and source position.
pub type RunError = (&'static str, Pos);

/// Definitions, scope depth, function table and both call stacks are
/// unchanged.
pub open spec fn quiet(a: &Runtime, b: &Runtime) -> bool {
    &&& b.def@ == a.def@
    &&& b.current_scope == a.current_scope
    &&& b.funcs@ == a.funcs@
    &&& b.frame_stack@ == a.frame_stack@
    &&& b.return_stack@ == a.return_stack@
}

/// The memory arena is unchanged.
pub open spec fn arena_same(a: &Runtime, b: &Runtime) -> bool {
    b.mem@ == a.mem@ && b.top == a.top
}

/// The whole machine state is unchanged.
pub open spec fn state_same(a: &Runtime, b: &Runtime) -> bool {
    &&& b.stack@ == a.stack@
    &&& arena_same(a, b)
    &&& quiet(a, b)
    &&& b.out@ == a.out@
    &&& b.ip == a.ip
}

/// `s` with its top two values replaced by `r`.
pub open spec fn repl2(s: Seq<Value>, r: Value) -> Seq<Value> {
    s.subrange(0, s.len() - 2).push(r)
}

/// `s` with its top two values replaced by `r1` then `r2` (so `r2` on top).
pub open spec fn repl2b(s: Seq<Value>, r1: Value, r2: Value) -> Seq<Value> {
    s.subrange(0, s.len() - 2).push(r1).push(r2)
}

/// The value pushed first of the top two (below the top).
pub open spec fn arg_a(s: Seq<Value>) -> Value {
    s[s.len() - 2]
}

/// The top of the stack.
pub open spec fn arg_b(s: Seq<Value>) -> Value {
    s.last()
}

/// Truncated division as the host's integers divide (quotient toward
/// zero).
pub open spec fn tdiv(a: int, b: int) -> int {
    if (a >= 0) == (b >= 0) {
        abs_of(a) / abs_of(b)
    } else {
        -(abs_of(a) / abs_of(b))
    }
}

/// Remainder with the dividend's sign, as the host's `%`.
pub open spec fn tmod(a: int, b: int) -> int {
    if a >= 0 {
        abs_of(a) % abs_of(b)
    } else {
        -(abs_of(a) % abs_of(b))
    }
}

pub open spec fn abs_of(a: int) -> int {
    if a >= 0 { a } else { -a }
}

/// The next instruction pointer; in bounds because `i` indexes `prg`.
fn next_ip(prg: &Vec<Instruction>, i: usize) -> (r: usize)
    requires
        i < prg@.len(),
    ensures
        r == i + 1,
{
    let n = prg.len();
    i + 1
}

/// Clone the current instruction's position for an error report.
fn err_at(prg: &Vec<Instruction>, i: usize) -> (r: Pos)
    requires
        i < prg@.len(),
    ensures
        r == prg@[i as int].pos,
{
    (prg[i].pos.0, prg[i].pos.1, prg[i].pos.2.clone())
}

/// The stack shuffles: `dup`, `drop`, `swap`, `over`, `rot`.
pub fn exec_shuffle(ctx: &mut Runtime, prg: &Vec<Instruction>) -> (r: Result<Flow, RunError>)
    requires
        old(ctx).ip < prg@.len(),
        prg@[old(ctx).ip as int].op == Operator::Dup
            || prg@[old(ctx).ip as int].op == Operator::Drop
            || prg@[old(ctx).ip as int].op == Operator::Swap
            || prg@[old(ctx).ip as int].op == Operator::Over
            || prg@[old(ctx).ip as int].op == Operator::Rot,
    ensures
        shuffle_spec(*old(ctx), prg@, *final(ctx), r),
        (r matches Err(_)) == (match prg@[old(ctx).ip as int].op {
            Operator::Dup | Operator::Drop => old(ctx).stack@.len() < 1,
            Operator::Swap | Operator::Over => old(ctx).stack@.len() < 2,
            Operator::Rot => old(ctx).stack@.len() < 3,
            _ => false,
        }),
{
    let i = ctx.ip;
    let n = ctx.stack.len();
    match prg[i].op {
        Operator::Dup => {
            if n < 1 {
                return Err(("'dup' operator krever minst 1 argument", err_at(prg, i)));
            }
            let b = ctx.stack[n - 1];
            ctx.stack.push(b);
        }
        Operator::Drop => {
            if n < 1 {
                return Err(("'slipp' operator krever minst 1 argument", err_at(prg, i)));
            }
            ctx.stack.pop();
        }
        Operator::Swap => {
            if n < 2 {
                return Err(("'snu' operator krever minst 2 argumenter", err_at(prg, i)));
            }
            let b = ctx.stack[n - 1];
            let a = ctx.stack[n - 2];
            ctx.stack.truncate(n - 2);
            ctx.stack.push(b);
            ctx.stack.push(a);
        }
        Operator::Over => {
            if n < 2 {
                return Err(("'over' operator krever minst 2 argumenter", err_at(prg, i)));
            }
            let b = ctx.stack[n - 1];
            let a = ctx.stack[n - 2];
            ctx.stack.truncate(n - 2);
            ctx.stack.push(a);
            ctx.stack.push(b);
            ctx.stack.push(a);
        }
        _ => {
            if n < 3 {
                return Err(("'rot' operator krever minst 3 argumenter", err_at(prg, i)));
            }
            let c = ctx.stack[n - 1];
            let b = ctx.stack[n - 2];
            let a = ctx.stack[n - 3];
            ctx.stack.truncate(n - 3);
            ctx.stack.push(b);
            ctx.stack.push(c);
            ctx.stack.push(a);
        }
    }
    ctx.ip = next_ip(prg, i);
    Ok(Flow::Next)
}

/// Replace the top two stack values by one result and advance.
fn pop2_push(ctx: &mut Runtime, prg: &Vec<Instruction>, r: Value)
    requires
        old(ctx).stack@.len() >= 2,
        old(ctx).ip < prg@.len(),
    ensures
        final(ctx).stack@ == repl2(old(ctx).stack@, r),
        arena_same(old(ctx), final(ctx)),
        quiet(old(ctx), final(ctx)),
        final(ctx).out@ == old(ctx).out@,
        final(ctx).ip == old(ctx).ip + 1,
{
    let n = ctx.stack.len();
    ctx.stack.truncate(n - 2);
    ctx.stack.push(r);
    ctx.ip = next_ip(prg, ctx.ip);
}

/// Replace the top two stack values by two results (`r2` ends on top) and
/// advance.
fn pop2_push2(ctx: &mut Runtime, prg: &Vec<Instruction>, r1: Value, r2: Value)
    requires
        old(ctx).stack@.len() >= 2,
        old(ctx).ip < prg@.len(),
    ensures
        final(ctx).stack@ == repl2b(old(ctx).stack@, r1, r2),
        arena_same(old(ctx), final(ctx)),
        quiet(old(ctx), final(ctx)),
        final(ctx).out@ == old(ctx).out@,
        final(ctx).ip == old(ctx).ip + 1,
{
    let n = ctx.stack.len();
    ctx.stack.truncate(n - 2);
    ctx.stack.push(r1);
    ctx.stack.push(r2);
    ctx.ip = next_ip(prg, ctx.ip);
}

/// Boolean negation, or bitwise complement of an integer or byte.
pub fn exec_not(ctx: &mut Runtime, prg: &Vec<Instruction>) -> (r: Result<Flow, RunError>)
    requires
        old(ctx).ip < prg@.len(),
        prg@[old(ctx).ip as int].op == Operator::Not,
    ensures
        not_spec(*old(ctx), prg@, *final(ctx), r),
        (r matches Err(_)) == (old(ctx).stack@.len() < 1 || !(match old(ctx).stack@.last() {
            Value::Bool(_) | Value::Int(_) | Value::Byte(_) => true,
            _ => false,
        })),
{
    let i = ctx.ip;
    let n = ctx.stack.len();
    if n < 1 {
        return Err(("'ikke' operator krever minst 1 argument", err_at(prg, i)));
    }
    let b = ctx.stack[n - 1];
    let res = match b {
        Value::Bool(x) => Value::Bool(!x),
        Value::Int(x) => Value::Int(-1 - x),
        Value::Byte(x) => Value::Byte(255 - x),
        _ => {
            return Err(("'ikke' er ikke stottet for denne operanden", err_at(prg, i)));
        }
    };
    ctx.stack.truncate(n - 1);
    ctx.stack.push(res);
    ctx.ip = next_ip(prg, i);
    Ok(Flow::Next)
}

/// `and`/`or`: logical on booleans, bitwise on integers and bytes.
pub fn exec_logic(ctx: &mut Runtime, prg: &Vec<Instruction>) -> (r: Result<Flow, RunError>)
    requires
        old(ctx).ip < prg@.len(),
        prg@[old(ctx).ip as int].op == Operator::And
            || prg@[old(ctx).ip as int].op == Operator::Or,
    ensures
        logic_spec(*old(ctx), prg@, *final(ctx), r),
        (r matches Err(_)) == (old(ctx).stack@.len() < 2
            || !(match (arg_a(old(ctx).stack@), arg_b(old(ctx).stack@)) {
                (Value::Bool(_), Value::Bool(_)) => true,
                (Value::Int(_), Value::Int(_)) => true,
                (Value::Byte(_), Value::Byte(_)) => true,
                _ => false,
            })),
{
    let i = ctx.ip;
    let n = ctx.stack.len();
    let conj = match prg[i].op {
        Operator::And => true,
        _ => false,
    };
    if n < 2 {
        if conj {
            return Err(("'og' operator krever minst 2 argumenter av samme type", err_at(prg, i)));
        }
        return Err(("'eller' operator krever minst 2 argumenter av samme type", err_at(prg, i)));
    }
    let a = ctx.stack[n - 2];
    let b = ctx.stack[n - 1];
    let res = match (a, b) {
        (Value::Bool(x), Value::Bool(y)) => Value::Bool(if conj { x && y } else { x || y }),
        (Value::Int(x), Value::Int(y)) => Value::Int(if conj { x & y } else { x | y }),
        (Value::Byte(x), Value::Byte(y)) => Value::Byte(if conj { x & y } else { x | y }),
        _ => {
            if conj {
                return Err(("'og' er ikke stottet for disse operandene", err_at(prg, i)));
            }
            return Err(("'eller' er ikke stottet for disse operandene", err_at(prg, i)));
        }
    };
    pop2_push(ctx, prg, res);
    Ok(Flow::Next)
}

/// What an ordering comparison yields on two like operands, by each
/// value's natural order (booleans order false before true).
pub open spec fn cmp_bool(op: Operator, lt: bool, eq: bool) -> bool {
    if op == Operator::Lt {
        lt
    } else if op == Operator::Le {
        lt || eq
    } else if op == Operator::Gt {
        !(lt || eq)
    } else {
        !lt
    }
}

/// The ordering comparisons `<`, `<=`, `>`, `>=` on booleans, integers,
/// bytes; on floats the engine suspends and the embedder compares.
pub fn exec_compare(ctx: &mut Runtime, prg: &Vec<Instruction>, pending: &mut Option<Reply>)
    -> (r: Result<Flow, RunError>)
    requires
        old(ctx).ip < prg@.len(),
        prg@[old(ctx).ip as int].op == Operator::Lt
            || prg@[old(ctx).ip as int].op == Operator::Le
            || prg@[old(ctx).ip as int].op == Operator::Gt
            || prg@[old(ctx).ip as int].op == Operator::Ge,
    ensures
        compare_spec(*old(ctx), *old(pending), prg@, *final(ctx), *final(pending), r),
        (r matches Err(_)) == (old(ctx).stack@.len() < 2
            || !(match (arg_a(old(ctx).stack@), arg_b(old(ctx).stack@)) {
                (Value::Bool(_), Value::Bool(_)) => true,
                (Value::Int(_), Value::Int(_)) => true,
                (Value::Byte(_), Value::Byte(_)) => true,
                (Value::Float(_), Value::Float(_)) => true,
                _ => false,
            })),
{
    let i = ctx.ip;
    let n = ctx.stack.len();
    let op = prg[i].op;
    if n < 2 {
        return Err(("sammenlikning krever minst 2 argumenter av samme type", err_at(prg, i)));
    }
    let a = ctx.stack[n - 2];
    let b = ctx.stack[n - 1];
    let res: bool = match (a, b) {
        (Value::Bool(x), Value::Bool(y)) => cmp_exec(op, !x && y, x == y),
        (Value::Int(x), Value::Int(y)) => cmp_exec(op, x < y, x == y),
        (Value::Byte(x), Value::Byte(y)) => cmp_exec(op, x < y, x == y),
        (Value::Float(x), Value::Float(y)) => {
            let mut got: Option<Reply> = None;
            core::mem::swap(pending, &mut got);
            match got {
                Some(Reply::Truth(z)) => z,
                _ => {
                    return Ok(Flow::Suspend(Request::FloatCmp(op, x, y)));
                }
            }
        }
        _ => {
            return Err(("sammenlikning er ikke stottet for disse operandene", err_at(prg, i)));
        }
    };
    pop2_push(ctx, prg, Value::Bool(res));
    Ok(Flow::Next)
}

/// The comparison `op` from "strictly less" and "equal".
fn cmp_exec(op: Operator, lt: bool, eq: bool) -> (r: bool)
    requires
        op == Operator::Lt || op == Operator::Le || op == Operator::Gt || op == Operator::Ge,
    ensures
        r == cmp_bool(op, lt, eq),
{
    match op {
        Operator::Lt => lt,
        Operator::Le => lt || eq,
        Operator::Gt => !(lt || eq),
        _ => !lt,
    }
}

/// Equality: by value on like scalar pairs, by materialized content on
/// strings, and a polymorphic type test when the right operand is a type
/// literal. Floats are compared by the embedder.
pub fn exec_eq(ctx: &mut Runtime, prg: &Vec<Instruction>, pending: &mut Option<Reply>)
    -> (r: Result<Flow, RunError>)
    requires
        old(ctx).ip < prg@.len(),
        prg@[old(ctx).ip as int].op == Operator::Eq,
        old(ctx).wf(),
    ensures
        final(ctx).wf(),
        eq_spec(*old(ctx), *old(pending), prg@, *final(ctx), *final(pending), r),
        (r matches Err(_)) == (old(ctx).stack@.len() < 2
            || (match (arg_a(old(ctx).stack@), arg_b(old(ctx).stack@)) {
                (Value::Bool(_), Value::Bool(_)) => false,
                (Value::Int(_), Value::Int(_)) => false,
                (Value::Byte(_), Value::Byte(_)) => false,
                (Value::Float(_), Value::Float(_)) => false,
                (Value::Str(p1, l1), Value::Str(p2, l2)) => p1 + l1 > old(ctx).mem@.len()
                    || p2 + l2 > old(ctx).mem@.len()
                    || !crate::all_chars(old(ctx).mem@, p1 as int, l1 as int)
                    || !crate::all_chars(old(ctx).mem@, p2 as int, l2 as int),
                (Value::Char(_), Value::Char(_)) => false,
                (_, Value::TypeLiteral(_)) => false,
                _ => true,
            })),
{
    let i = ctx.ip;
    let n = ctx.stack.len();
    if n < 2 {
        return Err(("'=' operator krever minst 2 argumenter av samme type", err_at(prg, i)));
    }
    let a = ctx.stack[n - 2];
    let b = ctx.stack[n - 1];
    let res: bool = match (a, b) {
        (Value::Bool(x), Value::Bool(y)) => x == y,
        (Value::Int(x), Value::Int(y)) => x == y,
        (Value::Byte(x), Value::Byte(y)) => x == y,
        (Value::Float(x), Value::Float(y)) => {
            let mut got: Option<Reply> = None;
            core::mem::swap(pending, &mut got);
            match got {
                Some(Reply::Truth(z)) => z,
                _ => {
                    return Ok(Flow::Suspend(Request::FloatCmp(Operator::Eq, x, y)));
                }
            }
        }
        (Value::Str(p1, l1), Value::Str(p2, l2)) => {
            let s1 = match ctx.read_str(&a) {
                Some(s) => s,
                None => {
                    return Err(("tekst-verdi kan ikke leses", err_at(prg, i)));
                }
            };
            let s2 = match ctx.read_str(&b) {
                Some(s) => s,
                None => {
                    return Err(("tekst-verdi kan ikke leses", err_at(prg, i)));
                }
            };
            s1.eq(&s2)
        }
        (Value::Char(x), Value::Char(y)) => x == y,
        (x, Value::TypeLiteral(t)) => x.eq(&t),
        _ => {
            return Err(("'=' er ikke stottet for disse operandene", err_at(prg, i)));
        }
    };
    pop2_push(ctx, prg, Value::Bool(res));
    Ok(Flow::Next)
}

/// Whether an integer value fits a 32-bit signed integer.
pub open spec fn in_i32(v: int) -> bool {
    i32::MIN <= v <= i32::MAX
}

/// Whether an integer value is a valid arena address.
pub open spec fn in_usize(v: int) -> bool {
    0 <= v <= usize::MAX
}

/// When an arithmetic operator must report an error: too few operands, an
/// unsupported operand pair, overflow, division by zero, a pointer shifted
/// out of the address range, or string operands that cannot be read back
/// and re-encoded.
pub open spec fn arith_fails(op: Operator, s: Seq<Value>, m: Seq<Value>) -> bool {
    if s.len() < 2 {
        true
    } else {
        match (arg_a(s), arg_b(s)) {
            (Value::Int(x), Value::Int(y)) =>
                if op == Operator::Add { !in_i32(x + y) }
                else if op == Operator::Sub { !in_i32(x - y) }
                else if op == Operator::Mult { !in_i32(x * y) }
                else { y == 0 || (x == i32::MIN && y == -1) },
            (Value::Byte(x), Value::Byte(y)) =>
                if op == Operator::Add { x + y > 255 }
                else if op == Operator::Sub { x < y }
                else if op == Operator::Mult { x * y > 255 }
                else { y == 0 },
            (Value::Float(_), Value::Float(_)) => false,
            (Value::Ptr(p, l, t), Value::Int(y)) =>
                if op == Operator::Add { !in_usize(p + y) }
                else if op == Operator::Sub { !in_usize(p - y) }
                else { true },
            (Value::Int(y), Value::Ptr(p, l, t)) =>
                if op == Operator::Add { !in_usize(p + y) }
                else if op == Operator::Sub { !in_usize(p - y) }
                else { true },
            (Value::Str(p1, l1), Value::Str(p2, l2)) =>
                op != Operator::Add || p1 + l1 > m.len() || p2 + l2 > m.len()
                    || !crate::all_chars(m, p1 as int, l1 as int)
                    || !crate::all_chars(m, p2 as int, l2 as int)
                    || crate::parse::unescape_of(
                        str_chars(m, p1 as int, l1 as int) + str_chars(m, p2 as int, l2 as int))
                        is None,
            (Value::Str(p1, l1), Value::Char(c)) =>
                op != Operator::Add || p1 + l1 > m.len()
                    || !crate::all_chars(m, p1 as int, l1 as int)
                    || crate::parse::unescape_of(str_chars(m, p1 as int, l1 as int).push(c))
                        is None,
            _ => true,
        }
    }
}

/// The arithmetic operators. `add`/`sub`/`mult`/`div` act on like scalar
/// pairs; `add`/`sub` also shift pointers by integers, and `add`
/// concatenates strings (re-encoding the joined text into fresh arena
/// cells). `div` pushes remainder then quotient. Floats go to the
/// embedder.
pub fn exec_arith(ctx: &mut Runtime, prg: &Vec<Instruction>, pending: &mut Option<Reply>)
    -> (r: Result<Flow, RunError>)
    requires
        old(ctx).ip < prg@.len(),
        old(ctx).wf(),
        prg@[old(ctx).ip as int].op == Operator::Add
            || prg@[old(ctx).ip as int].op == Operator::Sub
            || prg@[old(ctx).ip as int].op == Operator::Mult
            || prg@[old(ctx).ip as int].op == Operator::Div,
    ensures
        final(ctx).wf(),
        (r matches Err(_)) == arith_fails(
            prg@[old(ctx).ip as int].op, old(ctx).stack@, old(ctx).mem@),
        arith_spec(*old(ctx), *old(pending), prg@, *final(ctx), *final(pending), r),
{
    let i = ctx.ip;
    let op = prg[i].op;
    let n = ctx.stack.len();
    if n < 2 {
        let m = match op {
            Operator::Add => "'+' operator krever minst 2 argumenter av samme type",
            Operator::Sub => "'-' operator krever minst 2 argumenter av samme type",
            Operator::Mult => "'*' operator krever minst 2 argumenter av samme type",
            _ => "'/' operator krever minst 2 argumenter av samme type",
        };
        return Err((m, err_at(prg, i)));
    }
    let a = ctx.stack[n - 2];
    let b = ctx.stack[n - 1];
    match (a, b) {
        (Value::Int(x), Value::Int(y)) => {
            match op {
                Operator::Add | Operator::Sub | Operator::Mult => {
                    proof {
                        assert(-0x4000_0000_0000_0000int <= (x as int) * (y as int)
                            <= 0x4000_0000_0000_0000int) by (nonlinear_arith)
                            requires
                                -0x8000_0000int <= x as int <= 0x7FFF_FFFFint,
                                -0x8000_0000int <= y as int <= 0x7FFF_FFFFint;
                    }
                    let v: i64 = match op {
                        Operator::Add => x as i64 + y as i64,
                        Operator::Sub => x as i64 - y as i64,
                        _ => x as i64 * y as i64,
                    };
                    if v < i32::MIN as i64 || v > i32::MAX as i64 {
                        return Err(("aritmetisk overflyt", err_at(prg, i)));
                    }
                    pop2_push(ctx, prg, Value::Int(v as i32));
                    Ok(Flow::Next)
                }
                _ => {
                    if y == 0 {
                        return Err(("divisjon med null", err_at(prg, i)));
                    }
                    if x == i32::MIN && y == -1 {
                        return Err(("aritmetisk overflyt", err_at(prg, i)));
                    }
                    let ax: u32 = if x < 0 { (-(x as i64)) as u32 } else { x as u32 };
                    let ay: u32 = if y < 0 { (-(y as i64)) as u32 } else { y as u32 };
                    let qm: u32 = ax / ay;
                    let rm: u32 = ax % ay;
                    proof {
                        assert((ax as int) / (ay as int) <= (ax as int)) by (nonlinear_arith)
                            requires 1 <= ay as int, 0 <= ax as int;
                        assert((ax as int) % (ay as int) < (ay as int)) by (nonlinear_arith)
                            requires 1 <= ay as int, 0 <= ax as int;
                        if (x < 0) == (y < 0) && ay >= 2 {
                            assert((ax as int) / (ay as int) <= (ax as int) / 2) by (nonlinear_arith)
                                requires 2 <= ay as int, 0 <= ax as int;
                            assert((ax as int) / 2 <= 0x8000_0000int / 2) by (nonlinear_arith)
                                requires ax as int <= 0x8000_0000int;
                        }
                    }
                    let quot: i32 = if (x < 0) == (y < 0) {
                        qm as i32
                    } else {
                        (-(qm as i64)) as i32
                    };
                    let rem: i32 = if x >= 0 {
                        rm as i32
                    } else {
                        (-(rm as i64)) as i32
                    };
                    pop2_push2(ctx, prg, Value::Int(rem), Value::Int(quot));
                    Ok(Flow::Next)
                }
            }
        }
        (Value::Byte(x), Value::Byte(y)) => {
            match op {
                Operator::Add | Operator::Sub | Operator::Mult => {
                    proof {
                        assert(0 <= (x as int) * (y as int) <= 65025) by (nonlinear_arith)
                            requires
                                0 <= x as int <= 255,
                                0 <= y as int <= 255;
                    }
                    let v: i32 = match op {
                        Operator::Add => x as i32 + y as i32,
                        Operator::Sub => x as i32 - y as i32,
                        _ => x as i32 * y as i32,
                    };
                    if v < 0 || v > 255 {
                        return Err(("aritmetisk overflyt", err_at(prg, i)));
                    }
                    pop2_push(ctx, prg, Value::Byte(v as u8));
                    Ok(Flow::Next)
                }
                _ => {
                    if y == 0 {
                        return Err(("divisjon med null", err_at(prg, i)));
                    }
                    pop2_push2(ctx, prg, Value::Byte(x % y), Value::Byte(x / y));
                    Ok(Flow::Next)
                }
            }
        }
        (Value::Float(x), Value::Float(y)) => {
            let mut got: Option<Reply> = None;
            core::mem::swap(pending, &mut got);
            match op {
                Operator::Div => {
                    match got {
                        Some(Reply::Pair(z1, z2)) => {
                            pop2_push2(ctx, prg, Value::Float(z1), Value::Float(z2));
                            Ok(Flow::Next)
                        }
                        _ => Ok(Flow::Suspend(Request::FloatBin(op, x, y))),
                    }
                }
                _ => {
                    match got {
                        Some(Reply::Bits(z)) => {
                            pop2_push(ctx, prg, Value::Float(z));
                            Ok(Flow::Next)
                        }
                        _ => Ok(Flow::Suspend(Request::FloatBin(op, x, y))),
                    }
                }
            }
        }
        (Value::Ptr(p, l, t), Value::Int(y)) => {
            match ptr_shift(p, y, op) {
                Ok(np) => {
                    pop2_push(ctx, prg, Value::Ptr(np, l, t));
                    Ok(Flow::Next)
                }
                Err(m) => Err((m, err_at(prg, i))),
            }
        }
        (Value::Int(y), Value::Ptr(p, l, t)) => {
            match ptr_shift(p, y, op) {
                Ok(np) => {
                    pop2_push(ctx, prg, Value::Ptr(np, l, t));
                    Ok(Flow::Next)
                }
                Err(m) => Err((m, err_at(prg, i))),
            }
        }
        (Value::Str(p1, l1), Value::Str(p2, l2)) => {
            if !matches!(op, Operator::Add) {
                return Err(("operatoren er ikke stottet for disse operandene", err_at(prg, i)));
            }
            let s1 = match ctx.read_str(&Value::Str(p1, l1)) {
                Some(s) => s,
                None => {
                    return Err(("tekst-verdi kan ikke leses", err_at(prg, i)));
                }
            };
            let s2 = match ctx.read_str(&Value::Str(p2, l2)) {
                Some(s) => s,
                None => {
                    return Err(("tekst-verdi kan ikke leses", err_at(prg, i)));
                }
            };
            let joined = s1.concat(s2.as_str());
            concat_commit(ctx, prg, joined)
        }
        (Value::Str(p1, l1), Value::Char(c)) => {
            if !matches!(op, Operator::Add) {
                return Err(("operatoren er ikke stottet for disse operandene", err_at(prg, i)));
            }
            let mut s1 = match ctx.read_str(&Value::Str(p1, l1)) {
                Some(s) => s,
                None => {
                    return Err(("tekst-verdi kan ikke leses", err_at(prg, i)));
                }
            };
            crate::strutil::push_char(&mut s1, c);
            concat_commit(ctx, prg, s1)
        }
        _ => {
            let m = match op {
                Operator::Add => "'+' er ikke stottet for disse operandene",
                Operator::Sub => "'-' er ikke stottet for disse operandene",
                Operator::Mult => "'*' er ikke stottet for disse operandene",
                _ => "'/' er ikke stottet for disse operandene",
            };
            Err((m, err_at(prg, i)))
        }
    }
}

/// Shift a pointer by an integer, for `add` and `sub`; an error where the
/// result leaves the address range or the operator is not one of the two.
fn ptr_shift(p: usize, y: i32, op: Operator) -> (r: Result<usize, &'static str>)
    ensures
        (match r {
            Ok(np) => (op == Operator::Add && in_usize(p + y) && np == p + y)
                || (op == Operator::Sub && in_usize(p - y) && np == p - y),
            Err(_) => (op == Operator::Add && !in_usize(p + y))
                || (op == Operator::Sub && !in_usize(p - y))
                || (op != Operator::Add && op != Operator::Sub),
        }),
{
    let add = match op {
        Operator::Add => true,
        Operator::Sub => false,
        _ => {
            return Err("operatoren er ikke stottet for disse operandene");
        }
    };
    let up = if add { y >= 0 } else { y < 0 };
    let yy: usize = if y >= 0 {
        y as usize
    } else {
        (-(y as i64)) as usize
    };
    if up {
        if usize::MAX - yy < p {
            return Err("peker utenfor adresserommet");
        }
        Ok(p + yy)
    } else {
        if p < yy {
            return Err("peker utenfor adresserommet");
        }
        Ok(p - yy)
    }
}

/// Re-encode a joined text into fresh arena cells and leave a new string
/// value in place of the two operands.
fn concat_commit(ctx: &mut Runtime, prg: &Vec<Instruction>, joined: String)
    -> (r: Result<Flow, RunError>)
    requires
        old(ctx).wf(),
        old(ctx).ip < prg@.len(),
        old(ctx).stack@.len() >= 2,
    ensures
        final(ctx).wf(),
        (match r {
            Err(e) => state_same(old(ctx), final(ctx)) && e.1 == prg@[old(ctx).ip as int].pos
                && crate::parse::unescape_of(joined@) is None,
            Ok(f) => f is Next
                && quiet(old(ctx), final(ctx))
                && final(ctx).out@ == old(ctx).out@
                && final(ctx).ip == old(ctx).ip + 1
                && (match crate::parse::unescape_of(joined@) {
                    Some(cs) => final(ctx).mem@ == old(ctx).mem@ + crate::ops::char_values(cs)
                        && final(ctx).top == old(ctx).top + cs.len()
                        && final(ctx).stack@ == repl2(old(ctx).stack@,
                            Value::Str(old(ctx).top, cs.len() as usize)),
                    None => false,
                }),
        }),
{
    let i = ctx.ip;
    let vals = match crate::parse::parse_char(joined.as_str()) {
        Some(v) => v,
        None => {
            return Err(("ugyldig tekst", err_at(prg, i)));
        }
    };
    proof {
        if let Some(cs) = crate::parse::unescape_of(joined@) {
            crate::ops::lemma_char_values_len(cs);
        }
    }
    let res = ctx.write(&vals);
    pop2_push(ctx, prg, Value::Str(res.0, res.1));
    Ok(Flow::Next)
}

/// A literal pushes its embedded value.
pub fn exec_literal(ctx: &mut Runtime, prg: &Vec<Instruction>) -> (r: Result<Flow, RunError>)
    requires
        old(ctx).ip < prg@.len(),
        prg@[old(ctx).ip as int].op == Operator::Literal,
    ensures
        literal_spec(*old(ctx), prg@, *final(ctx), r),
{
    let i = ctx.ip;
    match prg[i].val {
        Some(v) => {
            ctx.stack.push(v);
            ctx.ip = next_ip(prg, i);
            Ok(Flow::Next)
        }
        None => Err(("verdi-instruksjon uten verdi", err_at(prg, i))),
    }
}

/// The operators that do nothing when met in the instruction stream:
/// `if`, `while`, `in` and the signature separator.
pub fn exec_nop(ctx: &mut Runtime, prg: &Vec<Instruction>) -> (r: Result<Flow, RunError>)
    requires
        old(ctx).ip < prg@.len(),
    ensures
        nop_spec(*old(ctx), prg@, *final(ctx), r),
{
    ctx.ip = next_ip(prg, ctx.ip);
    Ok(Flow::Next)
}

/// `do` pops its boolean guard: true falls through into the block (one
/// scope deeper); false jumps past the block's resolved target, entering
/// the scope only when that target is an `else` branch.
pub fn exec_do(ctx: &mut Runtime, prg: &Vec<Instruction>) -> (r: Result<Flow, RunError>)
    requires
        old(ctx).ip < prg@.len(),
        prg@[old(ctx).ip as int].op == Operator::Do,
    ensures
        do_spec(*old(ctx), prg@, *final(ctx), r),
        (r matches Err(_)) == (old(ctx).stack@.len() < 1
            || !(old(ctx).stack@.last() is Bool)
            || old(ctx).current_scope == usize::MAX
            || (old(ctx).stack@.last() == Value::Bool(false)
                && (match prg@[old(ctx).ip as int].arg {
                    Some(t) => t >= prg@.len(),
                    None => true,
                }))),
{
    let i = ctx.ip;
    let n = ctx.stack.len();
    if n < 1 {
        return Err(("'gjor' operator krever minst 1 argument", err_at(prg, i)));
    }
    if ctx.current_scope == usize::MAX {
        return Err(("for dypt nostet", err_at(prg, i)));
    }
    let con = ctx.stack[n - 1];
    match con {
        Value::Bool(x) => {
            if x {
                ctx.stack.pop();
                ctx.current_scope = ctx.current_scope + 1;
                ctx.ip = next_ip(prg, i);
                Ok(Flow::Next)
            } else {
                let t = match prg[i].arg {
                    Some(t) => t,
                    None => {
                        return Err(("blokk uten oppslag", err_at(prg, i)));
                    }
                };
                if t >= prg.len() {
                    return Err(("blokk uten oppslag", err_at(prg, i)));
                }
                ctx.stack.pop();
                if prg[t].op == Operator::Else {
                    ctx.current_scope = ctx.current_scope + 1;
                }
                ctx.ip = next_ip(prg, t);
                Ok(Flow::Next)
            }
        }
        _ => Err(("'gjor' tar bare Bool", err_at(prg, i))),
    }
}

/// `else`/`elif`, met by falling off the end of the branch before them:
/// tear down this scope's definitions, leave the scope, and jump past the
/// chain's end. Without a resolved target the instruction does nothing.
pub fn exec_else(ctx: &mut Runtime, prg: &Vec<Instruction>) -> (r: Result<Flow, RunError>)
    requires
        old(ctx).ip < prg@.len(),
        prg@[old(ctx).ip as int].op == Operator::Else
            || prg@[old(ctx).ip as int].op == Operator::Elif,
    ensures
        else_spec(*old(ctx), prg@, *final(ctx), r),
        (r matches Err(_)) == (match prg@[old(ctx).ip as int].arg {
            Some(t) => t >= prg@.len() || old(ctx).current_scope == 0,
            None => false,
        }),
{
    let i = ctx.ip;
    match prg[i].arg {
        Some(t) => {
            if t >= prg.len() {
                return Err(("blokk uten oppslag", err_at(prg, i)));
            }
            if ctx.current_scope == 0 {
                return Err(("blokk-slutt utenfor blokk", err_at(prg, i)));
            }
            let d = ctx.current_scope;
            ctx.sweep(d);
            ctx.current_scope = d - 1;
            ctx.ip = next_ip(prg, t);
            Ok(Flow::Next)
        }
        None => {
            ctx.ip = next_ip(prg, i);
            Ok(Flow::Next)
        }
    }
}

/// `read` pops a pointer and pushes the arena cell at its address.
pub fn exec_read(ctx: &mut Runtime, prg: &Vec<Instruction>) -> (r: Result<Flow, RunError>)
    requires
        old(ctx).ip < prg@.len(),
        prg@[old(ctx).ip as int].op == Operator::Read,
    ensures
        read_spec(*old(ctx), prg@, *final(ctx), r),
        (r matches Err(_)) == (old(ctx).stack@.len() < 1
            || (match old(ctx).stack@.last() {
                Value::Ptr(p, l, t) => p >= old(ctx).mem@.len(),
                _ => true,
            })),
{
    let i = ctx.ip;
    let n = ctx.stack.len();
    if n < 1 {
        return Err(("',' operator krever minst 1 argument", err_at(prg, i)));
    }
    match ctx.stack[n - 1] {
        Value::Ptr(p, l, t) => {
            let val = match ctx.read(p) {
                Some(v) => v,
                None => {
                    return Err(("kan ikke lese utenfor minnet", err_at(prg, i)));
                }
            };
            ctx.stack.pop();
            ctx.stack.push(val);
            ctx.ip = next_ip(prg, i);
            Ok(Flow::Next)
        }
        _ => Err(("kan ikke lese fra denne adressen", err_at(prg, i))),
    }
}

/// `write` pops a value then a pointer below it, checks the value carries
/// the pointer's element type, and overwrites the cell at its address.
pub fn exec_write(ctx: &mut Runtime, prg: &Vec<Instruction>) -> (r: Result<Flow, RunError>)
    requires
        old(ctx).ip < prg@.len(),
        prg@[old(ctx).ip as int].op == Operator::Write,
    ensures
        write_spec(*old(ctx), prg@, *final(ctx), r),
        (r matches Err(_)) == (old(ctx).stack@.len() < 2
            || (match arg_a(old(ctx).stack@) {
                Value::Ptr(p, l, t) => !has_type(arg_b(old(ctx).stack@), t)
                    || p >= old(ctx).mem@.len(),
                _ => true,
            })),
{
    let i = ctx.ip;
    let n = ctx.stack.len();
    if n < 2 {
        return Err(("'.' operator krever minst 2 argument", err_at(prg, i)));
    }
    let val = ctx.stack[n - 1];
    match ctx.stack[n - 2] {
        Value::Ptr(p, l, t) => {
            if !val.eq(&t) {
                return Err(("verdien har ikke pekerens type", err_at(prg, i)));
            }
            if p >= ctx.mem.len() {
                return Err(("kan ikke skrive utenfor minnet", err_at(prg, i)));
            }
            ctx.over_write(p, &val);
            ctx.stack.truncate(n - 2);
            ctx.ip = next_ip(prg, i);
            Ok(Flow::Next)
        }
        _ => Err(("'.' operator krever at andre operand er en peker", err_at(prg, i))),
    }
}

/// `exit` pops an integer and stops the run with that value truncated to
/// a byte.
pub fn exec_exit(ctx: &mut Runtime, prg: &Vec<Instruction>) -> (r: Result<Flow, RunError>)
    requires
        old(ctx).ip < prg@.len(),
        prg@[old(ctx).ip as int].op == Operator::Exit,
    ensures
        exit_spec(*old(ctx), prg@, *final(ctx), r),
        (r matches Err(_)) == (old(ctx).stack@.len() < 1
            || !(old(ctx).stack@.last() is Int)),
{
    let i = ctx.ip;
    let n = ctx.stack.len();
    if n < 1 {
        return Err(("'avslutt' operator krever minst 1 argument", err_at(prg, i)));
    }
    match ctx.stack[n - 1] {
        Value::Int(x) => {
            ctx.stack.pop();
            Ok(Flow::Stop(exit_code_of(x)))
        }
        _ => Err(("avslutnings-koden maa vaere et 'Helt'", err_at(prg, i))),
    }
}

/// An exit value truncated to a byte, as the language defines it.
fn exit_code_of(x: i32) -> (c: u8)
    ensures
        c as int == (x as int) % 256,
{
    let m: u32 = if x < 0 {
        (-(x as i64)) as u32
    } else {
        x as u32
    };
    let r: u32 = m % 256;
    if x < 0 && r != 0 {
        proof {
            let q = (m as int) / 256;
            assert(m as int == 256 * q + r) by (nonlinear_arith)
                requires q == (m as int) / 256 && r as int == (m as int) % 256;
            assert(x as int == 256 * (-q - 1) + (256 - r));
            assert((x as int) % 256 == 256 - r) by (nonlinear_arith)
                requires x as int == 256 * (-q - 1) + (256 - r) && 0 < 256 - (r as int) < 256;
        }
        (256 - r) as u8
    } else {
        proof {
            if x < 0 {
                let q = (m as int) / 256;
                assert(m as int == 256 * q + r) by (nonlinear_arith)
                    requires q == (m as int) / 256 && r as int == (m as int) % 256;
                assert(x as int == 256 * (-q));
                assert((x as int) % 256 == 0) by (nonlinear_arith)
                    requires x as int == 256 * (-(m as int) / 256);
            }
        }
        r as u8
    }
}

/// `print`/`println` pop a value and emit its text, `println` with a
/// trailing line break. A float's text comes from the embedder.
pub fn exec_print(ctx: &mut Runtime, prg: &Vec<Instruction>, pending: &mut Option<Reply>)
    -> (r: Result<Flow, RunError>)
    requires
        old(ctx).ip < prg@.len(),
        prg@[old(ctx).ip as int].op == Operator::Print
            || prg@[old(ctx).ip as int].op == Operator::PrintLn,
    ensures
        print_spec(*old(ctx), *old(pending), prg@, *final(ctx), *final(pending), r),
        (r matches Err(_)) == (old(ctx).stack@.len() < 1
            || (match old(ctx).stack@.last() {
                Value::Float(_) => (match *old(pending) {
                    Some(Reply::Text(_)) => false,
                    Some(_) => true,
                    None => false,
                }),
                v => *old(pending) is Some || text_of(v, old(ctx).mem@) is None,
            })),
{
    let i = ctx.ip;
    let ln = match prg[i].op {
        Operator::PrintLn => true,
        _ => false,
    };
    let n = ctx.stack.len();
    if n < 1 {
        if ln {
            return Err(("'skrivnl' operator krever minst 1 argument", err_at(prg, i)));
        }
        return Err(("'skriv' operator krever minst 1 argument", err_at(prg, i)));
    }
    let v = ctx.stack[n - 1];
    let text: String = match v {
        Value::Float(x) => {
            let mut got: Option<Reply> = None;
            core::mem::swap(pending, &mut got);
            match got {
                Some(Reply::Text(tx)) => tx,
                Some(_) => {
                    return Err(("uventet svar fra verten", err_at(prg, i)));
                }
                None => {
                    return Ok(Flow::Suspend(Request::FloatToStr(x)));
                }
            }
        }
        _ => {
            match v.to_string(ctx) {
                Some(tx) => {
                    let mut got: Option<Reply> = None;
                    core::mem::swap(pending, &mut got);
                    match got {
                        None => tx,
                        Some(_) => {
                            return Err(("uventet svar fra verten", err_at(prg, i)));
                        }
                    }
                }
                None => {
                    return Err(("tekst-verdi kan ikke leses", err_at(prg, i)));
                }
            }
        }
    };
    let entry = if ln {
        text.concat("\n")
    } else {
        text
    };
    ctx.stack.pop();
    ctx.out.push(entry);
    ctx.ip = next_ip(prg, i);
    Ok(Flow::Next)
}

/// `input` pops and emits an optional prompt, has the embedder read one
/// line, and pushes that line (unescaped) as a fresh string in the arena.
pub fn exec_input(ctx: &mut Runtime, prg: &Vec<Instruction>, pending: &mut Option<Reply>)
    -> (r: Result<Flow, RunError>)
    requires
        old(ctx).ip < prg@.len(),
        old(ctx).wf(),
        prg@[old(ctx).ip as int].op == Operator::Input,
    ensures
        final(ctx).wf(),
        input_spec(*old(ctx), *old(pending), prg@, *final(ctx), *final(pending), r),
        (r matches Err(_)) == (match *old(pending) {
            Some(Reply::Line(l)) => crate::parse::unescape_of(l@) is None,
            Some(Reply::Text(_)) => old(ctx).stack@.len() < 1
                || !(old(ctx).stack@.last() is Float),
            Some(_) => true,
            None => old(ctx).stack@.len() >= 1
                && !(old(ctx).stack@.last() is Float)
                && text_of(old(ctx).stack@.last(), old(ctx).mem@) is None,
        }),
{
    let i = ctx.ip;
    let mut got: Option<Reply> = None;
    core::mem::swap(pending, &mut got);
    match got {
        Some(Reply::Line(l)) => {
            let vals = match crate::parse::parse_char(l.as_str()) {
                Some(v) => v,
                None => {
                    return Err(("ugyldig tekst", err_at(prg, i)));
                }
            };
            proof {
                if let Some(cs) = crate::parse::unescape_of(l@) {
                    crate::ops::lemma_char_values_len(cs);
                }
            }
            let res = ctx.write(&vals);
            ctx.stack.push(Value::Str(res.0, res.1));
            ctx.ip = next_ip(prg, i);
            Ok(Flow::Next)
        }
        Some(Reply::Text(tx)) => {
            let n = ctx.stack.len();
            if n < 1 {
                return Err(("uventet svar fra verten", err_at(prg, i)));
            }
            match ctx.stack[n - 1] {
                Value::Float(_) => {
                    ctx.stack.pop();
                    ctx.out.push(tx);
                    Ok(Flow::Suspend(Request::ReadLine))
                }
                _ => Err(("uventet svar fra verten", err_at(prg, i))),
            }
        }
        Some(_) => Err(("uventet svar fra verten", err_at(prg, i))),
        None => {
            let n = ctx.stack.len();
            if n == 0 {
                return Ok(Flow::Suspend(Request::ReadLine));
            }
            let v = ctx.stack[n - 1];
            match v {
                Value::Float(x) => Ok(Flow::Suspend(Request::FloatToStr(x))),
                _ => {
                    match v.to_string(ctx) {
                        Some(tx) => {
                            ctx.stack.pop();
                            ctx.out.push(tx);
                            Ok(Flow::Suspend(Request::ReadLine))
                        }
                        None => Err(("tekst-verdi kan ikke leses", err_at(prg, i))),
                    }
                }
            }
        }
    }
}

/// Relies on termsize::get: the current terminal's column count, if
/// standard output is a terminal. Depends on the machine, so nothing is
/// promised of the result.
#[verifier::external_body]
fn term_cols() -> (r: Option<u16>)
{
    termsize::get().map(|s| s.cols)
}

/// The operand stack rendered for inspection: each value's text (or a
/// question mark where it has none here), comma-separated, bottom first.
pub open spec fn stack_text(s: Seq<Value>, mem: Seq<Value>) -> Seq<char>
    decreases s.len(),
{
    if s.len() == 0 {
        Seq::empty()
    } else {
        stack_text(s.drop_last(), mem) + (match text_of(s.last(), mem) {
            Some(tx) => tx,
            None => "?"@,
        }) + ", "@
    }
}

/// `debug` emits the rendered operand stack as one line, cut down to the
/// terminal's width when that width is known and too small.
pub fn exec_debug(ctx: &mut Runtime, prg: &Vec<Instruction>) -> (r: Result<Flow, RunError>)
    requires
        old(ctx).ip < prg@.len(),
        prg@[old(ctx).ip as int].op == Operator::Debug,
    ensures
        r is Ok,
        debug_spec(*old(ctx), prg@, *final(ctx), r),
{
    let i = ctx.ip;
    let mut body = String::new();
    let n = ctx.stack.len();
    let mut k: usize = 0;
    while k < n
        invariant
            n == ctx.stack@.len(),
            k <= n,
            body@ == stack_text(ctx.stack@.subrange(0, k as int), ctx.mem@),
        decreases n - k,
    {
        proof {
            assert(ctx.stack@.subrange(0, (k + 1) as int).drop_last()
                =~= ctx.stack@.subrange(0, k as int));
            assert(ctx.stack@.subrange(0, (k + 1) as int).last() == ctx.stack@[k as int]);
        }
        let v = ctx.stack[k];
        match v.to_string(ctx) {
            Some(tx) => {
                body.append(tx.as_str());
            }
            None => {
                body.append("?");
            }
        }
        body.append(", ");
        k += 1;
    }
    proof {
        assert(ctx.stack@.subrange(0, n as int) =~= ctx.stack@);
    }
    let shown: String = match term_cols() {
        Some(w) => {
            let wu = w as usize;
            let blen = body.as_str().unicode_len();
            if blen >= usize::MAX - 8 || blen + 8 <= wu || wu < 11 || blen < wu - 11 {
                body
            } else {
                let keep = wu - 11;
                let cut = body.as_str().substring_char(blen - keep, blen);
                let mut c = String::from_str("...");
                c.append(cut);
                c
            }
        }
        None => body,
    };
    let mut entry = String::from_str("\nStabel: ");
    entry.append(shown.as_str());
    entry.append("\n");
    ctx.out.push(entry);
    ctx.ip = next_ip(prg, i);
    Ok(Flow::Next)
}

/// `n` uninitialized arena cells.
pub open spec fn null_cells(n: int) -> Seq<Value>
    decreases n,
{
    if n <= 0 {
        Seq::empty()
    } else {
        null_cells(n - 1).push(Value::Null)
    }
}

fn null_vec(n: usize) -> (r: Vec<Value>)
    ensures
        r@ == null_cells(n as int),
{
    let mut r: Vec<Value> = Vec::new();
    let mut k: usize = 0;
    while k < n
        invariant
            k <= n,
            r@ == null_cells(k as int),
        decreases n - k,
    {
        r.push(Value::Null);
        k += 1;
    }
    r
}

/// A `mem`/`const` declaration site: the following word names the
/// definition; it is registered unbound at the current depth, and a new
/// scope opens for the block that computes the value.
pub fn exec_decl(ctx: &mut Runtime, prg: &Vec<Instruction>) -> (r: Result<Flow, RunError>)
    requires
        old(ctx).ip < prg@.len(),
        prg@[old(ctx).ip as int].op == Operator::Mem
            || prg@[old(ctx).ip as int].op == Operator::Const,
    ensures
        decl_spec(*old(ctx), prg@, *final(ctx), r),
        (r matches Err(_)) == (old(ctx).ip + 1 >= prg@.len()
            || prg@[old(ctx).ip as int + 1].op != Operator::Word
            || prg@[old(ctx).ip as int + 1].name is None
            || old(ctx).current_scope == usize::MAX),
{
    let i = ctx.ip;
    let pl = prg.len();
    if i >= pl - 1 {
        return Err(("kunne ikke finne navn", err_at(prg, i)));
    }
    if ctx.current_scope == usize::MAX {
        return Err(("for dypt nostet", err_at(prg, i)));
    }
    let name = &prg[i + 1];
    match name.op {
        Operator::Word => {
            match &name.name {
                Some(key) => {
                    let d = ctx.current_scope;
                    ctx.def_insert(key.clone(), None, d);
                    ctx.current_scope = d + 1;
                    let j = next_ip(prg, i);
                    ctx.ip = j + 1;
                    Ok(Flow::Next)
                }
                None => Err(("kunne ikke finne navn", err_at(prg, i))),
            }
        }
        _ => Err(("kunne ikke finne navn til definisjonen", err_at(prg, i))),
    }
}

/// A symbol reference: a name bound to a function starts a call (the
/// arguments are type-checked and become the callee's stack); any other
/// bound value is pushed; an unknown or unbound name is fatal. A word
/// with no name attached does nothing.
pub fn exec_word(ctx: &mut Runtime, prg: &Vec<Instruction>) -> (r: Result<Flow, RunError>)
    requires
        old(ctx).ip < prg@.len(),
        prg@[old(ctx).ip as int].op == Operator::Word,
    ensures
        word_spec(*old(ctx), prg@, *final(ctx), r),
        (r matches Err(_)) == (match prg@[old(ctx).ip as int].name {
            None => false,
            Some(key) => (match lookup(old(ctx).def@, key@) {
                None => true,
                Some(e) => (match e.val {
                    None => true,
                    Some(Value::FuncPtr(fi)) => fi >= old(ctx).funcs@.len()
                        || old(ctx).current_scope == usize::MAX
                        || old(ctx).stack@.len()
                            < old(ctx).funcs@[fi as int].params@.len()
                        || (exists|q: int| 0 <= q < old(ctx).funcs@[fi as int].params@.len()
                            && !has_type_at(old(ctx).stack@,
                                old(ctx).stack@.len()
                                    - old(ctx).funcs@[fi as int].params@.len() + q,
                                old(ctx).funcs@[fi as int].params@[q])),
                    Some(_) => false,
                }),
            }),
        }),
{
    let i = ctx.ip;
    let key = match &prg[i].name {
        Some(k) => k,
        None => {
            ctx.ip = next_ip(prg, i);
            return Ok(Flow::Next);
        }
    };
    match ctx.def_lookup(key) {
        Some((Some(Value::FuncPtr(fi)), _)) => {
            if fi >= ctx.funcs.len() {
                return Err(("ukjent funksjon", err_at(prg, i)));
            }
            if ctx.current_scope == usize::MAX {
                return Err(("for dypt nostet", err_at(prg, i)));
            }
            let f = ctx.funcs[fi].duplicate();
            match ctx.call(&f, i) {
                Some(res) => {
                    if res < prg.len() {
                        ctx.ip = next_ip(prg, res);
                    } else {
                        ctx.ip = prg.len();
                    }
                    Ok(Flow::Next)
                }
                None => Err(("feil argumenter for funksjonen", err_at(prg, i))),
            }
        }
        Some((Some(v), _)) => {
            ctx.stack.push(v);
            ctx.ip = next_ip(prg, i);
            Ok(Flow::Next)
        }
        Some((None, _)) => Err(("ukjent ord", err_at(prg, i))),
        None => Err(("ukjent ord", err_at(prg, i))),
    }
}

/// When `end` must report an error: leaving a scope that was never
/// entered, a dangling or malformed jump target, or a companion
/// declaration whose name or operands are unusable (for a function, a
/// return that does not fit).
pub open spec fn end_fails(prg: Seq<Instruction>, i: int, s: Seq<Value>, def: Seq<DefEntry>,
    cs: int, funcs: Seq<FuncPtr>, frames_len: int, rs_len: int) -> bool {
    if cs == 0 {
        true
    } else {
        match prg[i].arg {
            None => false,
            Some(t) => if t >= prg.len() {
                true
            } else if prg[t as int].op == Operator::Const {
                ||| t + 1 >= prg.len()
                ||| s.len() < 1
                ||| prg[t as int + 1].name is None
                ||| (match lookup(swept(def, cs), prg[t as int + 1].name.unwrap()@) {
                    Some(e) => e.val is Some,
                    None => true,
                })
            } else if prg[t as int].op == Operator::Mem {
                ||| t + 1 >= prg.len()
                ||| s.len() < 2
                ||| (s.len() >= 2 && !(match arg_b(s) {
                    Value::Int(ln) => ln > 0,
                    _ => false,
                }))
                ||| (s.len() >= 2 && !(arg_a(s) is TypeLiteral))
                ||| prg[t as int + 1].name is None
                ||| (match lookup(swept(def, cs), prg[t as int + 1].name.unwrap()@) {
                    Some(e) => e.val is Some,
                    None => true,
                })
            } else if prg[t as int].op == Operator::Func {
                ||| t + 1 >= prg.len()
                ||| prg[t as int + 1].name is None
                ||| (match lookup(swept(def, cs), prg[t as int + 1].name.unwrap()@) {
                    Some(e) => (match e.val {
                        Some(Value::FuncPtr(fi)) => fi >= funcs.len()
                            || !crate::retur_types_fit(s, funcs[fi as int].rets@)
                            || frames_len == 0
                            || rs_len == 0,
                        _ => true,
                    }),
                    None => true,
                })
            } else {
                false
            }
        }
    }
}

/// `end` tears down this scope's definitions and leaves the scope, then
/// dispatches on its companion instruction: a `const` binds the computed
/// value to the declared name; a `mem` pops a length and element type and
/// binds a pointer to freshly allocated cells; a `func` returns from the
/// running call; a `let` is already done; anything else is a jump back
/// (closing a loop or a plain block).
pub fn exec_end(ctx: &mut Runtime, prg: &Vec<Instruction>) -> (r: Result<Flow, RunError>)
    requires
        old(ctx).ip < prg@.len(),
        old(ctx).wf(),
        prg@[old(ctx).ip as int].op == Operator::End,
    ensures
        final(ctx).wf(),
        end_spec(*old(ctx), prg@, *final(ctx), r),
        (r matches Err(_)) == end_fails(prg@, old(ctx).ip as int, old(ctx).stack@,
            old(ctx).def@, old(ctx).current_scope as int, old(ctx).funcs@,
            old(ctx).frame_stack@.len() as int, old(ctx).return_stack@.len() as int),
{
    let i = ctx.ip;
    if ctx.current_scope == 0 {
        return Err(("blokk-slutt utenfor blokk", err_at(prg, i)));
    }
    let t = match prg[i].arg {
        Some(t) => t,
        None => {
            let d = ctx.current_scope;
            ctx.sweep(d);
            ctx.current_scope = d - 1;
            ctx.ip = next_ip(prg, i);
            return Ok(Flow::Next);
        }
    };
    if t >= prg.len() {
        return Err(("blokk uten oppslag", err_at(prg, i)));
    }
    match prg[t].op {
        Operator::Const => {
            let pl = prg.len();
            if t >= pl - 1 {
                return Err(("kunne ikke finne navn", err_at(prg, i)));
            }
            if ctx.stack.len() < 1 {
                return Err((
                    "'konst' definisjon krever et element paa toppen av stabelen",
                    err_at(prg, i),
                ));
            }
            let key = match &prg[t + 1].name {
                Some(k) => k.clone(),
                None => {
                    return Err(("kunne ikke finne et gyldig 'konst' navn", err_at(prg, i)));
                }
            };
            let d = ctx.current_scope;
            ctx.sweep(d);
            ctx.current_scope = d - 1;
            match ctx.def_lookup(&key) {
                Some((Some(_), _)) => {
                    return Err(("navnet kan ikke omdefineres", err_at(prg, i)));
                }
                Some((None, _)) => {}
                None => {
                    return Err(("ukjent definisjon", err_at(prg, i)));
                }
            }
            let val = match ctx.pop() {
                Some(v) => v,
                None => {
                    return Err(("tom stabel", err_at(prg, i)));
                }
            };
            let d1 = ctx.current_scope;
            ctx.def_insert(key, Some(val), d1);
            ctx.ip = next_ip(prg, i);
            Ok(Flow::Next)
        }
        Operator::Mem => {
            let pl = prg.len();
            if t >= pl - 1 {
                return Err(("kunne ikke finne navn", err_at(prg, i)));
            }
            let n = ctx.stack.len();
            if n < 2 {
                return Err((
                    "'minne' definisjon krever en type og en lengde paa toppen av stabelen",
                    err_at(prg, i),
                ));
            }
            let ln = match ctx.stack[n - 1] {
                Value::Int(x) => x,
                _ => {
                    return Err((
                        "verdien paa toppen av stabelen maa vaere et positivt heltall",
                        err_at(prg, i),
                    ));
                }
            };
            if ln <= 0 {
                return Err((
                    "verdien paa toppen av stabelen maa vaere et positivt heltall",
                    err_at(prg, i),
                ));
            }
            let ty = match ctx.stack[n - 2] {
                Value::TypeLiteral(ty) => ty,
                _ => {
                    return Err(("verdien paa toppen av stabelen maa vaere en type", err_at(prg, i)));
                }
            };
            let key = match &prg[t + 1].name {
                Some(k) => k.clone(),
                None => {
                    return Err(("kunne ikke finne et gyldig 'minne' navn", err_at(prg, i)));
                }
            };
            let d = ctx.current_scope;
            ctx.sweep(d);
            ctx.current_scope = d - 1;
            match ctx.def_lookup(&key) {
                Some((Some(_), _)) => {
                    return Err(("navnet kan ikke omdefineres", err_at(prg, i)));
                }
                Some((None, _)) => {}
                None => {
                    return Err(("ukjent definisjon", err_at(prg, i)));
                }
            }
            let cells = null_vec(ln as usize);
            proof {
                lemma_null_cells_len(ln as int);
            }
            let res = ctx.write(&cells);
            ctx.stack.truncate(n - 2);
            let d1 = ctx.current_scope;
            ctx.def_insert(key, Some(Value::Ptr(res.0, ln as usize, ty)), d1);
            ctx.ip = next_ip(prg, i);
            Ok(Flow::Next)
        }
        Operator::Func => {
            let pl = prg.len();
            if t >= pl - 1 {
                return Err(("fant ikke funksjons-navn", err_at(prg, i)));
            }
            let key = match &prg[t + 1].name {
                Some(k) => k.clone(),
                None => {
                    return Err(("fant ikke funksjons-navn", err_at(prg, i)));
                }
            };
            let d = ctx.current_scope;
            ctx.sweep(d);
            ctx.current_scope = d - 1;
            let fi = match ctx.def_lookup(&key) {
                Some((Some(Value::FuncPtr(fi)), _)) => fi,
                _ => {
                    return Err(("fant ikke funksjons-navn", err_at(prg, i)));
                }
            };
            if fi >= ctx.funcs.len() {
                return Err(("ukjent funksjon", err_at(prg, i)));
            }
            let f = ctx.funcs[fi].duplicate();
            match ctx.retur(&f) {
                Some(res) => {
                    if res < prg.len() {
                        ctx.ip = next_ip(prg, res);
                    } else {
                        ctx.ip = prg.len();
                    }
                    Ok(Flow::Next)
                }
                None => Err(("ikke rette retur-verdier for funksjonen", err_at(prg, i))),
            }
        }
        Operator::Let => {
            let d = ctx.current_scope;
            ctx.sweep(d);
            ctx.current_scope = d - 1;
            ctx.ip = next_ip(prg, i);
            Ok(Flow::Next)
        }
        _ => {
            let d = ctx.current_scope;
            ctx.sweep(d);
            ctx.current_scope = d - 1;
            ctx.ip = next_ip(prg, t);
            Ok(Flow::Next)
        }
    }
}

pub proof fn lemma_null_cells_len(n: int)
    ensures
        null_cells(n).len() == (if n >= 0 { n } else { 0 }),
    decreases n,
{
    if n > 0 {
        lemma_null_cells_len(n - 1);
    }
}

/// How many consecutive `word` instructions follow position `j`.
pub open spec fn word_run_len(prg: Seq<Instruction>, j: int) -> int
    decreases prg.len() - j,
{
    if j < 0 || j >= prg.len() || prg[j].op != Operator::Word {
        0
    } else {
        1 + word_run_len(prg, j + 1)
    }
}

proof fn lemma_word_run_bounds(prg: Seq<Instruction>, j: int)
    requires
        0 <= j <= prg.len(),
    ensures
        0 <= word_run_len(prg, j),
        j + word_run_len(prg, j) <= prg.len(),
        forall|m: int| j <= m < j + word_run_len(prg, j)
            ==> (#[trigger] prg[m].op) == Operator::Word,
        j + word_run_len(prg, j) == prg.len()
            || prg[j + word_run_len(prg, j)].op != Operator::Word,
    decreases prg.len() - j,
{
    if j < prg.len() && prg[j].op == Operator::Word {
        lemma_word_run_bounds(prg, j + 1);
    }
}

/// `let` reads the run of names that follows, up to `in`, opens a scope,
/// and binds the names to popped values in reverse declaration order (the
/// last name gets the top of the stack).
pub fn exec_let(ctx: &mut Runtime, prg: &Vec<Instruction>) -> (r: Result<Flow, RunError>)
    requires
        old(ctx).ip < prg@.len(),
        prg@[old(ctx).ip as int].op == Operator::Let,
    ensures
        let_spec(*old(ctx), prg@, *final(ctx), r),
        (r matches Err(_)) == ({
            let i = old(ctx).ip as int;
            let k = word_run_len(prg@, i + 1);
            ||| i + 1 + k >= prg@.len()
            ||| (exists|m: int| 0 <= m < k && (#[trigger] prg@[i + 1 + m].name) is None)
            ||| (i + 1 + k < prg@.len() && prg@[i + 1 + k].op != Operator::In)
            ||| old(ctx).current_scope == usize::MAX
            ||| old(ctx).stack@.len() < k
        }),
{
    let i = ctx.ip;
    let pl = prg.len();
    let mut names: Vec<String> = Vec::new();
    let mut j = i + 1;
    proof {
        lemma_word_run_bounds(prg@, i + 1);
    }
    while j < pl && matches!(prg[j].op, Operator::Word)
        invariant
            pl == prg@.len(),
            i + 1 <= j <= pl,
            old(ctx).ip == i,
            i < pl,
            j <= i + 1 + word_run_len(prg@, i as int + 1),
            names@.len() == j - (i + 1),
            forall|m: int| i + 1 <= m < j ==> (#[trigger] prg@[m].op) == Operator::Word,
            forall|m: int| 0 <= m < names@.len()
                ==> (#[trigger] prg@[i + 1 + m].name) is Some,
            forall|m: int| 0 <= m < names@.len()
                ==> (#[trigger] names@[m])@ == prg@[i + 1 + m].name.unwrap()@,
            self_unchanged(old(ctx), ctx),
        decreases pl - j,
    {
        proof {
            lemma_word_run_bounds(prg@, i as int + 1);
            if j == i + 1 + word_run_len(prg@, i as int + 1) {
                assert(prg@[j as int].op != Operator::Word);
            }
        }
        let nm = match &prg[j].name {
            Some(nm) => nm.clone(),
            None => {
                proof {
                    lemma_word_run_bounds(prg@, i as int + 1);
                    assert(j < i + 1 + word_run_len(prg@, i as int + 1));
                    assert((prg@[i as int + 1 + (j - (i + 1))].name) is None);
                }
                return Err(("navnet mangler", err_at(prg, i)));
            }
        };
        let ghost pre = names@;
        names.push(nm);
        proof {
            assert(prg@[j as int].name is Some);
            assert(nm@ == prg@[j as int].name.unwrap()@);
            assert forall|m: int| 0 <= m < names@.len()
                implies (#[trigger] prg@[i + 1 + m].name) is Some by {
                if m < pre.len() {
                    assert(pre[m]@ == prg@[i + 1 + m].name.unwrap()@);
                }
            }
            assert forall|m: int| 0 <= m < names@.len()
                implies (#[trigger] names@[m])@ == prg@[i + 1 + m].name.unwrap()@ by {
                if m < pre.len() {
                    assert(names@[m] == pre[m]);
                } else {
                    assert(names@[m] == nm);
                }
            }
        }
        j += 1;
    }
    proof {
        assert(j == i + 1 + word_run_len(prg@, i as int + 1)) by {
            lemma_word_run_bounds(prg@, i as int + 1);
            if j < i + 1 + word_run_len(prg@, i as int + 1) {
                assert(prg@[j as int].op == Operator::Word);
            }
        }
    }
    if j >= pl {
        return Err(("forventet 'inni'", err_at(prg, i)));
    }
    match prg[j].op {
        Operator::In => {}
        _ => {
            return Err(("forventet 'inni'", err_at(prg, j)));
        }
    }
    if ctx.current_scope == usize::MAX {
        return Err(("for dypt nostet", err_at(prg, i)));
    }
    let k = names.len();
    if ctx.stack.len() < k {
        return Err(("ikke nok verdier paa stabelen for let-binding", err_at(prg, i)));
    }
    let d = ctx.current_scope + 1;
    ctx.current_scope = d;
    let ghost names0 = names@;
    proof {
        assert(names@ =~= names0.subrange(0, k as int));
        assert forall|q: int| 0 <= q < k
            implies (#[trigger] prg@[i as int + 1 + q].name) is Some
                && names0[q]@ == prg@[i as int + 1 + q].name.unwrap()@ by {
            assert(names0[q]@ == prg@[i as int + 1 + q].name.unwrap()@);
        }
    }
    let mut m: usize = 0;
    while m < k
        invariant
            k == names0.len(),
            names@ == names0.subrange(0, (k - m) as int),
            m <= k,
            i == old(ctx).ip,
            i + 1 + k <= prg@.len(),
            forall|q: int| 0 <= q < k
                ==> prg@[i + 1 + q].name is Some
                    && (#[trigger] names0[q])@ == prg@[i + 1 + q].name.unwrap()@,
            old(ctx).stack@.len() >= k,
            ctx.stack@ == old(ctx).stack@.subrange(0, old(ctx).stack@.len() - m),
            ctx.def@.len() == old(ctx).def@.len() + m,
            forall|q: int| 0 <= q < old(ctx).def@.len()
                ==> (#[trigger] ctx.def@[q]) == old(ctx).def@[q],
            forall|q: int| 0 <= q < m ==> {
                let e = #[trigger] ctx.def@[old(ctx).def@.len() + q];
                &&& e.name@ == names0[k - 1 - q]@
                &&& e.val == Some(old(ctx).stack@[old(ctx).stack@.len() - 1 - q])
                &&& e.depth == d
            },
            ctx.mem@ == old(ctx).mem@,
            ctx.top == old(ctx).top,
            ctx.out@ == old(ctx).out@,
            ctx.funcs@ == old(ctx).funcs@,
            ctx.frame_stack@ == old(ctx).frame_stack@,
            ctx.return_stack@ == old(ctx).return_stack@,
            ctx.current_scope == d,
            ctx.ip == old(ctx).ip,
        decreases k - m,
    {
        let nm = match names.pop() {
            Some(nm) => nm,
            None => {
                return Err(("navnet mangler", err_at(prg, i)));
            }
        };
        proof {
            assert(names@ =~= names0.subrange(0, (k - (m + 1)) as int));
            assert(nm == names0[(k - 1 - m) as int]);
        }
        let val = match ctx.pop() {
            Some(v) => v,
            None => {
                return Err(("ikke nok verdier paa stabelen for let-binding", err_at(prg, i)));
            }
        };
        proof {
            assert(ctx.stack@
                =~= old(ctx).stack@.subrange(0, old(ctx).stack@.len() - (m + 1)));
        }
        ctx.def_insert(nm, Some(val), d);
        m += 1;
    }
    proof {
        assert forall|m2: int| 0 <= m2 < k
            implies (#[trigger] prg@[i as int + 1 + m2].name) is Some by {
            assert(names0[m2]@ == prg@[i as int + 1 + m2].name.unwrap()@);
        }
    }
    ctx.ip = j + 1;
    Ok(Flow::Next)
}

/// Everything but the instruction pointer is unchanged (loop-invariant
/// helper).
pub open spec fn self_unchanged(a: &Runtime, b: &Runtime) -> bool {
    &&& b.stack@ == a.stack@
    &&& arena_same(a, b)
    &&& quiet(a, b)
    &&& b.out@ == a.out@
    &&& b.ip == a.ip
}

/// What scanning a function signature from position `j` yields: the
/// parameter types (before the separator) and return types (after it) up
/// to the closing `in` and that `in`'s position; or the position of a
/// literal that is not a type; or nothing, when the scan runs off the
/// program.
pub enum SigScan {
    Found(Seq<TypeLiteral>, Seq<TypeLiteral>, int),
    BadVal(int),
    Ran,
}

pub open spec fn scan_sig(prg: Seq<Instruction>, j: int, after: bool) -> SigScan
    decreases prg.len() - j,
{
    if j < 0 || j >= prg.len() {
        SigScan::Ran
    } else if prg[j].op == Operator::In {
        SigScan::Found(Seq::empty(), Seq::empty(), j)
    } else {
        let nb = after || prg[j].op == Operator::BikeShed;
        match prg[j].val {
            None => scan_sig(prg, j + 1, nb),
            Some(Value::TypeLiteral(t)) => (match scan_sig(prg, j + 1, nb) {
                SigScan::Found(ps, rs, e) => if after {
                    SigScan::Found(ps, Seq::empty().push(t) + rs, e)
                } else {
                    SigScan::Found(Seq::empty().push(t) + ps, rs, e)
                },
                other => other,
            }),
            Some(_) => SigScan::BadVal(j),
        }
    }
}

/// A `func` declaration: the following word names the function; the type
/// literals up to the separator are its parameter types and those after,
/// up to the paired `in`, its return types. The descriptor (entry just
/// past the `in`) is registered and execution jumps past the whole body.
pub fn exec_func_decl(ctx: &mut Runtime, prg: &Vec<Instruction>) -> (r: Result<Flow, RunError>)
    requires
        old(ctx).ip < prg@.len(),
        prg@[old(ctx).ip as int].op == Operator::Func,
    ensures
        func_decl_spec(*old(ctx), prg@, *final(ctx), r),
        (r matches Err(_)) == ({
            let i = old(ctx).ip as int;
            ||| i + 1 >= prg@.len()
            ||| prg@[i + 1].op != Operator::Word
            ||| prg@[i + 1].name is None
            ||| !(scan_sig(prg@, i + 1, false) is Found)
            ||| prg@[i].arg is None
        }),
{
    let i = ctx.ip;
    let pl = prg.len();
    if i >= pl - 1 {
        return Err(("kunne ikke finne navn til funksjonen", err_at(prg, i)));
    }
    let name = &prg[i + 1];
    let key = match name.op {
        Operator::Word => {
            match &name.name {
                Some(k) => k.clone(),
                None => {
                    return Err(("kunne ikke finne navn", err_at(prg, i)));
                }
            }
        }
        _ => {
            return Err(("kunne ikke finne navn til funksjonen", err_at(prg, i)));
        }
    };
    let mut params: Vec<TypeLiteral> = Vec::new();
    let mut rets: Vec<TypeLiteral> = Vec::new();
    let mut after = false;
    let mut j = i + 1;
    while j < pl && !matches!(prg[j].op, Operator::In)
        invariant
            pl == prg@.len(),
            i + 1 <= j <= pl,
            self_unchanged(old(ctx), ctx),
            old(ctx).ip == i,
            i < pl,
            (match scan_sig(prg@, i as int + 1, false) {
                SigScan::Found(ps, rs, e) => (match scan_sig(prg@, j as int, after) {
                    SigScan::Found(ps2, rs2, e2) => ps == params@ + ps2 && rs == rets@ + rs2
                        && e == e2,
                    _ => false,
                }),
                SigScan::BadVal(bj) => scan_sig(prg@, j as int, after) == SigScan::BadVal(bj),
                SigScan::Ran => scan_sig(prg@, j as int, after) is Ran,
            }),
        decreases pl - j,
    {
        let ghost params0 = params@;
        let ghost rets0 = rets@;
        match prg[j].val {
            Some(Value::TypeLiteral(ty)) => {
                if after {
                    rets.push(ty);
                } else {
                    params.push(ty);
                }
            }
            Some(_) => {
                return Err(("forventet 'TypeLitr'", err_at(prg, j)));
            }
            None => {}
        }
        if matches!(prg[j].op, Operator::BikeShed) {
            after = true;
        }
        proof {
            if params@ != params0 {
                assert(params@ =~= params0.push(params@.last()));
            }
            if rets@ != rets0 {
                assert(rets@ =~= rets0.push(rets@.last()));
            }
            assert forall|ps2: Seq<TypeLiteral>| true
                implies #[trigger] (params0 + ps2) == params0 + ps2 by {}
        }
        j += 1;
        proof {
            if let SigScan::Found(ps2, rs2, e2) = scan_sig(prg@, j as int, after) {
                if params@ != params0 {
                    assert(params0 + (Seq::empty().push(params@.last()) + ps2)
                        =~= params@ + ps2);
                }
                if rets@ != rets0 {
                    assert(rets0 + (Seq::empty().push(rets@.last()) + rs2) =~= rets@ + rs2);
                }
                assert(params0 + ps2 =~= params@ + ps2 || params@ != params0);
                assert(rets0 + rs2 =~= rets@ + rs2 || rets@ != rets0);
            }
        }
    }
    if j >= pl {
        return Err(("funksjonssignaturen mangler 'inni'", err_at(prg, i)));
    }
    proof {
        assert(scan_sig(prg@, j as int, after) == SigScan::Found(
            Seq::<TypeLiteral>::empty(), Seq::<TypeLiteral>::empty(), j as int));
        if let SigScan::Found(ps, rs, e) = scan_sig(prg@, i as int + 1, false) {
            assert(ps =~= params@ + Seq::<TypeLiteral>::empty());
            assert(rs =~= rets@ + Seq::<TypeLiteral>::empty());
            assert(ps =~= params@);
            assert(rs =~= rets@);
        }
    }
    let t = match prg[i].arg {
        Some(t) => t,
        None => {
            return Err(("blokk uten oppslag", err_at(prg, i)));
        }
    };
    let fi = ctx.funcs.len();
    ctx.funcs.push(crate::ops::FuncPtr { ptr: j, params, rets });
    let d = ctx.current_scope;
    ctx.def_insert(key, Some(Value::FuncPtr(fi)), d);
    if t < prg.len() {
        ctx.ip = next_ip(prg, t);
    } else {
        ctx.ip = prg.len();
    }
    Ok(Flow::Next)
}

/// The float bit pattern of one (used when a boolean is cast to float).
pub const FLOAT_ONE_BITS: u32 = 0x3F80_0000;

/// When a cast must report an error: too few operands, a target that is
/// not a type literal, an unsupported pair, an unparseable text, a string
/// out of the arena, or a non-character pointer read as text.
pub open spec fn cast_fails(s: Seq<Value>, m: Seq<Value>, pending: Option<Reply>) -> bool {
    if s.len() < 2 {
        true
    } else {
        match (arg_a(s), arg_b(s)) {
            (Value::Float(_), Value::TypeLiteral(TypeLiteral::Int)) => false,
            (Value::Bool(_), Value::TypeLiteral(TypeLiteral::Int)) => false,
            (Value::Str(p, l), Value::TypeLiteral(TypeLiteral::Int)) => p + l > m.len()
                || !crate::all_chars(m, p as int, l as int)
                || crate::strutil::parse_int_spec(str_chars(m, p as int, l as int)) is None,
            (Value::Int(_), Value::TypeLiteral(TypeLiteral::Float)) => false,
            (Value::Bool(_), Value::TypeLiteral(TypeLiteral::Float)) => false,
            (Value::Str(p, l), Value::TypeLiteral(TypeLiteral::Float)) => (match pending {
                Some(Reply::MaybeBits(ob)) => ob is None,
                _ => p + l > m.len() || !crate::all_chars(m, p as int, l as int),
            }),
            (Value::Int(x), Value::TypeLiteral(TypeLiteral::Str)) =>
                crate::parse::unescape_of(crate::strutil::int_chars(x as int)) is None,
            (Value::Float(_), Value::TypeLiteral(TypeLiteral::Str)) => (match pending {
                Some(Reply::Text(tx)) => crate::parse::unescape_of(tx@) is None,
                _ => false,
            }),
            (Value::Bool(x), Value::TypeLiteral(TypeLiteral::Str)) =>
                crate::parse::unescape_of(if x { "sann"@ } else { "usann"@ }) is None,
            (Value::Ptr(_, _, t2), Value::TypeLiteral(TypeLiteral::Str)) =>
                t2 != TypeLiteral::Char,
            (Value::Str(..), Value::TypeLiteral(TypeLiteral::Ptr)) => false,
            _ => true,
        }
    }
}

/// `cast` pops a target type literal and a value. Integers, booleans and
/// parseable strings convert among the numeric kinds; values render to
/// fresh strings; a character pointer reinterprets as a string and back.
/// Every float conversion goes through the embedder.
pub fn exec_cast(ctx: &mut Runtime, prg: &Vec<Instruction>, pending: &mut Option<Reply>)
    -> (r: Result<Flow, RunError>)
    requires
        old(ctx).ip < prg@.len(),
        old(ctx).wf(),
        prg@[old(ctx).ip as int].op == Operator::Cast,
    ensures
        final(ctx).wf(),
        cast_spec(*old(ctx), *old(pending), prg@, *final(ctx), *final(pending), r),
        (r matches Err(_)) == cast_fails(old(ctx).stack@, old(ctx).mem@, *old(pending)),
{
    let i = ctx.ip;
    let n = ctx.stack.len();
    if n < 2 {
        return Err(("'omgjor' operator krever minst 2 argumenter", err_at(prg, i)));
    }
    let b = ctx.stack[n - 2];
    let typ = ctx.stack[n - 1];
    let tl = match typ {
        Value::TypeLiteral(tl) => tl,
        _ => {
            return Err(("andre argument maa vaere en bokstavelig type", err_at(prg, i)));
        }
    };
    match tl {
        TypeLiteral::Int => {
            match b {
                Value::Float(x) => {
                    let mut got: Option<Reply> = None;
                    core::mem::swap(pending, &mut got);
                    match got {
                        Some(Reply::Whole(v)) => {
                            pop2_push(ctx, prg, Value::Int(v));
                            Ok(Flow::Next)
                        }
                        _ => Ok(Flow::Suspend(Request::FloatToInt(x))),
                    }
                }
                Value::Bool(x) => {
                    pop2_push(ctx, prg, Value::Int(if x { 1 } else { 0 }));
                    Ok(Flow::Next)
                }
                Value::Str(..) => {
                    let s = match ctx.read_str(&b) {
                        Some(s) => s,
                        None => {
                            return Err(("tekst-verdi kan ikke leses", err_at(prg, i)));
                        }
                    };
                    match crate::strutil::parse_int(s.as_str()) {
                        Some(v) => {
                            pop2_push(ctx, prg, Value::Int(v));
                            Ok(Flow::Next)
                        }
                        None => Err(("fikk ikke til aa omgjore til Helt", err_at(prg, i))),
                    }
                }
                _ => Err(("kunne ikke omgjore verdien", err_at(prg, i))),
            }
        }
        TypeLiteral::Float => {
            match b {
                Value::Int(x) => {
                    let mut got: Option<Reply> = None;
                    core::mem::swap(pending, &mut got);
                    match got {
                        Some(Reply::Bits(z)) => {
                            pop2_push(ctx, prg, Value::Float(z));
                            Ok(Flow::Next)
                        }
                        _ => Ok(Flow::Suspend(Request::IntToFloat(x))),
                    }
                }
                Value::Bool(x) => {
                    pop2_push(ctx, prg, Value::Float(if x { FLOAT_ONE_BITS } else { 0 }));
                    Ok(Flow::Next)
                }
                Value::Str(..) => {
                    let mut got: Option<Reply> = None;
                    core::mem::swap(pending, &mut got);
                    match got {
                        Some(Reply::MaybeBits(Some(z))) => {
                            pop2_push(ctx, prg, Value::Float(z));
                            Ok(Flow::Next)
                        }
                        Some(Reply::MaybeBits(None)) => {
                            Err(("fikk ikke til aa omgjore til Flyt", err_at(prg, i)))
                        }
                        _ => {
                            let s = match ctx.read_str(&b) {
                                Some(s) => s,
                                None => {
                                    return Err(("tekst-verdi kan ikke leses", err_at(prg, i)));
                                }
                            };
                            Ok(Flow::Suspend(Request::StrToFloat(s)))
                        }
                    }
                }
                _ => Err(("kunne ikke omgjore verdien", err_at(prg, i))),
            }
        }
        TypeLiteral::Str => {
            match b {
                Value::Int(x) => {
                    let text = crate::strutil::int_to_string(x);
                    concat_commit(ctx, prg, text)
                }
                Value::Float(x) => {
                    let mut got: Option<Reply> = None;
                    core::mem::swap(pending, &mut got);
                    match got {
                        Some(Reply::Text(tx)) => concat_commit(ctx, prg, tx),
                        _ => Ok(Flow::Suspend(Request::FloatToStr(x))),
                    }
                }
                Value::Bool(x) => {
                    let text = if x {
                        String::from_str("sann")
                    } else {
                        String::from_str("usann")
                    };
                    concat_commit(ctx, prg, text)
                }
                Value::Ptr(p, l, t2) => {
                    match t2 {
                        TypeLiteral::Char => {
                            pop2_push(ctx, prg, Value::Str(p, l));
                            Ok(Flow::Next)
                        }
                        _ => Err(("forventet 'Bokst'", err_at(prg, i))),
                    }
                }
                _ => Err(("kunne ikke omgjore verdien", err_at(prg, i))),
            }
        }
        TypeLiteral::Ptr => {
            match b {
                Value::Str(p, l) => {
                    pop2_push(ctx, prg, Value::Ptr(p, l, TypeLiteral::Char));
                    Ok(Flow::Next)
                }
                _ => Err(("kunne ikke omgjore verdien", err_at(prg, i))),
            }
        }
        _ => Err(("andre argument maa vaere en bokstavelig type", err_at(prg, i))),
    }
}

// ---------------------------------------------------------------------
// What each handler's result means, as one spec function per operator
// group: the same statement the handler's own contract makes, reusable in
// the engine's step relation below.
// ---------------------------------------------------------------------

pub open spec fn shuffle_spec(pre: Runtime, prg: Seq<Instruction>, post: Runtime,
    r: Result<Flow, RunError>) -> bool {
    (match r {
            Err(e) => state_same(&pre, &post) && e.1 == prg[pre.ip as int].pos,
            Ok(f) => {
                let s = pre.stack@;
                &&& f is Next
                &&& arena_same(&pre, &post)
                &&& quiet(&pre, &post)
                &&& post.out@ == pre.out@
                &&& post.ip == pre.ip + 1
                &&& (match prg[pre.ip as int].op {
                    Operator::Dup => s.len() >= 1
                        && post.stack@ == s.push(s.last()),
                    Operator::Drop => s.len() >= 1
                        && post.stack@ == s.drop_last(),
                    Operator::Swap => s.len() >= 2
                        && post.stack@ == repl2b(s, arg_b(s), arg_a(s)),
                    Operator::Over => s.len() >= 2
                        && post.stack@ == repl2b(s, arg_a(s), arg_b(s)).push(arg_a(s)),
                    Operator::Rot => s.len() >= 3
                        && post.stack@ == s.subrange(0, s.len() - 3)
                            .push(s[s.len() - 2]).push(s[s.len() - 1]).push(s[s.len() - 3]),
                    _ => false,
                })
            }
        })
}

pub open spec fn not_spec(pre: Runtime, prg: Seq<Instruction>, post: Runtime,
    r: Result<Flow, RunError>) -> bool {
    (match r {
            Err(e) => state_same(&pre, &post) && e.1 == prg[pre.ip as int].pos,
            Ok(f) => {
                let s = pre.stack@;
                &&& f is Next
                &&& s.len() >= 1
                &&& arena_same(&pre, &post)
                &&& quiet(&pre, &post)
                &&& post.out@ == pre.out@
                &&& post.ip == pre.ip + 1
                &&& (match s.last() {
                    Value::Bool(x) => post.stack@ == s.drop_last().push(Value::Bool(!x)),
                    Value::Int(x) => post.stack@ == s.drop_last().push(Value::Int((-1 - x) as i32)),
                    Value::Byte(x) => post.stack@
                        == s.drop_last().push(Value::Byte((255 - x) as u8)),
                    _ => false,
                })
            }
        })
}

pub open spec fn logic_spec(pre: Runtime, prg: Seq<Instruction>, post: Runtime,
    r: Result<Flow, RunError>) -> bool {
    (match r {
            Err(e) => state_same(&pre, &post) && e.1 == prg[pre.ip as int].pos,
            Ok(f) => {
                let s = pre.stack@;
                let conj = prg[pre.ip as int].op == Operator::And;
                &&& f is Next
                &&& s.len() >= 2
                &&& arena_same(&pre, &post)
                &&& quiet(&pre, &post)
                &&& post.out@ == pre.out@
                &&& post.ip == pre.ip + 1
                &&& (match (arg_a(s), arg_b(s)) {
                    (Value::Bool(x), Value::Bool(y)) => post.stack@
                        == repl2(s, Value::Bool(if conj { x && y } else { x || y })),
                    (Value::Int(x), Value::Int(y)) => post.stack@
                        == repl2(s, Value::Int(if conj { x & y } else { x | y })),
                    (Value::Byte(x), Value::Byte(y)) => post.stack@
                        == repl2(s, Value::Byte(if conj { x & y } else { x | y })),
                    _ => false,
                })
            }
        })
}

pub open spec fn compare_spec(pre: Runtime, pend0: Option<Reply>, prg: Seq<Instruction>,
    post: Runtime, pend1: Option<Reply>, r: Result<Flow, RunError>) -> bool {
    (match r {
            Err(e) => state_same(&pre, &post) && e.1 == prg[pre.ip as int].pos,
            Ok(Flow::Suspend(req)) => {
                let s = pre.stack@;
                &&& state_same(&pre, &post)
                &&& pend1 is None
                &&& s.len() >= 2
                &&& (match (arg_a(s), arg_b(s)) {
                    (Value::Float(x), Value::Float(y)) => req
                        == Request::FloatCmp(prg[pre.ip as int].op, x, y),
                    _ => false,
                })
            }
            Ok(Flow::Stop(_)) => false,
            Ok(Flow::Next) => {
                let s = pre.stack@;
                let op = prg[pre.ip as int].op;
                &&& s.len() >= 2
                &&& arena_same(&pre, &post)
                &&& quiet(&pre, &post)
                &&& post.out@ == pre.out@
                &&& post.ip == pre.ip + 1
                &&& (match (arg_a(s), arg_b(s)) {
                    (Value::Bool(x), Value::Bool(y)) => post.stack@
                        == repl2(s, Value::Bool(cmp_bool(op, !x && y, x == y)))
                        && pend1 == pend0,
                    (Value::Int(x), Value::Int(y)) => post.stack@
                        == repl2(s, Value::Bool(cmp_bool(op, x < y, x == y)))
                        && pend1 == pend0,
                    (Value::Byte(x), Value::Byte(y)) => post.stack@
                        == repl2(s, Value::Bool(cmp_bool(op, x < y, x == y)))
                        && pend1 == pend0,
                    (Value::Float(_), Value::Float(_)) => (match pend0 {
                        Some(Reply::Truth(z)) => post.stack@
                            == repl2(s, Value::Bool(z)) && pend1 is None,
                        _ => false,
                    }),
                    _ => false,
                })
            }
        })
}

pub open spec fn eq_spec(pre: Runtime, pend0: Option<Reply>, prg: Seq<Instruction>,
    post: Runtime, pend1: Option<Reply>, r: Result<Flow, RunError>) -> bool {
    (match r {
            Err(e) => state_same(&pre, &post) && e.1 == prg[pre.ip as int].pos,
            Ok(Flow::Suspend(req)) => {
                let s = pre.stack@;
                &&& state_same(&pre, &post)
                &&& pend1 is None
                &&& s.len() >= 2
                &&& (match (arg_a(s), arg_b(s)) {
                    (Value::Float(x), Value::Float(y)) => req
                        == Request::FloatCmp(Operator::Eq, x, y),
                    _ => false,
                })
            }
            Ok(Flow::Stop(_)) => false,
            Ok(Flow::Next) => {
                let s = pre.stack@;
                let m = pre.mem@;
                &&& s.len() >= 2
                &&& arena_same(&pre, &post)
                &&& quiet(&pre, &post)
                &&& post.out@ == pre.out@
                &&& post.ip == pre.ip + 1
                &&& (match (arg_a(s), arg_b(s)) {
                    (Value::Bool(x), Value::Bool(y)) => post.stack@
                        == repl2(s, Value::Bool(x == y)) && pend1 == pend0,
                    (Value::Int(x), Value::Int(y)) => post.stack@
                        == repl2(s, Value::Bool(x == y)) && pend1 == pend0,
                    (Value::Byte(x), Value::Byte(y)) => post.stack@
                        == repl2(s, Value::Bool(x == y)) && pend1 == pend0,
                    (Value::Float(_), Value::Float(_)) => (match pend0 {
                        Some(Reply::Truth(z)) => post.stack@
                            == repl2(s, Value::Bool(z)) && pend1 is None,
                        _ => false,
                    }),
                    (Value::Str(p1, l1), Value::Str(p2, l2)) => p1 + l1 <= m.len()
                        && p2 + l2 <= m.len()
                        && crate::all_chars(m, p1 as int, l1 as int)
                        && crate::all_chars(m, p2 as int, l2 as int)
                        && post.stack@ == repl2(s, Value::Bool(
                            str_chars(m, p1 as int, l1 as int)
                                == str_chars(m, p2 as int, l2 as int)))
                        && pend1 == pend0,
                    (Value::Char(x), Value::Char(y)) => post.stack@
                        == repl2(s, Value::Bool(x == y)) && pend1 == pend0,
                    (x, Value::TypeLiteral(t)) => post.stack@
                        == repl2(s, Value::Bool(has_type(x, t)))
                        && pend1 == pend0,
                    _ => false,
                })
            }
        })
}

pub open spec fn arith_spec(pre: Runtime, pend0: Option<Reply>, prg: Seq<Instruction>,
    post: Runtime, pend1: Option<Reply>, r: Result<Flow, RunError>) -> bool {
    (match r {
            Err(e) => state_same(&pre, &post) && e.1 == prg[pre.ip as int].pos,
            Ok(Flow::Suspend(req)) => {
                let s = pre.stack@;
                &&& state_same(&pre, &post)
                &&& pend1 is None
                &&& s.len() >= 2
                &&& (match (arg_a(s), arg_b(s)) {
                    (Value::Float(x), Value::Float(y)) => req
                        == Request::FloatBin(prg[pre.ip as int].op, x, y),
                    _ => false,
                })
            }
            Ok(Flow::Stop(_)) => false,
            Ok(Flow::Next) => {
                let s = pre.stack@;
                let m = pre.mem@;
                let op = prg[pre.ip as int].op;
                &&& s.len() >= 2
                &&& quiet(&pre, &post)
                &&& post.out@ == pre.out@
                &&& post.ip == pre.ip + 1
                &&& (match (arg_a(s), arg_b(s)) {
                    (Value::Int(x), Value::Int(y)) => arena_same(&pre, &post)
                        && pend1 == pend0
                        && if op == Operator::Add {
                            post.stack@ == repl2(s, Value::Int((x + y) as i32))
                        } else if op == Operator::Sub {
                            post.stack@ == repl2(s, Value::Int((x - y) as i32))
                        } else if op == Operator::Mult {
                            post.stack@ == repl2(s, Value::Int((x * y) as i32))
                        } else {
                            post.stack@ == repl2b(s,
                                Value::Int(tmod(x as int, y as int) as i32),
                                Value::Int(tdiv(x as int, y as int) as i32))
                        },
                    (Value::Byte(x), Value::Byte(y)) => arena_same(&pre, &post)
                        && pend1 == pend0
                        && if op == Operator::Add {
                            post.stack@ == repl2(s, Value::Byte((x + y) as u8))
                        } else if op == Operator::Sub {
                            post.stack@ == repl2(s, Value::Byte((x - y) as u8))
                        } else if op == Operator::Mult {
                            post.stack@ == repl2(s, Value::Byte((x * y) as u8))
                        } else {
                            post.stack@ == repl2b(s,
                                Value::Byte((x as int % y as int) as u8),
                                Value::Byte((x as int / y as int) as u8))
                        },
                    (Value::Float(_), Value::Float(_)) => arena_same(&pre, &post)
                        && pend1 is None
                        && (match pend0 {
                            Some(Reply::Bits(z)) => op != Operator::Div
                                && post.stack@ == repl2(s, Value::Float(z)),
                            Some(Reply::Pair(z1, z2)) => op == Operator::Div
                                && post.stack@
                                    == repl2b(s, Value::Float(z1), Value::Float(z2)),
                            _ => false,
                        }),
                    (Value::Ptr(p, l, t), Value::Int(y)) => arena_same(&pre, &post)
                        && pend1 == pend0
                        && (if op == Operator::Add {
                            post.stack@ == repl2(s, Value::Ptr(((p + y) as usize), l, t))
                        } else {
                            op == Operator::Sub
                                && post.stack@
                                    == repl2(s, Value::Ptr(((p - y) as usize), l, t))
                        }),
                    (Value::Int(y), Value::Ptr(p, l, t)) => arena_same(&pre, &post)
                        && pend1 == pend0
                        && (if op == Operator::Add {
                            post.stack@ == repl2(s, Value::Ptr(((p + y) as usize), l, t))
                        } else {
                            op == Operator::Sub
                                && post.stack@
                                    == repl2(s, Value::Ptr(((p - y) as usize), l, t))
                        }),
                    (Value::Str(p1, l1), Value::Str(p2, l2)) => op == Operator::Add
                        && p1 + l1 <= m.len() && p2 + l2 <= m.len()
                        && crate::all_chars(m, p1 as int, l1 as int)
                        && crate::all_chars(m, p2 as int, l2 as int)
                        && pend1 == pend0
                        && (match crate::parse::unescape_of(
                            str_chars(m, p1 as int, l1 as int)
                                + str_chars(m, p2 as int, l2 as int)) {
                            Some(cs) => post.mem@ == m + crate::ops::char_values(cs)
                                && post.stack@
                                    == repl2(s, Value::Str(pre.top, cs.len() as usize)),
                            None => false,
                        }),
                    (Value::Str(p1, l1), Value::Char(c)) => op == Operator::Add
                        && p1 + l1 <= m.len()
                        && crate::all_chars(m, p1 as int, l1 as int)
                        && pend1 == pend0
                        && (match crate::parse::unescape_of(
                            str_chars(m, p1 as int, l1 as int).push(c)) {
                            Some(cs) => post.mem@ == m + crate::ops::char_values(cs)
                                && post.stack@
                                    == repl2(s, Value::Str(pre.top, cs.len() as usize)),
                            None => false,
                        }),
                    _ => false,
                })
            }
        })
}

pub open spec fn literal_spec(pre: Runtime, prg: Seq<Instruction>, post: Runtime,
    r: Result<Flow, RunError>) -> bool {
    (match r {
            Err(e) => state_same(&pre, &post) && e.1 == prg[pre.ip as int].pos
                && prg[pre.ip as int].val is None,
            Ok(f) => {
                &&& f is Next
                &&& prg[pre.ip as int].val matches Some(v)
                    && post.stack@ == pre.stack@.push(v)
                &&& arena_same(&pre, &post)
                &&& quiet(&pre, &post)
                &&& post.out@ == pre.out@
                &&& post.ip == pre.ip + 1
            }
        })
}

pub open spec fn do_spec(pre: Runtime, prg: Seq<Instruction>, post: Runtime,
    r: Result<Flow, RunError>) -> bool {
    (match r {
            Err(e) => state_same(&pre, &post) && e.1 == prg[pre.ip as int].pos,
            Ok(f) => {
                let s = pre.stack@;
                let inst = prg[pre.ip as int];
                &&& f is Next
                &&& s.len() >= 1
                &&& post.stack@ == s.drop_last()
                &&& arena_same(&pre, &post)
                &&& post.out@ == pre.out@
                &&& post.def@ == pre.def@
                &&& post.funcs@ == pre.funcs@
                &&& post.frame_stack@ == pre.frame_stack@
                &&& post.return_stack@ == pre.return_stack@
                &&& (match s.last() {
                    Value::Bool(true) => post.ip == pre.ip + 1
                        && post.current_scope == pre.current_scope + 1,
                    Value::Bool(false) => (match inst.arg {
                        Some(t) => t < prg.len() && post.ip == t + 1
                            && (if prg[t as int].op == Operator::Else {
                                post.current_scope == pre.current_scope + 1
                            } else {
                                post.current_scope == pre.current_scope
                            }),
                        None => false,
                    }),
                    _ => false,
                })
            }
        })
}

pub open spec fn else_spec(pre: Runtime, prg: Seq<Instruction>, post: Runtime,
    r: Result<Flow, RunError>) -> bool {
    (match r {
            Err(e) => state_same(&pre, &post) && e.1 == prg[pre.ip as int].pos,
            Ok(f) => {
                let inst = prg[pre.ip as int];
                &&& f is Next
                &&& post.stack@ == pre.stack@
                &&& arena_same(&pre, &post)
                &&& post.out@ == pre.out@
                &&& post.funcs@ == pre.funcs@
                &&& post.frame_stack@ == pre.frame_stack@
                &&& post.return_stack@ == pre.return_stack@
                &&& (match inst.arg {
                    Some(t) => {
                        &&& t < prg.len()
                        &&& pre.current_scope >= 1
                        &&& post.def@
                            == swept(pre.def@, pre.current_scope as int)
                        &&& post.current_scope == pre.current_scope - 1
                        &&& post.ip == t + 1
                    }
                    None => post.def@ == pre.def@
                        && post.current_scope == pre.current_scope
                        && post.ip == pre.ip + 1,
                })
            }
        })
}

pub open spec fn read_spec(pre: Runtime, prg: Seq<Instruction>, post: Runtime,
    r: Result<Flow, RunError>) -> bool {
    (match r {
            Err(e) => state_same(&pre, &post) && e.1 == prg[pre.ip as int].pos,
            Ok(f) => {
                let s = pre.stack@;
                &&& f is Next
                &&& s.len() >= 1
                &&& arena_same(&pre, &post)
                &&& quiet(&pre, &post)
                &&& post.out@ == pre.out@
                &&& post.ip == pre.ip + 1
                &&& (match s.last() {
                    Value::Ptr(p, l, t) => p < pre.mem@.len()
                        && post.stack@ == s.drop_last().push(pre.mem@[p as int]),
                    _ => false,
                })
            }
        })
}

pub open spec fn write_spec(pre: Runtime, prg: Seq<Instruction>, post: Runtime,
    r: Result<Flow, RunError>) -> bool {
    (match r {
            Err(e) => state_same(&pre, &post) && e.1 == prg[pre.ip as int].pos,
            Ok(f) => {
                let s = pre.stack@;
                &&& f is Next
                &&& s.len() >= 2
                &&& quiet(&pre, &post)
                &&& post.out@ == pre.out@
                &&& post.ip == pre.ip + 1
                &&& post.top == pre.top
                &&& (match arg_a(s) {
                    Value::Ptr(p, l, t) => {
                        &&& has_type(arg_b(s), t)
                        &&& p < pre.mem@.len()
                        &&& post.mem@ == pre.mem@.update(p as int, arg_b(s))
                        &&& post.stack@ == s.subrange(0, s.len() - 2)
                    }
                    _ => false,
                })
            }
        })
}

pub open spec fn exit_spec(pre: Runtime, prg: Seq<Instruction>, post: Runtime,
    r: Result<Flow, RunError>) -> bool {
    (match r {
            Err(e) => state_same(&pre, &post) && e.1 == prg[pre.ip as int].pos,
            Ok(f) => {
                let s = pre.stack@;
                &&& s.len() >= 1
                &&& post.stack@ == s.drop_last()
                &&& arena_same(&pre, &post)
                &&& quiet(&pre, &post)
                &&& post.out@ == pre.out@
                &&& post.ip == pre.ip
                &&& (match s.last() {
                    Value::Int(x) => f == Flow::Stop(((x as int) % 256) as u8),
                    _ => false,
                })
            }
        })
}

pub open spec fn print_spec(pre: Runtime, pend0: Option<Reply>, prg: Seq<Instruction>,
    post: Runtime, pend1: Option<Reply>, r: Result<Flow, RunError>) -> bool {
    (match r {
            Err(e) => state_same(&pre, &post) && e.1 == prg[pre.ip as int].pos,
            Ok(Flow::Suspend(req)) => {
                let s = pre.stack@;
                &&& state_same(&pre, &post)
                &&& pend1 is None
                &&& s.len() >= 1
                &&& (match s.last() {
                    Value::Float(x) => req == Request::FloatToStr(x) && pend0 is None,
                    _ => false,
                })
            }
            Ok(Flow::Stop(_)) => false,
            Ok(Flow::Next) => {
                let s = pre.stack@;
                let ln = prg[pre.ip as int].op == Operator::PrintLn;
                &&& s.len() >= 1
                &&& post.stack@ == s.drop_last()
                &&& arena_same(&pre, &post)
                &&& quiet(&pre, &post)
                &&& post.ip == pre.ip + 1
                &&& pend1 is None
                &&& post.out@.len() == pre.out@.len() + 1
                &&& (forall|k: int| 0 <= k < pre.out@.len()
                    ==> post.out@[k] == pre.out@[k])
                &&& (match s.last() {
                    Value::Float(_) => (match pend0 {
                        Some(Reply::Text(tx)) => post.out@.last()@
                            == tx@ + (if ln { "\n"@ } else { Seq::<char>::empty() }),
                        _ => false,
                    }),
                    v => (match text_of(v, pre.mem@) {
                        Some(tx) => post.out@.last()@
                            == tx + (if ln { "\n"@ } else { Seq::<char>::empty() })
                            && pend0 is None,
                        None => false,
                    }),
                })
            }
        })
}

pub open spec fn input_spec(pre: Runtime, pend0: Option<Reply>, prg: Seq<Instruction>,
    post: Runtime, pend1: Option<Reply>, r: Result<Flow, RunError>) -> bool {
    (match r {
            Err(e) => state_same(&pre, &post) && e.1 == prg[pre.ip as int].pos,
            Ok(Flow::Stop(_)) => false,
            Ok(Flow::Suspend(req)) => {
                let s = pre.stack@;
                &&& pend1 is None
                &&& post.ip == pre.ip
                &&& arena_same(&pre, &post)
                &&& quiet(&pre, &post)
                &&& (match pend0 {
                    None => {
                        if s.len() == 0 {
                            req == Request::ReadLine && state_same(&pre, &post)
                        } else {
                            match s.last() {
                                Value::Float(x) => req == Request::FloatToStr(x)
                                    && state_same(&pre, &post),
                                v => req == Request::ReadLine
                                    && post.stack@ == s.drop_last()
                                    && post.out@.len() == pre.out@.len() + 1
                                    && (forall|k: int| 0 <= k < pre.out@.len()
                                        ==> post.out@[k] == pre.out@[k])
                                    && text_of(v, pre.mem@)
                                        == Some(post.out@.last()@),
                            }
                        }
                    }
                    Some(Reply::Text(tx)) => {
                        &&& req == Request::ReadLine
                        &&& s.len() >= 1 && s.last() is Float
                        &&& post.stack@ == s.drop_last()
                        &&& post.out@.len() == pre.out@.len() + 1
                        &&& (forall|k: int| 0 <= k < pre.out@.len()
                            ==> post.out@[k] == pre.out@[k])
                        &&& post.out@.last() == tx
                    }
                    _ => false,
                })
            }
            Ok(Flow::Next) => {
                &&& (match pend0 {
                    Some(Reply::Line(l)) => (match crate::parse::unescape_of(l@) {
                        Some(cs) => post.mem@ == pre.mem@ + char_values(cs)
                            && post.stack@ == pre.stack@.push(
                                Value::Str(pre.top, cs.len() as usize)),
                        None => false,
                    }),
                    _ => false,
                })
                &&& quiet(&pre, &post)
                &&& post.out@ == pre.out@
                &&& post.ip == pre.ip + 1
                &&& pend1 is None
            }
        })
}

pub open spec fn debug_spec(pre: Runtime, prg: Seq<Instruction>, post: Runtime,
    r: Result<Flow, RunError>) -> bool {
    (match r {
            Ok(f) => {
                let body = stack_text(pre.stack@, pre.mem@);
                &&& f is Next
                &&& post.stack@ == pre.stack@
                &&& arena_same(&pre, &post)
                &&& quiet(&pre, &post)
                &&& post.ip == pre.ip + 1
                &&& post.out@.len() == pre.out@.len() + 1
                &&& (forall|k: int| 0 <= k < pre.out@.len()
                    ==> post.out@[k] == pre.out@[k])
                &&& (exists|shown: Seq<char>|
                    (shown == body
                        || (exists|pre: int| 0 <= pre <= body.len()
                            && shown == "..."@ + body.subrange(pre, body.len() as int)))
                    && post.out@.last()@ == "\nStabel: "@ + shown + "\n"@)
            }
            Err(_) => false,
        })
}

pub open spec fn decl_spec(pre: Runtime, prg: Seq<Instruction>, post: Runtime,
    r: Result<Flow, RunError>) -> bool {
    (match r {
            Err(e) => state_same(&pre, &post) && e.1 == prg[pre.ip as int].pos,
            Ok(f) => {
                let i = pre.ip as int;
                &&& f is Next
                &&& i + 1 < prg.len()
                &&& prg[i + 1].op == Operator::Word
                &&& (match prg[i + 1].name {
                    Some(key) => {
                        &&& post.def@.len() == pre.def@.len() + 1
                        &&& (forall|k: int| 0 <= k < pre.def@.len()
                            ==> post.def@[k] == pre.def@[k])
                        &&& post.def@.last().name@ == key@
                        &&& post.def@.last().val is None
                        &&& post.def@.last().depth == pre.current_scope
                    }
                    None => false,
                })
                &&& post.current_scope == pre.current_scope + 1
                &&& post.stack@ == pre.stack@
                &&& arena_same(&pre, &post)
                &&& post.out@ == pre.out@
                &&& post.funcs@ == pre.funcs@
                &&& post.frame_stack@ == pre.frame_stack@
                &&& post.return_stack@ == pre.return_stack@
                &&& post.ip == pre.ip + 2
            }
        })
}

pub open spec fn word_spec(pre: Runtime, prg: Seq<Instruction>, post: Runtime,
    r: Result<Flow, RunError>) -> bool {
    (match r {
            Err(e) => {
                &&& e.1 == prg[pre.ip as int].pos
                &&& arena_same(&pre, &post)
                &&& quiet(&pre, &post)
                &&& post.out@ == pre.out@
                &&& post.ip == pre.ip
                &&& (post.stack@ == pre.stack@
                    || (match prg[pre.ip as int].name {
                        Some(key) => (match lookup(pre.def@, key@) {
                            Some(e2) => (match e2.val {
                                Some(Value::FuncPtr(fi)) => {
                                    let f = pre.funcs@[fi as int];
                                    let start = pre.stack@.len() - f.params@.len();
                                    fi < pre.funcs@.len()
                                        && pre.stack@.len() >= f.params@.len()
                                        && (exists|q: int| 0 <= q < f.params@.len()
                                            && !has_type_at(pre.stack@, start + q,
                                                f.params@[q]))
                                        && post.stack@
                                            == pre.stack@.subrange(0, start as int)
                                }
                                _ => false,
                            }),
                            None => false,
                        }),
                        None => false,
                    }))
            }
            Ok(f) => {
                let i = pre.ip as int;
                &&& f is Next
                &&& arena_same(&pre, &post)
                &&& post.out@ == pre.out@
                &&& post.def@ == pre.def@
                &&& post.funcs@ == pre.funcs@
                &&& (match prg[i].name {
                    None => post.ip == pre.ip + 1
                        && post.stack@ == pre.stack@
                        && quiet(&pre, &post),
                    Some(key) => (match lookup(pre.def@, key@) {
                        Some(e) => (match e.val {
                            Some(Value::FuncPtr(fi)) => {
                                let f = pre.funcs@[fi as int];
                                let start = pre.stack@.len() - f.params@.len();
                                &&& fi < pre.funcs@.len()
                                &&& pre.stack@.len() >= f.params@.len()
                                &&& (forall|q: int| 0 <= q < f.params@.len()
                                    ==> has_type_at(pre.stack@, start + q, f.params@[q]))
                                &&& post.stack@ == pre.stack@.subrange(
                                    start as int, pre.stack@.len() as int)
                                &&& post.frame_stack@.len()
                                    == pre.frame_stack@.len() + 1
                                &&& (forall|k: int| 0 <= k < pre.frame_stack@.len()
                                    ==> post.frame_stack@[k] == pre.frame_stack@[k])
                                &&& post.frame_stack@.last()@
                                    == pre.stack@.subrange(0, start as int)
                                &&& post.return_stack@
                                    == pre.return_stack@.push(pre.ip)
                                &&& post.current_scope == pre.current_scope + 1
                                &&& post.ip == (if f.ptr < prg.len() {
                                    f.ptr + 1
                                } else {
                                    prg.len() as int
                                })
                            }
                            Some(v) => post.ip == pre.ip + 1
                                && post.stack@ == pre.stack@.push(v)
                                && quiet(&pre, &post),
                            None => false,
                        }),
                        None => false,
                    }),
                })
            }
        })
}

pub open spec fn end_spec(pre: Runtime, prg: Seq<Instruction>, post: Runtime,
    r: Result<Flow, RunError>) -> bool {
    (match r {
            Err(e) => e.1 == prg[pre.ip as int].pos
                && post.out@ == pre.out@
                && arena_same(&pre, &post)
                && post.funcs@ == pre.funcs@
                && post.ip == pre.ip,
            Ok(f) => {
                let i = pre.ip as int;
                let s = pre.stack@;
                let sw = swept(pre.def@, pre.current_scope as int);
                let cs1 = pre.current_scope - 1;
                &&& f is Next
                &&& pre.current_scope >= 1
                &&& post.current_scope == cs1
                &&& post.out@ == pre.out@
                &&& (match prg[i].arg {
                    None => post.def@ == sw
                        && post.ip == i + 1
                        && post.stack@ == s
                        && arena_same(&pre, &post)
                        && post.funcs@ == pre.funcs@
                        && post.frame_stack@ == pre.frame_stack@
                        && post.return_stack@ == pre.return_stack@,
                    Some(t) => t < prg.len() && (match prg[t as int].op {
                        Operator::Const => {
                            &&& t + 1 < prg.len()
                            &&& s.len() >= 1
                            &&& (match prg[t + 1].name {
                                Some(key) => {
                                    &&& (match lookup(sw, key@) {
                                        Some(e) => e.val is None,
                                        None => false,
                                    })
                                    &&& post.def@.len() == sw.len() + 1
                                    &&& (forall|k: int| 0 <= k < sw.len()
                                        ==> post.def@[k] == sw[k])
                                    &&& post.def@.last().name@ == key@
                                    &&& post.def@.last().val == Some(s.last())
                                    &&& post.def@.last().depth == cs1
                                }
                                None => false,
                            })
                            &&& post.stack@ == s.drop_last()
                            &&& arena_same(&pre, &post)
                            &&& post.funcs@ == pre.funcs@
                            &&& post.frame_stack@ == pre.frame_stack@
                            &&& post.return_stack@ == pre.return_stack@
                            &&& post.ip == i + 1
                        }
                        Operator::Mem => {
                            &&& t + 1 < prg.len()
                            &&& s.len() >= 2
                            &&& (match (arg_a(s), arg_b(s)) {
                                (Value::TypeLiteral(ty), Value::Int(ln)) => {
                                    &&& ln > 0
                                    &&& (match prg[t + 1].name {
                                        Some(key) => {
                                            &&& (match lookup(sw, key@) {
                                                Some(e) => e.val is None,
                                                None => false,
                                            })
                                            &&& post.def@.len() == sw.len() + 1
                                            &&& (forall|k: int| 0 <= k < sw.len()
                                                ==> post.def@[k] == sw[k])
                                            &&& post.def@.last().name@ == key@
                                            &&& post.def@.last().val == Some(
                                                Value::Ptr(pre.top, ln as usize, ty))
                                            &&& post.def@.last().depth == cs1
                                        }
                                        None => false,
                                    })
                                    &&& post.mem@ == pre.mem@ + null_cells(ln as int)
                                }
                                _ => false,
                            })
                            &&& post.stack@ == s.subrange(0, s.len() - 2)
                            &&& post.funcs@ == pre.funcs@
                            &&& post.frame_stack@ == pre.frame_stack@
                            &&& post.return_stack@ == pre.return_stack@
                            &&& post.ip == i + 1
                        }
                        Operator::Func => {
                            &&& t + 1 < prg.len()
                            &&& (match prg[t + 1].name {
                                Some(key) => (match lookup(sw, key@) {
                                    Some(e) => (match e.val {
                                        Some(Value::FuncPtr(fi)) => {
                                            let f = pre.funcs@[fi as int];
                                            let start = s.len() - f.rets@.len();
                                            &&& fi < pre.funcs@.len()
                                            &&& crate::retur_types_fit(s, f.rets@)
                                            &&& pre.frame_stack@.len() > 0
                                            &&& pre.return_stack@.len() > 0
                                            &&& post.stack@
                                                == pre.frame_stack@.last()@
                                                    + s.subrange(start as int, s.len() as int)
                                            &&& post.frame_stack@
                                                == pre.frame_stack@.drop_last()
                                            &&& post.return_stack@
                                                == pre.return_stack@.drop_last()
                                            &&& post.ip == (
                                                if pre.return_stack@.last() < prg.len() {
                                                    pre.return_stack@.last() + 1
                                                } else {
                                                    prg.len() as int
                                                })
                                        }
                                        _ => false,
                                    }),
                                    None => false,
                                }),
                                None => false,
                            })
                            &&& post.def@ == sw
                            &&& arena_same(&pre, &post)
                            &&& post.funcs@ == pre.funcs@
                        }
                        Operator::Let => post.def@ == sw
                            && post.ip == i + 1
                            && post.stack@ == s
                            && arena_same(&pre, &post)
                            && post.funcs@ == pre.funcs@
                            && post.frame_stack@ == pre.frame_stack@
                            && post.return_stack@ == pre.return_stack@,
                        _ => post.def@ == sw
                            && post.ip == t + 1
                            && post.stack@ == s
                            && arena_same(&pre, &post)
                            && post.funcs@ == pre.funcs@
                            && post.frame_stack@ == pre.frame_stack@
                            && post.return_stack@ == pre.return_stack@,
                    }),
                })
            }
        })
}

pub open spec fn let_spec(pre: Runtime, prg: Seq<Instruction>, post: Runtime,
    r: Result<Flow, RunError>) -> bool {
    (match r {
            Err(e) => state_same(&pre, &post),
            Ok(f) => {
                let i = pre.ip as int;
                let s = pre.stack@;
                let k = word_run_len(prg, i + 1);
                &&& f is Next
                &&& i + 1 + k < prg.len()
                &&& prg[i + 1 + k].op == Operator::In
                &&& (forall|m: int| 0 <= m < k ==> (#[trigger] prg[i + 1 + m].name) is Some)
                &&& s.len() >= k
                &&& post.current_scope == pre.current_scope + 1
                &&& post.stack@ == s.subrange(0, s.len() - k)
                &&& post.def@.len() == pre.def@.len() + k
                &&& (forall|q: int| 0 <= q < pre.def@.len()
                    ==> post.def@[q] == pre.def@[q])
                &&& (forall|m: int| 0 <= m < k ==> {
                    let e = #[trigger] post.def@[pre.def@.len() + m];
                    &&& e.name@ == prg[i + k - m].name.unwrap()@
                    &&& e.val == Some(s[s.len() - 1 - m])
                    &&& e.depth == pre.current_scope + 1
                })
                &&& arena_same(&pre, &post)
                &&& post.out@ == pre.out@
                &&& post.funcs@ == pre.funcs@
                &&& post.frame_stack@ == pre.frame_stack@
                &&& post.return_stack@ == pre.return_stack@
                &&& post.ip == i + k + 2
            }
        })
}

pub open spec fn func_decl_spec(pre: Runtime, prg: Seq<Instruction>, post: Runtime,
    r: Result<Flow, RunError>) -> bool {
    (match r {
            Err(e) => state_same(&pre, &post)
                && (e.1 == prg[pre.ip as int].pos
                    || (match scan_sig(prg, pre.ip as int + 1, false) {
                        SigScan::BadVal(bj) => e.1 == prg[bj].pos,
                        _ => false,
                    })),
            Ok(f) => {
                let i = pre.ip as int;
                &&& f is Next
                &&& i + 1 < prg.len()
                &&& prg[i + 1].op == Operator::Word
                &&& prg[i + 1].name is Some
                &&& (match scan_sig(prg, i + 1, false) {
                    SigScan::Found(ps, rs, e) => {
                        let fi = pre.funcs@.len();
                        &&& post.funcs@.len() == fi + 1
                        &&& (forall|q: int| 0 <= q < fi
                            ==> post.funcs@[q] == pre.funcs@[q])
                        &&& post.funcs@.last().ptr == e
                        &&& post.funcs@.last().params@ == ps
                        &&& post.funcs@.last().rets@ == rs
                        &&& post.def@.len() == pre.def@.len() + 1
                        &&& (forall|q: int| 0 <= q < pre.def@.len()
                            ==> post.def@[q] == pre.def@[q])
                        &&& post.def@.last().name@ == prg[i + 1].name.unwrap()@
                        &&& post.def@.last().val == Some(Value::FuncPtr(fi as usize))
                        &&& post.def@.last().depth == pre.current_scope
                    }
                    _ => false,
                })
                &&& (match prg[i].arg {
                    Some(t) => post.ip
                        == (if t < prg.len() { t + 1 } else { prg.len() as int }),
                    None => false,
                })
                &&& post.stack@ == pre.stack@
                &&& arena_same(&pre, &post)
                &&& post.out@ == pre.out@
                &&& post.frame_stack@ == pre.frame_stack@
                &&& post.return_stack@ == pre.return_stack@
                &&& post.current_scope == pre.current_scope
            }
        })
}

pub open spec fn cast_spec(pre: Runtime, pend0: Option<Reply>, prg: Seq<Instruction>,
    post: Runtime, pend1: Option<Reply>, r: Result<Flow, RunError>) -> bool {
    (match r {
            Err(e) => state_same(&pre, &post) && e.1 == prg[pre.ip as int].pos,
            Ok(Flow::Stop(_)) => false,
            Ok(Flow::Suspend(req)) => {
                let s = pre.stack@;
                let m = pre.mem@;
                &&& state_same(&pre, &post)
                &&& pend1 is None
                &&& s.len() >= 2
                &&& (match (arg_a(s), arg_b(s)) {
                    (Value::Float(x), Value::TypeLiteral(TypeLiteral::Int)) => req
                        == Request::FloatToInt(x),
                    (Value::Int(x), Value::TypeLiteral(TypeLiteral::Float)) => req
                        == Request::IntToFloat(x),
                    (Value::Str(p, l), Value::TypeLiteral(TypeLiteral::Float)) => p + l
                        <= m.len() && crate::all_chars(m, p as int, l as int)
                        && (match req {
                            Request::StrToFloat(sx) => sx@ == str_chars(m, p as int, l as int),
                            _ => false,
                        }),
                    (Value::Float(x), Value::TypeLiteral(TypeLiteral::Str)) => req
                        == Request::FloatToStr(x),
                    _ => false,
                })
            }
            Ok(Flow::Next) => {
                let s = pre.stack@;
                let m = pre.mem@;
                &&& s.len() >= 2
                &&& quiet(&pre, &post)
                &&& post.out@ == pre.out@
                &&& post.ip == pre.ip + 1
                &&& (match (arg_a(s), arg_b(s)) {
                    (Value::Float(_), Value::TypeLiteral(TypeLiteral::Int)) =>
                        (match pend0 {
                            Some(Reply::Whole(v)) => post.stack@
                                == repl2(s, Value::Int(v)) && pend1 is None
                                && arena_same(&pre, &post),
                            _ => false,
                        }),
                    (Value::Bool(x), Value::TypeLiteral(TypeLiteral::Int)) => post.stack@
                        == repl2(s, Value::Int(if x { 1 } else { 0 }))
                        && pend1 == pend0
                        && arena_same(&pre, &post),
                    (Value::Str(p, l), Value::TypeLiteral(TypeLiteral::Int)) => {
                        &&& p + l <= m.len()
                        &&& crate::all_chars(m, p as int, l as int)
                        &&& (match crate::strutil::parse_int_spec(
                            str_chars(m, p as int, l as int)) {
                            Some(v) => post.stack@ == repl2(s, Value::Int(v)),
                            None => false,
                        })
                        &&& pend1 == pend0
                        &&& arena_same(&pre, &post)
                    },
                    (Value::Int(_), Value::TypeLiteral(TypeLiteral::Float)) =>
                        (match pend0 {
                            Some(Reply::Bits(z)) => post.stack@
                                == repl2(s, Value::Float(z)) && pend1 is None
                                && arena_same(&pre, &post),
                            _ => false,
                        }),
                    (Value::Bool(x), Value::TypeLiteral(TypeLiteral::Float)) => post.stack@
                        == repl2(s, Value::Float(if x { FLOAT_ONE_BITS } else { 0u32 }))
                        && pend1 == pend0
                        && arena_same(&pre, &post),
                    (Value::Str(..), Value::TypeLiteral(TypeLiteral::Float)) =>
                        (match pend0 {
                            Some(Reply::MaybeBits(ob)) => (match ob {
                                Some(z) => post.stack@ == repl2(s, Value::Float(z))
                                    && pend1 is None
                                    && arena_same(&pre, &post),
                                None => false,
                            }),
                            _ => false,
                        }),
                    (Value::Int(x), Value::TypeLiteral(TypeLiteral::Str)) =>
                        (match crate::parse::unescape_of(crate::strutil::int_chars(x as int)) {
                            Some(cs) => post.mem@ == m + char_values(cs)
                                && post.stack@
                                    == repl2(s, Value::Str(pre.top, cs.len() as usize)),
                            None => false,
                        }) && pend1 == pend0,
                    (Value::Float(_), Value::TypeLiteral(TypeLiteral::Str)) =>
                        (match pend0 {
                            Some(Reply::Text(tx)) => (match crate::parse::unescape_of(tx@) {
                                Some(cs) => post.mem@ == m + char_values(cs)
                                    && post.stack@
                                        == repl2(s, Value::Str(pre.top, cs.len() as usize))
                                    && pend1 is None,
                                None => false,
                            }),
                            _ => false,
                        }),
                    (Value::Bool(x), Value::TypeLiteral(TypeLiteral::Str)) =>
                        (match crate::parse::unescape_of(if x { "sann"@ } else { "usann"@ }) {
                            Some(cs) => post.mem@ == m + char_values(cs)
                                && post.stack@
                                    == repl2(s, Value::Str(pre.top, cs.len() as usize)),
                            None => false,
                        }) && pend1 == pend0,
                    (Value::Ptr(p, l, t2), Value::TypeLiteral(TypeLiteral::Str)) => t2
                        == TypeLiteral::Char
                        && post.stack@ == repl2(s, Value::Str(p, l))
                        && pend1 == pend0
                        && arena_same(&pre, &post),
                    (Value::Str(p, l), Value::TypeLiteral(TypeLiteral::Ptr)) => post.stack@
                        == repl2(s, Value::Ptr(p, l, TypeLiteral::Char))
                        && pend1 == pend0
                        && arena_same(&pre, &post),
                    _ => false,
                })
            }
        })
}

pub open spec fn nop_spec(pre: Runtime, prg: Seq<Instruction>, post: Runtime,
    r: Result<Flow, RunError>) -> bool {
    &&& r matches Ok(f) && f is Next
    &&& post.stack@ == pre.stack@
    &&& arena_same(&pre, &post)
    &&& quiet(&pre, &post)
    &&& post.out@ == pre.out@
    &&& post.ip == pre.ip + 1
}

/// Nothing already emitted, written to the arena, or registered as a
/// function is ever lost by a step.
pub open spec fn grows_only(a: &Runtime, b: &Runtime) -> bool {
    &&& b.mem@.len() >= a.mem@.len()
    &&& b.out@.len() >= a.out@.len()
    &&& (forall|k: int| 0 <= k < a.out@.len() ==> b.out@[k] == a.out@[k])
    &&& b.funcs@.len() >= a.funcs@.len()
    &&& (forall|k: int| 0 <= k < a.funcs@.len() ==> b.funcs@[k] == a.funcs@[k])
}

/// What one engine step at `pre.ip` means: the operator's own spec
/// function relates the machine before and after, the exchanged reply
/// slot, and the step's result. This is the single-step semantics the
/// whole run is stated over.
pub open spec fn step_rel(pre: Runtime, pend0: Option<Reply>, prg: Seq<Instruction>,
    post: Runtime, pend1: Option<Reply>, r: Result<Flow, RunError>) -> bool {
    pre.ip < prg.len() && (match prg[pre.ip as int].op {
        Operator::Literal => pend1 == pend0 && literal_spec(pre, prg, post, r),
        Operator::Add | Operator::Sub | Operator::Mult | Operator::Div =>
            arith_spec(pre, pend0, prg, post, pend1, r),
        Operator::Print | Operator::PrintLn => print_spec(pre, pend0, prg, post, pend1, r),
        Operator::Input => input_spec(pre, pend0, prg, post, pend1, r),
        Operator::Not => pend1 == pend0 && not_spec(pre, prg, post, r),
        Operator::And | Operator::Or => pend1 == pend0 && logic_spec(pre, prg, post, r),
        Operator::Eq => eq_spec(pre, pend0, prg, post, pend1, r),
        Operator::Lt | Operator::Le | Operator::Gt | Operator::Ge =>
            compare_spec(pre, pend0, prg, post, pend1, r),
        Operator::If | Operator::While | Operator::In | Operator::BikeShed =>
            pend1 == pend0 && nop_spec(pre, prg, post, r),
        Operator::End => pend1 == pend0 && end_spec(pre, prg, post, r),
        Operator::Else | Operator::Elif => pend1 == pend0 && else_spec(pre, prg, post, r),
        Operator::Do => pend1 == pend0 && do_spec(pre, prg, post, r),
        Operator::Mem | Operator::Const => pend1 == pend0 && decl_spec(pre, prg, post, r),
        Operator::Dup | Operator::Drop | Operator::Swap | Operator::Over | Operator::Rot =>
            pend1 == pend0 && shuffle_spec(pre, prg, post, r),
        Operator::Cast => cast_spec(pre, pend0, prg, post, pend1, r),
        Operator::Read => pend1 == pend0 && read_spec(pre, prg, post, r),
        Operator::Write => pend1 == pend0 && write_spec(pre, prg, post, r),
        Operator::Word => pend1 == pend0 && word_spec(pre, prg, post, r),
        Operator::Exit => pend1 == pend0 && exit_spec(pre, prg, post, r),
        Operator::Func => pend1 == pend0 && func_decl_spec(pre, prg, post, r),
        Operator::Let => pend1 == pend0 && let_spec(pre, prg, post, r),
        Operator::Debug => pend1 == pend0 && debug_spec(pre, prg, post, r),
    })
}

/// The machine `post` (with reply slot `pend1`) is reachable from `pre`
/// (with `pend0`) by exactly `n` ordinary steps of the engine, each one
/// an instruction that went on to the next (`Flow::Next`).
pub open spec fn run_reaches(pre: Runtime, pend0: Option<Reply>, prg: Seq<Instruction>,
    post: Runtime, pend1: Option<Reply>, n: nat) -> bool
    decreases n,
{
    if n == 0 {
        post == pre && pend1 == pend0
    } else {
        exists|mid: Runtime, pm: Option<Reply>|
            run_reaches(pre, pend0, prg, mid, pm, (n - 1) as nat)
            && #[trigger] step_rel(mid, pm, prg, post, pend1, Ok(Flow::Next))
    }
}

/// One fetch-decode-execute step at the current instruction, dispatching
/// to the operator's handler; each handler's own contract states the
/// exact semantics of its operator.
pub(crate) fn step(ctx: &mut Runtime, prg: &Vec<Instruction>, pending: &mut Option<Reply>)
    -> (r: Result<Flow, RunError>)
    requires
        old(ctx).ip < prg@.len(),
        old(ctx).wf(),
    ensures
        final(ctx).wf(),
        grows_only(old(ctx), final(ctx)),
        step_rel(*old(ctx), *old(pending), prg@, *final(ctx), *final(pending), r),
        (match r {
            Ok(Flow::Suspend(_)) => final(ctx).ip == old(ctx).ip,
            _ => true,
        }),
{
    let i = ctx.ip;
    match prg[i].op {
        Operator::Literal => exec_literal(ctx, prg),
        Operator::Add | Operator::Sub | Operator::Mult | Operator::Div =>
            exec_arith(ctx, prg, pending),
        Operator::Print | Operator::PrintLn => exec_print(ctx, prg, pending),
        Operator::Input => exec_input(ctx, prg, pending),
        Operator::Not => exec_not(ctx, prg),
        Operator::And | Operator::Or => exec_logic(ctx, prg),
        Operator::Eq => exec_eq(ctx, prg, pending),
        Operator::Lt | Operator::Le | Operator::Gt | Operator::Ge =>
            exec_compare(ctx, prg, pending),
        Operator::If | Operator::While | Operator::In | Operator::BikeShed =>
            exec_nop(ctx, prg),
        Operator::End => exec_end(ctx, prg),
        Operator::Else | Operator::Elif => exec_else(ctx, prg),
        Operator::Do => exec_do(ctx, prg),
        Operator::Mem | Operator::Const => exec_decl(ctx, prg),
        Operator::Dup | Operator::Drop | Operator::Swap | Operator::Over | Operator::Rot =>
            exec_shuffle(ctx, prg),
        Operator::Cast => exec_cast(ctx, prg, pending),
        Operator::Read => exec_read(ctx, prg),
        Operator::Write => exec_write(ctx, prg),
        Operator::Word => exec_word(ctx, prg),
        Operator::Exit => exec_exit(ctx, prg),
        Operator::Func => exec_func_decl(ctx, prg),
        Operator::Let => exec_let(ctx, prg),
        Operator::Debug => exec_debug(ctx, prg),
    }
}

/// How a whole run's result relates initial and final machine: `mid`
/// (with reply slot `midp`) is reached from the start by `n` ordinary
/// steps, and the reported outcome is the step taken at `mid` — a `Stop`
/// for an exit code, a `Suspend` for a request, a failing step for an
/// error. A `Paused` run (and a completed one that fell off the program)
/// ends at `mid == post` itself.
pub open spec fn run_outcome(pre: Runtime, pend0: Option<Reply>, prg: Seq<Instruction>,
    post: Runtime, n: nat, lastp: Option<Reply>, mid: Runtime, midp: Option<Reply>,
    r: Result<Outcome, RunError>) -> bool {
    match r {
        Ok(Outcome::Done(c)) => (c == 0 && post.ip >= prg.len() && mid == post
                && midp == lastp && run_reaches(pre, pend0, prg, post, lastp, n))
            || (run_reaches(pre, pend0, prg, mid, midp, n)
                && step_rel(mid, midp, prg, post, lastp, Ok(Flow::Stop(c)))),
        Ok(Outcome::Suspended(rq)) => run_reaches(pre, pend0, prg, mid, midp, n)
            && step_rel(mid, midp, prg, post, lastp, Ok(Flow::Suspend(rq))),
        Ok(Outcome::Paused) => mid == post && midp == lastp
            && run_reaches(pre, pend0, prg, post, lastp, n),
        Err(e) => run_reaches(pre, pend0, prg, mid, midp, n)
            && step_rel(mid, midp, prg, post, lastp, Err(e)),
    }
}

/// Run the resolved program from the stored instruction pointer, for at
/// most `steps` instructions. The run ends by falling off the program
/// (exit code zero), by an explicit `exit`, by a fatal error, by a
/// request the embedder must answer (pass the answer as `reply` on the
/// next call), or by an exhausted step budget (call again to go on).
/// The contract ties the outcome to the per-operator semantics: the final
/// machine is reached from the initial one by a chain of `step_rel`
/// steps, ended by the step the returned outcome reports.
pub fn execute(ctx: &mut Runtime, prg: &Vec<Instruction>, reply: Option<Reply>, steps: u64)
    -> (r: Result<Outcome, RunError>)
    requires
        old(ctx).wf(),
    ensures
        final(ctx).wf(),
        grows_only(old(ctx), final(ctx)),
        (match r {
            Ok(Outcome::Suspended(_)) => final(ctx).ip < prg@.len(),
            Ok(Outcome::Paused) => final(ctx).ip < prg@.len(),
            _ => true,
        }),
        old(ctx).ip >= prg@.len() ==> (r matches Ok(o) && o == Outcome::Done(0u8))
            && state_same(old(ctx), final(ctx)),
        (exists|n: nat, lastp: Option<Reply>, mid: Runtime, midp: Option<Reply>|
            n <= steps && #[trigger] run_outcome(*old(ctx), reply, prg@, *final(ctx), n,
                lastp, mid, midp, r)),
{
    if ctx.ip >= prg.len() {
        proof {
            assert(run_reaches(*old(ctx), reply, prg@, *old(ctx), reply, 0));
            assert(run_outcome(*old(ctx), reply, prg@, *old(ctx), 0, reply, *old(ctx),
                reply, Ok(Outcome::Done(0u8))));
        }
        return Ok(Outcome::Done(0));
    }
    let ghost reply0 = reply;
    let mut pending = reply;
    let mut fuel = steps;
    proof {
        assert(run_reaches(*old(ctx), reply0, prg@, *old(ctx), pending, 0));
    }
    while fuel > 0 && ctx.ip < prg.len()
        invariant
            old(ctx).ip < prg@.len(),
            ctx.wf(),
            grows_only(old(ctx), ctx),
            reply0 == reply,
            exists|n: nat| n + fuel <= steps
                && #[trigger] run_reaches(*old(ctx), reply0, prg@, *ctx, pending, n),
        decreases fuel,
    {
        fuel = fuel - 1;
        let ghost mid = *ctx;
        let ghost pm = pending;
        let ghost n0 = choose|n: nat| n + (fuel + 1) <= steps
            && #[trigger] run_reaches(*old(ctx), reply0, prg@, mid, pm, n);
        match step(ctx, prg, &mut pending) {
            Ok(Flow::Next) => {
                proof {
                    assert(step_rel(mid, pm, prg@, *ctx, pending, Ok(Flow::Next)));
                    assert(run_reaches(*old(ctx), reply0, prg@, *ctx, pending, n0 + 1));
                }
            }
            Ok(Flow::Stop(c)) => {
                proof {
                    assert(run_reaches(*old(ctx), reply, prg@, mid, pm, n0));
                    assert(n0 <= steps);
                    assert(run_outcome(*old(ctx), reply, prg@, *ctx, n0, pending, mid, pm,
                        Ok(Outcome::Done(c))));
                }
                return Ok(Outcome::Done(c));
            }
            Ok(Flow::Suspend(rq)) => {
                proof {
                    assert(run_reaches(*old(ctx), reply, prg@, mid, pm, n0));
                    assert(n0 <= steps);
                    assert(run_outcome(*old(ctx), reply, prg@, *ctx, n0, pending, mid, pm,
                        Ok(Outcome::Suspended(rq))));
                }
                return Ok(Outcome::Suspended(rq));
            }
            Err(e) => {
                proof {
                    assert(run_reaches(*old(ctx), reply, prg@, mid, pm, n0));
                    assert(n0 <= steps);
                    assert(run_outcome(*old(ctx), reply, prg@, *ctx, n0, pending, mid, pm,
                        Err(e)));
                }
                return Err(e);
            }
        }
    }
    proof {
        let nfin = choose|n: nat| n + fuel <= steps
            && #[trigger] run_reaches(*old(ctx), reply0, prg@, *ctx, pending, n);
        assert(run_reaches(*old(ctx), reply, prg@, *ctx, pending, nfin));
        if ctx.ip < prg.len() {
            assert(run_outcome(*old(ctx), reply, prg@, *ctx, nfin, pending, *ctx, pending,
                Ok(Outcome::Paused)));
        } else {
            assert(run_outcome(*old(ctx), reply, prg@, *ctx, nfin, pending, *ctx, pending,
                Ok(Outcome::Done(0u8))));
        }
    }
    if ctx.ip < prg.len() {
        Ok(Outcome::Paused)
    } else {
        Ok(Outcome::Done(0))
    }
}

} // verus!
