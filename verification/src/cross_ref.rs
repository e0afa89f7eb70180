use vstd::prelude::*;
use crate::ops::{Instruction, Operator, Pos};
use crate::Runtime;

verus! {

/// Why block resolution rejects a program.
pub enum ResolveErr {
    /// `else`/`elif` tried to close a block that is not an `if`/`elif`
    /// guarded by `do`.
    ElseBlock,
    /// An opened block was never closed by `end`.
    Unterminated,
    /// A block-closing token arrived with no open block on the stack.
    NoOpenBlock,
    /// A jump target that resolution itself should have set was missing
    /// or out of range.
    BadRef,
}

/// The resolver's state while walking the program: the partially
/// backpatched instructions and the auxiliary stack of open-block indices;
/// or the error it stopped on, with the index of the instruction whose
/// position is reported.
pub enum ResolveFlow {
    Going { prg: Seq<Instruction>, stack: Seq<usize> },
    Rejected { kind: ResolveErr, at: usize },
}

/// What resolution produces for a whole program.
pub enum Resolution {
    Done(Seq<Instruction>),
    Rejected { kind: ResolveErr, at: usize },
}

/// `prg` with the jump target of instruction `t` set to `a`.
pub open spec fn set_arg(prg: Seq<Instruction>, t: usize, a: usize) -> Seq<Instruction> {
    prg.update(t as int, Instruction {
        op: prg[t as int].op,
        arg: Some(a),
        val: prg[t as int].val,
        name: prg[t as int].name,
        pos: prg[t as int].pos,
    })
}

/// Pop chained `elif` openers off the stack, retargeting each at `i`,
/// until something that is not an `elif` (or an empty stack) is found.
pub open spec fn unwind_elifs(prg: Seq<Instruction>, stack: Seq<usize>, i: usize)
    -> (Seq<Instruction>, Seq<usize>)
    decreases stack.len(),
{
    if stack.len() == 0 {
        (prg, stack)
    } else {
        let top = stack.last();
        if top < prg.len() && prg[top as int].op == Operator::Elif {
            unwind_elifs(set_arg(prg, top, i), stack.drop_last(), i)
        } else {
            (prg, stack)
        }
    }
}

/// One resolver step, at instruction `i`.
pub open spec fn resolve_step(prg: Seq<Instruction>, stack: Seq<usize>, i: usize) -> ResolveFlow {
    let op = prg[i as int].op;
    if op == Operator::If || op == Operator::While || op == Operator::Const
        || op == Operator::Mem || op == Operator::Func || op == Operator::Let {
        ResolveFlow::Going { prg, stack: stack.push(i) }
    } else if op == Operator::Else || op == Operator::Elif {
        if stack.len() == 0 {
            ResolveFlow::Rejected { kind: ResolveErr::NoOpenBlock, at: i }
        } else {
            let if_i = stack.last();
            let stack1 = stack.drop_last();
            if !(if_i < prg.len()) {
                ResolveFlow::Rejected { kind: ResolveErr::BadRef, at: i }
            } else if prg[if_i as int].op == Operator::Do {
                match prg[if_i as int].arg {
                    None => ResolveFlow::Rejected { kind: ResolveErr::BadRef, at: i },
                    Some(t) => {
                        if !(t < prg.len()) {
                            ResolveFlow::Rejected { kind: ResolveErr::BadRef, at: i }
                        } else if prg[t as int].op == Operator::If {
                            ResolveFlow::Going {
                                prg: set_arg(prg, if_i, i),
                                stack: stack1.push(i),
                            }
                        } else if prg[t as int].op == Operator::Elif {
                            ResolveFlow::Going {
                                prg: set_arg(prg, if_i, i),
                                stack: stack1.push(t).push(i),
                            }
                        } else {
                            ResolveFlow::Rejected { kind: ResolveErr::ElseBlock, at: if_i }
                        }
                    }
                }
            } else {
                ResolveFlow::Rejected { kind: ResolveErr::ElseBlock, at: if_i }
            }
        }
    } else if op == Operator::End {
        if stack.len() == 0 {
            ResolveFlow::Rejected { kind: ResolveErr::NoOpenBlock, at: i }
        } else {
            let block_i = stack.last();
            let stack1 = stack.drop_last();
            if !(block_i < prg.len()) {
                ResolveFlow::Rejected { kind: ResolveErr::BadRef, at: i }
            } else if prg[block_i as int].op == Operator::Else {
                let (prg2, stack2) = unwind_elifs(set_arg(prg, block_i, i), stack1, i);
                ResolveFlow::Going { prg: prg2, stack: stack2 }
            } else if prg[block_i as int].op == Operator::Do {
                match prg[block_i as int].arg {
                    None => ResolveFlow::Rejected { kind: ResolveErr::BadRef, at: i },
                    Some(t) => {
                        if !(t < prg.len()) {
                            ResolveFlow::Rejected { kind: ResolveErr::BadRef, at: i }
                        } else if prg[t as int].op == Operator::While {
                            ResolveFlow::Going {
                                prg: set_arg(set_arg(prg, i, t), block_i, i),
                                stack: stack1,
                            }
                        } else if prg[t as int].op == Operator::If {
                            ResolveFlow::Going { prg: set_arg(prg, block_i, i), stack: stack1 }
                        } else if prg[t as int].op == Operator::Elif {
                            let (prg2, stack2) = unwind_elifs(
                                set_arg(set_arg(prg, t, i), block_i, i), stack1, i);
                            ResolveFlow::Going { prg: prg2, stack: stack2 }
                        } else {
                            ResolveFlow::Going { prg, stack: stack1 }
                        }
                    }
                }
            } else if prg[block_i as int].op == Operator::Const
                || prg[block_i as int].op == Operator::Mem
                || prg[block_i as int].op == Operator::Let {
                ResolveFlow::Going { prg: set_arg(prg, i, block_i), stack: stack1 }
            } else if prg[block_i as int].op == Operator::Func {
                ResolveFlow::Going {
                    prg: set_arg(set_arg(prg, i, block_i), block_i, i),
                    stack: stack1,
                }
            } else {
                ResolveFlow::Going { prg, stack: stack1 }
            }
        }
    } else if op == Operator::Do {
        if stack.len() == 0 {
            ResolveFlow::Rejected { kind: ResolveErr::NoOpenBlock, at: i }
        } else {
            ResolveFlow::Going {
                prg: set_arg(prg, i, stack.last()),
                stack: stack.drop_last().push(i),
            }
        }
    } else if op == Operator::In {
        if stack.len() == 0 {
            ResolveFlow::Rejected { kind: ResolveErr::NoOpenBlock, at: i }
        } else {
            ResolveFlow::Going {
                prg: set_arg(prg, i, stack.last()),
                stack,
            }
        }
    } else {
        ResolveFlow::Going { prg, stack }
    }
}

/// The resolver's state after its first `i` steps over `prg0`.
pub open spec fn resolve_upto(prg0: Seq<Instruction>, i: nat) -> ResolveFlow
    decreases i,
{
    if i == 0 {
        ResolveFlow::Going { prg: prg0, stack: Seq::empty() }
    } else {
        match resolve_upto(prg0, (i - 1) as nat) {
            ResolveFlow::Rejected { kind, at } => ResolveFlow::Rejected { kind, at },
            ResolveFlow::Going { prg, stack } => resolve_step(prg, stack, ((i - 1) as nat) as usize),
        }
    }
}

/// What resolving `prg0` yields: the fully backpatched program, or the
/// error the pass stops on (an unterminated block is reported at the
/// innermost opener left on the stack).
pub open spec fn resolve_spec(prg0: Seq<Instruction>) -> Resolution {
    match resolve_upto(prg0, prg0.len()) {
        ResolveFlow::Rejected { kind, at } => Resolution::Rejected { kind, at },
        ResolveFlow::Going { prg, stack } => {
            if stack.len() > 0 {
                Resolution::Rejected { kind: ResolveErr::Unterminated, at: stack.last() }
            } else {
                Resolution::Done(prg)
            }
        }
    }
}

/// The message each resolution error is reported with.
pub open spec fn resolve_err_msg(kind: ResolveErr) -> Seq<char> {
    match kind {
        ResolveErr::ElseBlock => "'ellers' kan bare stenge 'hvis-gjor' og 'ellvis-gjor' blokker"@,
        ResolveErr::Unterminated => "ikke stengt blokk"@,
        ResolveErr::NoOpenBlock => "blokk-slutt uten apen blokk"@,
        ResolveErr::BadRef => "ugyldig blokkreferanse"@,
    }
}

/// Instruction `b` is `a` with at most the jump target changed.
pub open spec fn same_but_arg(a: Instruction, b: Instruction) -> bool {
    a.op == b.op && a.val == b.val && a.name == b.name && a.pos == b.pos
}

/// Every instruction of `b` is the one of `a` with at most the jump
/// target changed.
pub open spec fn all_same_but_arg(a: Seq<Instruction>, b: Seq<Instruction>) -> bool {
    a.len() == b.len()
        && (forall|k: int| 0 <= k < a.len() ==> same_but_arg(#[trigger] a[k], b[k]))
}

/// Once a step has rejected the program, every later state is that same
/// rejection.
proof fn lemma_rejected_sticks(prg0: Seq<Instruction>, i: nat, j: nat)
    requires
        i <= j,
        resolve_upto(prg0, i) is Rejected,
    ensures
        resolve_upto(prg0, j) == resolve_upto(prg0, i),
    decreases j - i,
{
    if j > i {
        lemma_rejected_sticks(prg0, i, (j - 1) as nat);
    }
}

/// Setting a jump target changes no other field of any instruction.
proof fn lemma_set_arg_same(prg: Seq<Instruction>, t: usize, a: usize)
    requires
        t < prg.len(),
    ensures
        all_same_but_arg(prg, set_arg(prg, t, a)),
{
}

proof fn lemma_same_trans(a: Seq<Instruction>, b: Seq<Instruction>, c: Seq<Instruction>)
    requires
        all_same_but_arg(a, b),
        all_same_but_arg(b, c),
    ensures
        all_same_but_arg(a, c),
{
    assert forall|k: int| 0 <= k < a.len() implies same_but_arg(#[trigger] a[k], c[k]) by {
        assert(same_but_arg(a[k], b[k]));
        assert(same_but_arg(b[k], c[k]));
    }
}

/// Unwinding an elif chain changes only jump targets.
proof fn lemma_unwind_same(prg: Seq<Instruction>, stack: Seq<usize>, i: usize)
    ensures
        all_same_but_arg(prg, unwind_elifs(prg, stack, i).0),
    decreases stack.len(),
{
    if stack.len() > 0 {
        let top = stack.last();
        if top < prg.len() && prg[top as int].op == Operator::Elif {
            lemma_set_arg_same(prg, top, i);
            lemma_unwind_same(set_arg(prg, top, i), stack.drop_last(), i);
            lemma_same_trans(prg, set_arg(prg, top, i),
                unwind_elifs(set_arg(prg, top, i), stack.drop_last(), i).0);
        }
    }
}

/// A resolver step that goes on changes only jump targets.
proof fn lemma_step_same(prg: Seq<Instruction>, stack: Seq<usize>, i: usize)
    requires
        i < prg.len(),
    ensures
        (match resolve_step(prg, stack, i) {
            ResolveFlow::Going { prg: p2, stack: s2 } => all_same_but_arg(prg, p2),
            ResolveFlow::Rejected { .. } => true,
        }),
{
    assert forall|t: usize, a: usize| t < prg.len()
        implies all_same_but_arg(prg, #[trigger] set_arg(prg, t, a)) by {
        lemma_set_arg_same(prg, t, a);
    }
    if stack.len() > 0 {
        let block_i = stack.last();
        if block_i < prg.len() {
            if prg[block_i as int].op == Operator::Else && prg[i as int].op == Operator::End {
                lemma_set_arg_same(prg, block_i, i);
                lemma_unwind_same(set_arg(prg, block_i, i), stack.drop_last(), i);
                lemma_same_trans(prg, set_arg(prg, block_i, i),
                    unwind_elifs(set_arg(prg, block_i, i), stack.drop_last(), i).0);
            }
            if prg[block_i as int].op == Operator::Do && prg[i as int].op == Operator::End {
                match prg[block_i as int].arg {
                    Some(t) => {
                        if t < prg.len() && prg[t as int].op == Operator::While {
                            lemma_set_arg_same(prg, i, t);
                            lemma_set_arg_same(set_arg(prg, i, t), block_i, i);
                            lemma_same_trans(prg, set_arg(prg, i, t),
                                set_arg(set_arg(prg, i, t), block_i, i));
                        }
                        if t < prg.len() && prg[t as int].op == Operator::Elif {
                            let p1 = set_arg(prg, t, i);
                            let p2 = set_arg(p1, block_i, i);
                            lemma_set_arg_same(prg, t, i);
                            lemma_set_arg_same(p1, block_i, i);
                            lemma_same_trans(prg, p1, p2);
                            lemma_unwind_same(p2, stack.drop_last(), i);
                            lemma_same_trans(prg, p2,
                                unwind_elifs(p2, stack.drop_last(), i).0);
                        }
                    }
                    None => {}
                }
            }
            if prg[block_i as int].op == Operator::Func && prg[i as int].op == Operator::End {
                let p1 = set_arg(prg, i, block_i);
                lemma_set_arg_same(prg, i, block_i);
                lemma_set_arg_same(p1, block_i, i);
                lemma_same_trans(prg, p1, set_arg(p1, block_i, i));
            }
        }
    }
}

/// If one step rejects the program, the whole resolution rejects it the
/// same way.
proof fn lemma_spec_rejects(prg0: Seq<Instruction>, i: usize, prg_c: Seq<Instruction>,
    stack_c: Seq<usize>, kind: ResolveErr, at: usize)
    requires
        i < prg0.len(),
        resolve_upto(prg0, i as nat) == (ResolveFlow::Going { prg: prg_c, stack: stack_c }),
        resolve_step(prg_c, stack_c, i) == (ResolveFlow::Rejected { kind: kind, at: at }),
    ensures
        resolve_spec(prg0) == (Resolution::Rejected { kind: kind, at: at }),
{
    assert(resolve_upto(prg0, (i + 1) as nat)
        == (ResolveFlow::Rejected { kind: kind, at: at }));
    lemma_rejected_sticks(prg0, (i + 1) as nat, prg0.len());
}

/// Set the jump target of `prg[t]` to `a`.
fn put_arg(prg: &mut Vec<Instruction>, t: usize, a: usize)
    requires
        t < old(prg)@.len(),
    ensures
        final(prg)@ == set_arg(old(prg)@, t, a),
{
    let fresh = Instruction {
        op: prg[t].op,
        arg: Some(a),
        val: prg[t].val,
        name: match &prg[t].name {
            Some(n) => Some(n.clone()),
            None => None,
        },
        pos: (prg[t].pos.0, prg[t].pos.1, prg[t].pos.2.clone()),
    };
    prg.set(t, fresh);
}

/// An exact copy of the program.
fn duplicate_program(prg: &Vec<Instruction>) -> (r: Vec<Instruction>)
    ensures
        r@ == prg@,
{
    let mut r: Vec<Instruction> = Vec::new();
    let mut k: usize = 0;
    while k < prg.len()
        invariant
            k <= prg@.len(),
            r@ == prg@.subrange(0, k as int),
        decreases prg@.len() - k,
    {
        r.push(prg[k].duplicate());
        proof {
            assert(r@ =~= prg@.subrange(0, (k + 1) as int));
        }
        k += 1;
    }
    proof {
        assert(prg@.subrange(0, prg@.len() as int) =~= prg@);
    }
    r
}

/// Clone an instruction's source position.
fn pos_of(prg: &Vec<Instruction>, t: usize) -> (r: Pos)
    requires
        t < prg@.len(),
    ensures
        r == prg@[t as int].pos,
{
    (prg[t].pos.0, prg[t].pos.1, prg[t].pos.2.clone())
}

/// Resolve every block-structured token of `prg` into a jump target, in
/// one forward pass with one auxiliary index stack (see `resolve_spec`).
/// On success the backpatched program is both left in `prg` and returned;
/// on error the pass stops where `resolve_spec` says, reporting that
/// error's message and the offending instruction's position.
pub fn cross_reference(prg: &mut Vec<Instruction>, _ctx: &Runtime)
    -> (r: Result<Vec<Instruction>, (&'static str, Pos)>)
    ensures
        all_same_but_arg(old(prg)@, final(prg)@),
        (match r {
            Ok(res) => resolve_spec(old(prg)@) == Resolution::Done(final(prg)@)
                && res@ == final(prg)@,
            Err(e) => (match resolve_spec(old(prg)@) {
                Resolution::Rejected { kind, at } => at < old(prg)@.len()
                    && e.1 == old(prg)@[at as int].pos
                    && e.0@ == resolve_err_msg(kind),
                Resolution::Done(_) => false,
            }),
        }),
{
    let n = prg.len();
    let mut stack: Vec<usize> = Vec::new();
    let mut i: usize = 0;
    proof {
        assert(resolve_upto(prg@, 0) == (ResolveFlow::Going { prg: prg@, stack: Seq::<usize>::empty() }));
        assert(stack@ =~= Seq::<usize>::empty());
    }
    while i < n
        invariant
            n == old(prg)@.len(),
            n == prg@.len(),
            i <= n,
            all_same_but_arg(old(prg)@, prg@),
            forall|k: int| 0 <= k < stack@.len() ==> stack@[k] < n,
            resolve_upto(old(prg)@, i as nat)
                == (ResolveFlow::Going { prg: prg@, stack: stack@ }),
        decreases n - i,
    {
        let ghost prg_in = prg@;
        let ghost stack_in = stack@;
        let token = prg[i].op;
        match token {
            Operator::If | Operator::While | Operator::Const | Operator::Mem
            | Operator::Func | Operator::Let => {
                stack.push(i);
            }
            Operator::Else | Operator::Elif => {
                let if_i = match stack.pop() {
                    Some(x) => x,
                    None => {
                        proof {
                            lemma_spec_rejects(old(prg)@, i, prg_in, stack_in,
                                ResolveErr::NoOpenBlock, i);
                        }
                        return Err(("blokk-slutt uten apen blokk", pos_of(prg, i)));
                    }
                };
                if prg[if_i].op == Operator::Do {
                    let t = match prg[if_i].arg {
                        Some(t) => t,
                        None => {
                            proof {
                                lemma_spec_rejects(old(prg)@, i, prg_in, stack_in,
                                    ResolveErr::BadRef, i);
                            }
                            return Err(("ugyldig blokkreferanse", pos_of(prg, i)));
                        }
                    };
                    if t >= n {
                        proof {
                            lemma_spec_rejects(old(prg)@, i, prg_in, stack_in,
                                ResolveErr::BadRef, i);
                        }
                        return Err(("ugyldig blokkreferanse", pos_of(prg, i)));
                    }
                    if prg[t].op == Operator::If {
                        put_arg(prg, if_i, i);
                        stack.push(i);
                    } else if prg[t].op == Operator::Elif {
                        stack.push(t);
                        put_arg(prg, if_i, i);
                        stack.push(i);
                    } else {
                        proof {
                            lemma_spec_rejects(old(prg)@, i, prg_in, stack_in,
                                ResolveErr::ElseBlock, if_i);
                        }
                        return Err((
                            "'ellers' kan bare stenge 'hvis-gjor' og 'ellvis-gjor' blokker",
                            pos_of(prg, if_i),
                        ));
                    }
                } else {
                    proof {
                        lemma_spec_rejects(old(prg)@, i, prg_in, stack_in,
                            ResolveErr::ElseBlock, if_i);
                    }
                    return Err((
                        "'ellers' kan bare stenge 'hvis-gjor' og 'ellvis-gjor' blokker",
                        pos_of(prg, if_i),
                    ));
                }
            }
            Operator::End => {
                let block_i = match stack.pop() {
                    Some(x) => x,
                    None => {
                        proof {
                            lemma_spec_rejects(old(prg)@, i, prg_in, stack_in,
                                ResolveErr::NoOpenBlock, i);
                        }
                        return Err(("blokk-slutt uten apen blokk", pos_of(prg, i)));
                    }
                };
                if prg[block_i].op == Operator::Else {
                    put_arg(prg, block_i, i);
                    unwind_elif_chain(prg, &mut stack, i, n);
                } else if prg[block_i].op == Operator::Do {
                    let t = match prg[block_i].arg {
                        Some(t) => t,
                        None => {
                            proof {
                                lemma_spec_rejects(old(prg)@, i, prg_in, stack_in,
                                    ResolveErr::BadRef, i);
                            }
                            return Err(("ugyldig blokkreferanse", pos_of(prg, i)));
                        }
                    };
                    if t >= n {
                        proof {
                            lemma_spec_rejects(old(prg)@, i, prg_in, stack_in,
                                ResolveErr::BadRef, i);
                        }
                        return Err(("ugyldig blokkreferanse", pos_of(prg, i)));
                    }
                    if prg[t].op == Operator::While {
                        put_arg(prg, i, t);
                        put_arg(prg, block_i, i);
                    } else if prg[t].op == Operator::If {
                        put_arg(prg, block_i, i);
                    } else if prg[t].op == Operator::Elif {
                        put_arg(prg, t, i);
                        put_arg(prg, block_i, i);
                        unwind_elif_chain(prg, &mut stack, i, n);
                    }
                } else if prg[block_i].op == Operator::Const
                    || prg[block_i].op == Operator::Mem
                    || prg[block_i].op == Operator::Let {
                    put_arg(prg, i, block_i);
                } else if prg[block_i].op == Operator::Func {
                    put_arg(prg, i, block_i);
                    put_arg(prg, block_i, i);
                }
            }
            Operator::Do => {
                let block_i = match stack.pop() {
                    Some(x) => x,
                    None => {
                        proof {
                            lemma_spec_rejects(old(prg)@, i, prg_in, stack_in,
                                ResolveErr::NoOpenBlock, i);
                        }
                        return Err(("blokk-slutt uten apen blokk", pos_of(prg, i)));
                    }
                };
                put_arg(prg, i, block_i);
                stack.push(i);
            }
            Operator::In => {
                let param_i = match stack.pop() {
                    Some(x) => x,
                    None => {
                        proof {
                            lemma_spec_rejects(old(prg)@, i, prg_in, stack_in,
                                ResolveErr::NoOpenBlock, i);
                        }
                        return Err(("blokk-slutt uten apen blokk", pos_of(prg, i)));
                    }
                };
                put_arg(prg, i, param_i);
                stack.push(param_i);
            }
            _ => {}
        }
        proof {
            if prg_in[i as int].op == Operator::In && stack_in.len() > 0 {
                assert(stack_in.drop_last().push(stack_in.last()) =~= stack_in);
            }
            assert(resolve_step(prg_in, stack_in, i)
                == (ResolveFlow::Going { prg: prg@, stack: stack@ }));
            lemma_step_same(prg_in, stack_in, i);
            lemma_same_trans(old(prg)@, prg_in, prg@);
            assert(resolve_upto(old(prg)@, (i + 1) as nat)
                == (ResolveFlow::Going { prg: prg@, stack: stack@ }));
        }
        i += 1;
    }
    if stack.len() > 0 {
        let at = stack[stack.len() - 1];
        return Err(("ikke stengt blokk", pos_of(prg, at)));
    }
    let res = duplicate_program(prg);
    Ok(res)
}

/// Pop chained `elif` openers, retargeting each at `i` (see
/// `unwind_elifs`).
fn unwind_elif_chain(prg: &mut Vec<Instruction>, stack: &mut Vec<usize>, i: usize, n: usize)
    requires
        old(prg)@.len() == n,
        i < n,
        forall|k: int| 0 <= k < old(stack)@.len() ==> old(stack)@[k] < n,
    ensures
        final(prg)@.len() == n,
        forall|k: int| 0 <= k < final(stack)@.len() ==> final(stack)@[k] < n,
        final(prg)@ == unwind_elifs(old(prg)@, old(stack)@, i).0,
        final(stack)@ == unwind_elifs(old(prg)@, old(stack)@, i).1,
        all_same_but_arg(old(prg)@, final(prg)@),
    decreases old(stack)@.len(),
{
    proof {
        lemma_unwind_same(old(prg)@, old(stack)@, i);
    }
    if stack.len() == 0 {
        return;
    }
    let pot = stack[stack.len() - 1];
    if prg[pot].op == Operator::Elif {
        stack.pop();
        put_arg(prg, pot, i);
        unwind_elif_chain(prg, stack, i, n);
    }
}

} // verus!
