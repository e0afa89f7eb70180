use vstd::prelude::*;
use crate::ops::{Instruction, Operator, Pos, TypeLiteral, Value};
use crate::ops::{char_values, lemma_char_values_len, lemma_char_values_index};
use crate::Runtime;

verus! {

/// What shell-like unescaping yields on a text: the unquoted, unescaped
/// characters; or nothing, where the text holds an invalid escape.
pub uninterp spec fn unescape_of(s: Seq<char>) -> Option<Seq<char>>;

/// Relies on snailquote::unescape: strips single/double quotes and
/// resolves backslash escapes; deterministic in the text alone; errors on
/// an invalid escape sequence.
#[verifier::external_body]
fn unescape_text(s: &str) -> (r: Option<String>)
    ensures
        (match r {
            Some(t) => unescape_of(s@) == Some(t@),
            None => unescape_of(s@) is None,
        }),
{
    match snailquote::unescape(s) {
        Ok(t) => Some(t),
        Err(_) => None,
    }
}

/// Unescape a text and spread it into character values, the form strings
/// take in the arena. Nothing where the text holds an invalid escape.
pub fn parse_char(x: &str) -> (r: Option<Vec<Value>>)
    ensures
        (match r {
            Some(vals) => (match unescape_of(x@) {
                Some(cs) => vals@ == char_values(cs),
                None => false,
            }),
            None => unescape_of(x@) is None,
        }),
{
    let t = match unescape_text(x) {
        Some(t) => t,
        None => {
            return None;
        }
    };
    let n = t.as_str().unicode_len();
    let mut res: Vec<Value> = Vec::new();
    let mut k: usize = 0;
    while k < n
        invariant
            n == t@.len(),
            k <= n,
            res@.len() == k,
            forall|j: int| 0 <= j < k ==> res@[j] == Value::Char(t@[j]),
        decreases n - k,
    {
        let c = t.as_str().get_char(k);
        res.push(Value::Char(c));
        k += 1;
    }
    proof {
        lemma_char_values_len(t@);
        assert forall|j: int| 0 <= j < res@.len()
            implies res@[j] == char_values(t@)[j] by {
            lemma_char_values_index(t@, j);
        }
        assert(res@ =~= char_values(t@));
    }
    Some(res)
}

/// An instruction as the parser's specification sees it (the symbol name
/// and position as character sequences).
pub struct InstrView {
    pub op: Operator,
    pub arg: Option<usize>,
    pub val: Option<Value>,
    pub name: Option<Seq<char>>,
    pub line: int,
    pub col: int,
    pub path: Seq<char>,
}

pub open spec fn iview(x: Instruction) -> InstrView {
    InstrView {
        op: x.op,
        arg: x.arg,
        val: x.val,
        name: (match x.name {
            Some(s) => Some(s@),
            None => None,
        }),
        line: x.pos.0 as int,
        col: x.pos.1 as int,
        path: x.pos.2@,
    }
}

pub open spec fn ivs(s: Seq<Instruction>) -> Seq<InstrView>
    decreases s.len(),
{
    if s.len() == 0 {
        Seq::empty()
    } else {
        ivs(s.drop_last()).push(iview(s.last()))
    }
}

pub proof fn lemma_ivs_push(s: Seq<Instruction>, x: Instruction)
    ensures
        ivs(s.push(x)) == ivs(s).push(iview(x)),
{
    assert(s.push(x).drop_last() =~= s);
}

/// A position as the specification sees it.
pub open spec fn pos_view(p: Pos) -> (int, int, Seq<char>) {
    (p.0 as int, p.1 as int, p.2@)
}

/// A freshly parsed instruction (no jump target yet).
pub open spec fn mk(op: Operator, val: Option<Value>, name: Option<Seq<char>>,
    pos: (int, int, Seq<char>)) -> InstrView {
    InstrView { op, arg: None, val, name, line: pos.0, col: pos.1, path: pos.2 }
}

/// The instruction a fixed token maps to: an operator word, a type
/// literal, or a truth word. Anything else is none.
pub open spec fn simple_instr(w: Seq<char>, pos: (int, int, Seq<char>)) -> Option<InstrView> {
    if w == "skriv"@ { Some(mk(Operator::Print, None, None, pos)) }
    else if w == "skrivnl"@ { Some(mk(Operator::PrintLn, None, None, pos)) }
    else if w == "spør"@ { Some(mk(Operator::Input, None, None, pos)) }
    else if w == "feilsøk"@ { Some(mk(Operator::Debug, None, None, pos)) }
    else if w == "+"@ { Some(mk(Operator::Add, None, None, pos)) }
    else if w == "-"@ { Some(mk(Operator::Sub, None, None, pos)) }
    else if w == "*"@ { Some(mk(Operator::Mult, None, None, pos)) }
    else if w == "/"@ { Some(mk(Operator::Div, None, None, pos)) }
    else if w == "--"@ { Some(mk(Operator::BikeShed, None, None, pos)) }
    else if w == "ikke"@ { Some(mk(Operator::Not, None, None, pos)) }
    else if w == "og"@ { Some(mk(Operator::And, None, None, pos)) }
    else if w == "eller"@ { Some(mk(Operator::Or, None, None, pos)) }
    else if w == "hvis"@ { Some(mk(Operator::If, None, None, pos)) }
    else if w == "ellers"@ { Some(mk(Operator::Else, None, None, pos)) }
    else if w == "ellvis"@ { Some(mk(Operator::Elif, None, None, pos)) }
    else if w == "slutt"@ { Some(mk(Operator::End, None, None, pos)) }
    else if w == "gjør"@ { Some(mk(Operator::Do, None, None, pos)) }
    else if w == "inni"@ { Some(mk(Operator::In, None, None, pos)) }
    else if w == "når"@ { Some(mk(Operator::While, None, None, pos)) }
    else if w == "dup"@ { Some(mk(Operator::Dup, None, None, pos)) }
    else if w == "rot"@ { Some(mk(Operator::Rot, None, None, pos)) }
    else if w == "over"@ { Some(mk(Operator::Over, None, None, pos)) }
    else if w == "slipp"@ { Some(mk(Operator::Drop, None, None, pos)) }
    else if w == "snu"@ { Some(mk(Operator::Swap, None, None, pos)) }
    else if w == "avslutt"@ { Some(mk(Operator::Exit, None, None, pos)) }
    else if w == "omgjør"@ { Some(mk(Operator::Cast, None, None, pos)) }
    else if w == "konst"@ { Some(mk(Operator::Const, None, None, pos)) }
    else if w == "minne"@ { Some(mk(Operator::Mem, None, None, pos)) }
    else if w == "funk"@ { Some(mk(Operator::Func, None, None, pos)) }
    else if w == "let"@ { Some(mk(Operator::Let, None, None, pos)) }
    else if w == "="@ { Some(mk(Operator::Eq, None, None, pos)) }
    else if w == ">"@ { Some(mk(Operator::Gt, None, None, pos)) }
    else if w == ">="@ { Some(mk(Operator::Ge, None, None, pos)) }
    else if w == "<"@ { Some(mk(Operator::Lt, None, None, pos)) }
    else if w == "<="@ { Some(mk(Operator::Le, None, None, pos)) }
    else if w == "@"@ { Some(mk(Operator::Read, None, None, pos)) }
    else if w == "->"@ { Some(mk(Operator::Write, None, None, pos)) }
    else if w == "Helt"@ {
        Some(mk(Operator::Literal, Some(Value::TypeLiteral(TypeLiteral::Int)), None, pos))
    }
    else if w == "Bool"@ {
        Some(mk(Operator::Literal, Some(Value::TypeLiteral(TypeLiteral::Bool)), None, pos))
    }
    else if w == "Flyt"@ {
        Some(mk(Operator::Literal, Some(Value::TypeLiteral(TypeLiteral::Float)), None, pos))
    }
    else if w == "Str"@ {
        Some(mk(Operator::Literal, Some(Value::TypeLiteral(TypeLiteral::Str)), None, pos))
    }
    else if w == "Bokst"@ {
        Some(mk(Operator::Literal, Some(Value::TypeLiteral(TypeLiteral::Char)), None, pos))
    }
    else if w == "Pek"@ {
        Some(mk(Operator::Literal, Some(Value::TypeLiteral(TypeLiteral::Ptr)), None, pos))
    }
    else if w == "Byte"@ {
        Some(mk(Operator::Literal, Some(Value::TypeLiteral(TypeLiteral::Byte)), None, pos))
    }
    else if w == "sann"@ {
        Some(mk(Operator::Literal, Some(Value::Bool(true)), None, pos))
    }
    else if w == "usann"@ {
        Some(mk(Operator::Literal, Some(Value::Bool(false)), None, pos))
    }
    else { None }
}

/// A decimal point at `d` with nothing but digits on either side.
pub open spec fn dotted_at(b: Seq<char>, d: int) -> bool {
    0 <= d < b.len() && b[d] == '.'
        && crate::strutil::all_digits(b.subrange(0, d))
        && crate::strutil::all_digits(b.subrange(d + 1, b.len() as int))
}

/// A float token without its sign.
pub open spec fn float_body(w: Seq<char>) -> Seq<char> {
    if w.len() > 0 && (w[0] == '+' || w[0] == '-') {
        w.subrange(1, w.len() as int)
    } else {
        w
    }
}

/// An exponent mark.
pub open spec fn is_e_mark(c: char) -> bool {
    c == 'e' || c == 'E'
}

/// The first exponent mark at or after `from`.
pub open spec fn first_e(w: Seq<char>, from: int) -> Option<int>
    decreases w.len() - from,
{
    if from < 0 || from >= w.len() {
        None
    } else if is_e_mark(w[from]) {
        Some(from)
    } else {
        first_e(w, from + 1)
    }
}

/// A significand: digits alone, or digits with one decimal point and at
/// least one digit.
pub open spec fn mantissa_ok(seg: Seq<char>) -> bool {
    (seg.len() >= 1 && crate::strutil::all_digits(seg))
        || (seg.len() >= 2 && (exists|d: int| #[trigger] dotted_at(seg, d)))
}

/// An exponent: an optional sign, then one or more digits.
pub open spec fn exp_ok(seg: Seq<char>) -> bool {
    float_body(seg).len() >= 1 && crate::strutil::all_digits(float_body(seg))
}

/// The special float words, in any letter case.
pub open spec fn special_ok(b: Seq<char>) -> bool {
    ||| (b.len() == 3 && (b[0] == 'i' || b[0] == 'I') && (b[1] == 'n' || b[1] == 'N')
        && (b[2] == 'f' || b[2] == 'F'))
    ||| (b.len() == 8 && (b[0] == 'i' || b[0] == 'I') && (b[1] == 'n' || b[1] == 'N')
        && (b[2] == 'f' || b[2] == 'F') && (b[3] == 'i' || b[3] == 'I')
        && (b[4] == 'n' || b[4] == 'N') && (b[5] == 'i' || b[5] == 'I')
        && (b[6] == 't' || b[6] == 'T') && (b[7] == 'y' || b[7] == 'Y'))
    ||| (b.len() == 3 && (b[0] == 'n' || b[0] == 'N') && (b[1] == 'a' || b[1] == 'A')
        && (b[2] == 'n' || b[2] == 'N'))
}

/// What the host language's float parser accepts (and so what this
/// library takes as a float literal): an optional sign, then either one
/// of the special words or a significand with an optional exponent.
pub open spec fn float_like(w: Seq<char>) -> bool {
    special_ok(float_body(w)) || (match first_e(float_body(w), 0) {
        None => mantissa_ok(float_body(w)),
        Some(j) => mantissa_ok(float_body(w).subrange(0, j))
            && exp_ok(float_body(w).subrange(j + 1, float_body(w).len() as int)),
    })
}

/// The first occurrence of `c` at or after `from`.
pub open spec fn first_at(w: Seq<char>, from: int, c: char) -> Option<int>
    decreases w.len() - from,
{
    if from < 0 || from >= w.len() {
        None
    } else if w[from] == c {
        Some(from)
    } else {
        first_at(w, from + 1, c)
    }
}

/// What a bracketed index expands to: a fixed token or an integer becomes
/// a literal to add to the pointer; anything else a symbol reference.
pub open spec fn index_views(w: Seq<char>, pos: (int, int, Seq<char>)) -> Seq<InstrView> {
    match simple_instr(w, pos) {
        Some(x) => Seq::empty().push(x).push(mk(Operator::Add, None, None, pos)),
        None => (match crate::strutil::parse_int_spec(w) {
            Some(v) => Seq::empty().push(mk(Operator::Literal, Some(Value::Int(v)), None, pos))
                .push(mk(Operator::Add, None, None, pos)),
            None => Seq::empty().push(mk(Operator::Word, None, Some(w), pos))
                .push(mk(Operator::Add, None, None, pos)),
        }),
    }
}

/// The indexing sugar on a symbol token: leading read/write marks and
/// bracketed indexes are collected until an ordinary character starts the
/// symbol itself; the expansion is the symbol reference, then the index
/// additions, then the read or write. A token of only marks expands to
/// nothing.
pub open spec fn expand_from(w: Seq<char>, pos: (int, int, Seq<char>), i: int,
    rw: Option<Operator>, indexing: Seq<InstrView>) -> Seq<InstrView>
    decreases w.len() - i,
{
    if i < 0 || i >= w.len() {
        Seq::empty()
    } else {
        let c = w[i];
        if c == '-' {
            if i + 1 < w.len() && w[i + 1] == '>' && rw is None {
                expand_from(w, pos, i + 2, Some(Operator::Write), indexing)
            } else {
                expand_from(w, pos, i + 1, rw, indexing)
            }
        } else if c == '@' {
            if rw is None {
                expand_from(w, pos, i + 1, Some(Operator::Read), indexing)
            } else {
                expand_from(w, pos, i + 1, rw, indexing)
            }
        } else if c == '[' {
            match first_at(w, i + 1, ']') {
                Some(j) => if i + 1 <= j < w.len() {
                    expand_from(w, pos, j + 1, rw,
                        indexing + index_views(w.subrange(i + 1, j), pos))
                } else {
                    Seq::empty()
                },
                None => expand_from(w, pos, i + 1, rw, indexing),
            }
        } else {
            Seq::empty().push(mk(Operator::Word, None, Some(w.skip(i)), pos)) + indexing
                + (match rw {
                    Some(op) => Seq::empty().push(mk(op, None, None, pos)),
                    None => Seq::empty(),
                })
        }
    }
}

/// What one token contributes: instructions to append and arena cells to
/// write (a string literal of more than one character is materialized);
/// or a rejection, where the token is an unusable string literal.
pub enum TokOut {
    Emit(Seq<InstrView>, Seq<Value>),
    Bad,
}

pub open spec fn parse_tok_spec(tok: String, pos: Pos, top: int) -> TokOut {
    let w = tok@;
    let pv = pos_view(pos);
    if simple_instr(w, pv) is Some {
        TokOut::Emit(Seq::empty().push(simple_instr(w, pv).unwrap()), Seq::empty())
    } else if crate::strutil::parse_int_spec(w) is Some {
        TokOut::Emit(
            Seq::empty().push(mk(Operator::Literal,
                Some(Value::Int(crate::strutil::parse_int_spec(w).unwrap())), None, pv)),
            Seq::empty())
    } else if float_like(w) {
        TokOut::Emit(
            Seq::empty().push(mk(Operator::Literal, None, Some(w), pv)),
            Seq::empty())
    } else if w.len() > 0 && w[0] == '"' {
        match unescape_of(w) {
            None => TokOut::Bad,
            Some(cs) => {
                if cs.len() == 1 {
                    TokOut::Emit(
                        Seq::empty().push(mk(Operator::Literal, Some(Value::Char(cs[0])),
                            None, pv)),
                        Seq::empty())
                } else if cs.len() == 0 {
                    TokOut::Bad
                } else {
                    TokOut::Emit(
                        Seq::empty().push(mk(Operator::Literal,
                            Some(Value::Str(top as usize, cs.len() as usize)), None, pv)),
                        char_values(cs))
                }
            }
        }
    } else if w.len() == 0 {
        TokOut::Emit(Seq::empty(), Seq::empty())
    } else {
        TokOut::Emit(expand_from(w, pv, 0, None, Seq::empty()), Seq::empty())
    }
}

/// The parser's state after its first `i` tokens: the instruction views
/// produced and the arena cells written; or the index of the token it
/// rejected.
pub enum ParseFlow {
    Going(Seq<InstrView>, Seq<Value>),
    Bad(int),
}

pub open spec fn parse_upto(toks: Seq<(String, Pos)>, i: nat, top0: int) -> ParseFlow
    decreases i,
{
    if i == 0 {
        ParseFlow::Going(Seq::empty(), Seq::empty())
    } else {
        match parse_upto(toks, (i - 1) as nat, top0) {
            ParseFlow::Bad(x) => ParseFlow::Bad(x),
            ParseFlow::Going(ins, mm) => {
                match parse_tok_spec(toks[i - 1].0, toks[i - 1].1, top0 + mm.len()) {
                    TokOut::Bad => ParseFlow::Bad(i - 1),
                    TokOut::Emit(xs, dm) => ParseFlow::Going(ins + xs, mm + dm),
                }
            }
        }
    }
}

/// The first occurrence of `c` in `w` at or after `from`, and that
/// nothing before it matches.
fn find_at(w: &String, from: usize, c: char) -> (r: Option<usize>)
    ensures
        (match r {
            Some(j) => first_at(w@, from as int, c) == Some(j as int) && from <= j < w@.len(),
            None => first_at(w@, from as int, c) is None,
        }),
{
    let n = w.as_str().unicode_len();
    let mut k = from;
    while k < n
        invariant
            n == w@.len(),
            from <= k,
            first_at(w@, from as int, c) == first_at(w@, k as int, c),
        decreases n - k,
    {
        if w.as_str().get_char(k) == c {
            return Some(k);
        }
        k += 1;
    }
    None
}

/// Whether every character of `w` between `a` and `b` is a decimal digit.
fn digits_between(w: &String, a: usize, b: usize) -> (r: bool)
    requires
        a <= b <= w@.len(),
    ensures
        r == crate::strutil::all_digits(w@.subrange(a as int, b as int)),
{
    let mut k = a;
    while k < b
        invariant
            a <= k <= b,
            b <= w@.len(),
            forall|x: int| a <= x < k ==> crate::strutil::is_digit(#[trigger] w@[x]),
        decreases b - k,
    {
        let c = w.as_str().get_char(k);
        if !(c >= '0' && c <= '9') {
            proof {
                assert(!crate::strutil::is_digit(w@.subrange(a as int, b as int)[k - a]));
            }
            return false;
        }
        k += 1;
    }
    proof {
        assert forall|x: int| 0 <= x < b - a
            implies crate::strutil::is_digit(#[trigger] w@.subrange(a as int, b as int)[x]) by {
            assert(w@.subrange(a as int, b as int)[x] == w@[a + x]);
        }
    }
    true
}

/// The first exponent mark in `w` at or after `from`.
fn find_e(w: &String, from: usize) -> (r: Option<usize>)
    ensures
        (match r {
            Some(j) => first_e(w@, from as int) == Some(j as int) && from <= j < w@.len(),
            None => first_e(w@, from as int) is None,
        }),
{
    let n = w.as_str().unicode_len();
    let mut k = from;
    while k < n
        invariant
            n == w@.len(),
            from <= k,
            first_e(w@, from as int) == first_e(w@, k as int),
        decreases n - k,
    {
        let c = w.as_str().get_char(k);
        if c == 'e' || c == 'E' {
            return Some(k);
        }
        k += 1;
    }
    None
}

/// Nothing before the first exponent mark is one.
proof fn lemma_first_e_some(w: Seq<char>, from: int)
    ensures
        (match first_e(w, from) {
            Some(j) => from <= j < w.len() && is_e_mark(w[j])
                && (forall|x: int| from <= x < j ==> !is_e_mark(#[trigger] w[x])),
            None => true,
        }),
    decreases w.len() - from,
{
    if 0 <= from < w.len() && !is_e_mark(w[from]) {
        lemma_first_e_some(w, from + 1);
    }
}

/// With no exponent mark found, none stands anywhere after `from`.
proof fn lemma_first_e_none(w: Seq<char>, from: int)
    requires
        from >= 0,
        first_e(w, from) is None,
    ensures
        forall|x: int| from <= x < w.len() ==> !is_e_mark(#[trigger] w[x]),
    decreases w.len() - from,
{
    if 0 <= from < w.len() {
        lemma_first_e_none(w, from + 1);
    }
}

/// Searching a token's sign-stripped body for an exponent mark is the
/// same as searching the token from past its sign.
proof fn lemma_first_e_shift(w: Seq<char>, start: int, b: Seq<char>, k: int)
    requires
        0 <= start,
        0 <= k,
        b.len() == w.len() - start,
        forall|x: int| 0 <= x < b.len() ==> #[trigger] b[x] == w[start + x],
    ensures
        first_e(b, k) == (match first_e(w, start + k) {
            Some(j) => Some(j - start),
            None => None::<int>,
        }),
    decreases b.len() - k,
{
    if k < b.len() {
        if !is_e_mark(b[k]) {
            lemma_first_e_shift(w, start, b, k + 1);
        }
    }
}

/// Whether the characters of `w` between `a` and `bnd` form a
/// significand.
fn mantissa_between(w: &String, a: usize, bnd: usize) -> (r: bool)
    requires
        a <= bnd <= w@.len(),
    ensures
        r == mantissa_ok(w@.subrange(a as int, bnd as int)),
{
    let ghost seg = w@.subrange(a as int, bnd as int);
    if bnd - a >= 1 && digits_between(w, a, bnd) {
        return true;
    }
    if bnd - a < 2 {
        return false;
    }
    let d0 = match find_at(w, a, '.') {
        Some(d) => d,
        None => {
            proof {
                lemma_first_at_none(w@, a as int, '.');
                assert forall|d: int| true implies !(#[trigger] dotted_at(seg, d)) by {
                    if 0 <= d < seg.len() {
                        assert(seg[d] == w@[a + d]);
                    }
                }
            }
            return false;
        }
    };
    proof {
        lemma_first_at_some(w@, a as int, '.');
    }
    if d0 >= bnd {
        proof {
            assert forall|d: int| true implies !(#[trigger] dotted_at(seg, d)) by {
                if 0 <= d < seg.len() {
                    assert(seg[d] == w@[a + d]);
                    if seg[d] == '.' {
                        assert(first_at(w@, a as int, '.') == Some(d0 as int));
                    }
                }
            }
        }
        return false;
    }
    let left = digits_between(w, a, d0);
    let right = digits_between(w, d0 + 1, bnd);
    if left && right {
        proof {
            let dd = d0 - a;
            assert(seg[dd] == '.');
            assert(seg.subrange(0, dd) =~= w@.subrange(a as int, d0 as int));
            assert(seg.subrange(dd + 1, seg.len() as int)
                =~= w@.subrange(d0 as int + 1, bnd as int));
            assert(dotted_at(seg, dd));
        }
        true
    } else {
        proof {
            let dd = d0 - a;
            assert forall|d: int| true implies !(#[trigger] dotted_at(seg, d)) by {
                if 0 <= d < seg.len() && seg[d] == '.' {
                    assert(seg[d] == w@[a + d]);
                    if d < dd {
                        assert(first_at(w@, a as int, '.') == Some(d0 as int));
                    } else if d > dd {
                        assert(seg.subrange(0, d)[dd] == '.');
                        assert(!crate::strutil::is_digit('.'));
                    } else {
                        assert(seg.subrange(0, dd) =~= w@.subrange(a as int, d0 as int));
                        assert(seg.subrange(dd + 1, seg.len() as int)
                            =~= w@.subrange(d0 as int + 1, bnd as int));
                    }
                }
            }
        }
        false
    }
}

/// Whether the token from `start` on is one of the special float words.
fn special_check(w: &String, start: usize) -> (r: bool)
    requires
        start <= w@.len(),
    ensures
        r == special_ok(w@.subrange(start as int, w@.len() as int)),
{
    let n = w.as_str().unicode_len();
    let rem = n - start;
    if rem == 3 {
        let c0 = w.as_str().get_char(start);
        let c1 = w.as_str().get_char(start + 1);
        let c2 = w.as_str().get_char(start + 2);
        ((c0 == 'i' || c0 == 'I') && (c1 == 'n' || c1 == 'N') && (c2 == 'f' || c2 == 'F'))
            || ((c0 == 'n' || c0 == 'N') && (c1 == 'a' || c1 == 'A')
                && (c2 == 'n' || c2 == 'N'))
    } else if rem == 8 {
        let c0 = w.as_str().get_char(start);
        let c1 = w.as_str().get_char(start + 1);
        let c2 = w.as_str().get_char(start + 2);
        let c3 = w.as_str().get_char(start + 3);
        let c4 = w.as_str().get_char(start + 4);
        let c5 = w.as_str().get_char(start + 5);
        let c6 = w.as_str().get_char(start + 6);
        let c7 = w.as_str().get_char(start + 7);
        (c0 == 'i' || c0 == 'I') && (c1 == 'n' || c1 == 'N') && (c2 == 'f' || c2 == 'F')
            && (c3 == 'i' || c3 == 'I') && (c4 == 'n' || c4 == 'N')
            && (c5 == 'i' || c5 == 'I') && (c6 == 't' || c6 == 'T')
            && (c7 == 'y' || c7 == 'Y')
    } else {
        false
    }
}

/// Whether a token is a float literal of the host grammar.
fn is_float_like(w: &String) -> (r: bool)
    ensures
        r == float_like(w@),
{
    let n = w.as_str().unicode_len();
    if n == 0 {
        return false;
    }
    let first = w.as_str().get_char(0);
    let signed = first == '+' || first == '-';
    let start: usize = if signed { 1 } else { 0 };
    let ghost b = w@.subrange(start as int, n as int);
    proof {
        assert(b =~= float_body(w@));
        assert forall|x: int| 0 <= x < b.len() implies #[trigger] b[x] == w@[start + x] by {}
    }
    if special_check(w, start) {
        return true;
    }
    match find_e(w, start) {
        None => {
            proof {
                lemma_first_e_shift(w@, start as int, b, 0);
            }
            let m = mantissa_between(w, start, n);
            proof {
                assert(w@.subrange(start as int, n as int) == b);
            }
            m
        }
        Some(j) => {
            proof {
                lemma_first_e_shift(w@, start as int, b, 0);
                assert(first_e(b, 0) == Some(j - start));
            }
            let m = mantissa_between(w, start, j);
            proof {
                assert(w@.subrange(start as int, j as int) =~= b.subrange(0, j - start));
            }
            if !m {
                return false;
            }
            let ghost eseg = b.subrange(j - start + 1, b.len() as int);
            proof {
                assert(eseg =~= w@.subrange(j as int + 1, n as int));
            }
            let es: usize = if j + 1 < n {
                let c = w.as_str().get_char(j + 1);
                if c == '+' || c == '-' {
                    j + 2
                } else {
                    j + 1
                }
            } else {
                j + 1
            };
            proof {
                assert(float_body(eseg) =~= w@.subrange(es as int, n as int));
            }
            if es >= n {
                return false;
            }
            let ed = digits_between(w, es, n);
            proof {
                assert(w@.subrange(es as int, n as int) == float_body(eseg));
            }
            ed
        }
    }
}

/// Before the first occurrence nothing matches.
proof fn lemma_first_at_some(w: Seq<char>, from: int, c: char)
    ensures
        (match first_at(w, from, c) {
            Some(j) => from <= j < w.len() && w[j] == c
                && (forall|x: int| from <= x < j ==> #[trigger] w[x] != c),
            None => true,
        }),
    decreases w.len() - from,
{
    if 0 <= from < w.len() && w[from] != c {
        lemma_first_at_some(w, from + 1, c);
    }
}

/// With no occurrence, nothing matches anywhere after `from`.
proof fn lemma_first_at_none(w: Seq<char>, from: int, c: char)
    requires
        from >= 0,
        first_at(w, from, c) is None,
    ensures
        forall|x: int| from <= x < w.len() ==> #[trigger] w[x] != c,
    decreases w.len() - from,
{
    if 0 <= from < w.len() {
        lemma_first_at_none(w, from + 1, c);
    }
}

proof fn lemma_ivs_concat(a: Seq<Instruction>, b: Seq<Instruction>)
    ensures
        ivs(a + b) == ivs(a) + ivs(b),
    decreases b.len(),
{
    if b.len() == 0 {
        assert(a + b =~= a);
        assert(ivs(a) + ivs(b) =~= ivs(a));
    } else {
        lemma_ivs_concat(a, b.drop_last());
        assert((a + b).drop_last() =~= a + b.drop_last());
        assert((a + b).last() == b.last());
        assert(ivs(a) + ivs(b) =~= (ivs(a) + ivs(b.drop_last())).push(iview(b.last())));
    }
}

fn eq_lit(w: &String, lit: &str) -> (r: bool)
    ensures
        r == (w@ == lit@),
{
    let s = String::from_str(lit);
    w.eq(&s)
}

fn clone_pos(p: &Pos) -> (r: Pos)
    ensures
        r == *p,
{
    (p.0, p.1, p.2.clone())
}

/// The instruction for a fixed token, if it is one (see `simple_instr`).
fn token_simple(w: &String, pos: &Pos) -> (r: Option<Instruction>)
    ensures
        (match simple_instr(w@, pos_view(*pos)) {
            Some(x) => (match r {
                Some(ri) => iview(ri) == x,
                None => false,
            }),
            None => r is None,
        }),
{
    let op: Option<Operator> =
        if eq_lit(w, "skriv") { Some(Operator::Print) }
        else if eq_lit(w, "skrivnl") { Some(Operator::PrintLn) }
        else if eq_lit(w, "spør") { Some(Operator::Input) }
        else if eq_lit(w, "feilsøk") { Some(Operator::Debug) }
        else if eq_lit(w, "+") { Some(Operator::Add) }
        else if eq_lit(w, "-") { Some(Operator::Sub) }
        else if eq_lit(w, "*") { Some(Operator::Mult) }
        else if eq_lit(w, "/") { Some(Operator::Div) }
        else if eq_lit(w, "--") { Some(Operator::BikeShed) }
        else if eq_lit(w, "ikke") { Some(Operator::Not) }
        else if eq_lit(w, "og") { Some(Operator::And) }
        else if eq_lit(w, "eller") { Some(Operator::Or) }
        else if eq_lit(w, "hvis") { Some(Operator::If) }
        else if eq_lit(w, "ellers") { Some(Operator::Else) }
        else if eq_lit(w, "ellvis") { Some(Operator::Elif) }
        else if eq_lit(w, "slutt") { Some(Operator::End) }
        else if eq_lit(w, "gjør") { Some(Operator::Do) }
        else if eq_lit(w, "inni") { Some(Operator::In) }
        else if eq_lit(w, "når") { Some(Operator::While) }
        else if eq_lit(w, "dup") { Some(Operator::Dup) }
        else if eq_lit(w, "rot") { Some(Operator::Rot) }
        else if eq_lit(w, "over") { Some(Operator::Over) }
        else if eq_lit(w, "slipp") { Some(Operator::Drop) }
        else if eq_lit(w, "snu") { Some(Operator::Swap) }
        else if eq_lit(w, "avslutt") { Some(Operator::Exit) }
        else if eq_lit(w, "omgjør") { Some(Operator::Cast) }
        else if eq_lit(w, "konst") { Some(Operator::Const) }
        else if eq_lit(w, "minne") { Some(Operator::Mem) }
        else if eq_lit(w, "funk") { Some(Operator::Func) }
        else if eq_lit(w, "let") { Some(Operator::Let) }
        else if eq_lit(w, "=") { Some(Operator::Eq) }
        else if eq_lit(w, ">") { Some(Operator::Gt) }
        else if eq_lit(w, ">=") { Some(Operator::Ge) }
        else if eq_lit(w, "<") { Some(Operator::Lt) }
        else if eq_lit(w, "<=") { Some(Operator::Le) }
        else if eq_lit(w, "@") { Some(Operator::Read) }
        else if eq_lit(w, "->") { Some(Operator::Write) }
        else { None };
    if let Some(o) = op {
        return Some(Instruction::new(o, None, None, clone_pos(pos)));
    }
    let val: Option<Value> =
        if eq_lit(w, "Helt") { Some(Value::TypeLiteral(TypeLiteral::Int)) }
        else if eq_lit(w, "Bool") { Some(Value::TypeLiteral(TypeLiteral::Bool)) }
        else if eq_lit(w, "Flyt") { Some(Value::TypeLiteral(TypeLiteral::Float)) }
        else if eq_lit(w, "Str") { Some(Value::TypeLiteral(TypeLiteral::Str)) }
        else if eq_lit(w, "Bokst") { Some(Value::TypeLiteral(TypeLiteral::Char)) }
        else if eq_lit(w, "Pek") { Some(Value::TypeLiteral(TypeLiteral::Ptr)) }
        else if eq_lit(w, "Byte") { Some(Value::TypeLiteral(TypeLiteral::Byte)) }
        else if eq_lit(w, "sann") { Some(Value::Bool(true)) }
        else if eq_lit(w, "usann") { Some(Value::Bool(false)) }
        else { None };
    match val {
        Some(v) => Some(Instruction::new(Operator::Literal, Some(v), None, clone_pos(pos))),
        None => None,
    }
}

/// Append the expansion of a bracketed index (see `index_views`).
fn push_index(idx: &String, pos: &Pos, out: &mut Vec<Instruction>)
    ensures
        ivs(final(out)@) == ivs(old(out)@) + index_views(idx@, pos_view(*pos)),
{
    let ghost base = out@;
    match token_simple(idx, pos) {
        Some(x) => {
            proof {
                lemma_ivs_push(out@, x);
            }
            out.push(x);
        }
        None => {
            match crate::strutil::parse_int(idx.as_str()) {
                Some(v) => {
                    let x = Instruction::new(Operator::Literal, Some(Value::Int(v)), None,
                        clone_pos(pos));
                    proof {
                        lemma_ivs_push(out@, x);
                    }
                    out.push(x);
                }
                None => {
                    let x = Instruction::new(Operator::Word, None, Some(idx.clone()),
                        clone_pos(pos));
                    proof {
                        lemma_ivs_push(out@, x);
                    }
                    out.push(x);
                }
            }
        }
    }
    let a = Instruction::new(Operator::Add, None, None, clone_pos(pos));
    proof {
        lemma_ivs_push(out@, a);
    }
    out.push(a);
    proof {
        assert(ivs(out@) =~= ivs(base) + index_views(idx@, pos_view(*pos)));
    }
}

/// Append the expansion of a symbol token with its indexing sugar (see
/// `expand_from`).
fn parse_word(word: &String, pos: &Pos, out: &mut Vec<Instruction>)
    ensures
        ivs(final(out)@) == ivs(old(out)@)
            + expand_from(word@, pos_view(*pos), 0, None, Seq::empty()),
{
    let n = word.as_str().unicode_len();
    let mut indexing: Vec<Instruction> = Vec::new();
    let mut rw: Option<Operator> = None;
    let mut i: usize = 0;
    let ghost pv = pos_view(*pos);
    proof {
        assert(ivs(indexing@) =~= Seq::<InstrView>::empty());
    }
    while i < n
        invariant
            n == word@.len(),
            i <= n,
            out@ == old(out)@,
            expand_from(word@, pv, 0, None, Seq::empty())
                == expand_from(word@, pv, i as int, rw, ivs(indexing@)),
            rw is Some ==> (rw == Some(Operator::Read) || rw == Some(Operator::Write)),
            pv == pos_view(*pos),
        decreases n - i,
    {
        let c = word.as_str().get_char(i);
        if c == '-' {
            if i + 1 < n {
                let c2 = word.as_str().get_char(i + 1);
                if c2 == '>' && rw.is_none() {
                    rw = Some(Operator::Write);
                    i = i + 2;
                } else {
                    i = i + 1;
                }
            } else {
                i = i + 1;
            }
        } else if c == '@' {
            if rw.is_none() {
                rw = Some(Operator::Read);
            }
            i = i + 1;
        } else if c == '[' {
            match find_at(word, i + 1, ']') {
                Some(j) => {
                    let piece = word.as_str().substring_char(i + 1, j);
                    let idx = String::from_str(piece);
                    push_index(&idx, pos, &mut indexing);
                    i = j + 1;
                }
                None => {
                    i = i + 1;
                }
            }
        } else {
            let rest = word.as_str().substring_char(i, n);
            let wi = Instruction::new(Operator::Word, None, Some(String::from_str(rest)),
                clone_pos(pos));
            let ghost base = out@;
            proof {
                lemma_ivs_push(out@, wi);
            }
            out.push(wi);
            let ghost mid = out@;
            let ghost ind = indexing@;
            proof {
                lemma_ivs_concat(out@, indexing@);
            }
            out.append(&mut indexing);
            proof {
                assert(out@ == mid + ind);
            }
            match rw {
                Some(op) => {
                    let ri = Instruction::new(op, None, None, clone_pos(pos));
                    proof {
                        lemma_ivs_push(out@, ri);
                    }
                    out.push(ri);
                    proof {
                        assert(ivs(out@) =~= ivs(base)
                            + expand_from(word@, pv, i as int, rw, ivs(ind)));
                    }
                }
                None => {
                    proof {
                        assert(ivs(out@) =~= ivs(base)
                            + expand_from(word@, pv, i as int, rw, ivs(ind)));
                    }
                }
            }
            return;
        }
    }
    proof {
        assert(expand_from(word@, pv, i as int, rw, ivs(indexing@))
            =~= Seq::<InstrView>::empty());
        assert(ivs(out@) =~= ivs(out@) + expand_from(word@, pv, 0, None, Seq::empty()));
    }
}

/// Map one token to its instructions (appended to `parsed`), writing any
/// string literal's characters into the arena (see `parse_tok_spec`).
fn parse_token(token: &String, pos: &Pos, ctx: &mut Runtime, parsed: &mut Vec<Instruction>)
    -> (r: Result<(), (&'static str, Pos)>)
    requires
        old(ctx).wf(),
    ensures
        final(ctx).wf(),
        final(ctx).stack@ == old(ctx).stack@,
        final(ctx).def@ == old(ctx).def@,
        final(ctx).funcs@ == old(ctx).funcs@,
        final(ctx).frame_stack@ == old(ctx).frame_stack@,
        final(ctx).return_stack@ == old(ctx).return_stack@,
        final(ctx).current_scope == old(ctx).current_scope,
        final(ctx).ip == old(ctx).ip,
        final(ctx).out@ == old(ctx).out@,
        (match r {
            Ok(u) => (match parse_tok_spec(*token, *pos, old(ctx).top as int) {
                TokOut::Emit(xs, dm) => ivs(final(parsed)@) == ivs(old(parsed)@) + xs
                    && final(ctx).mem@ == old(ctx).mem@ + dm,
                TokOut::Bad => false,
            }),
            Err(e) => parse_tok_spec(*token, *pos, old(ctx).top as int) is Bad
                && e.1 == *pos
                && e.0@ == "ugyldig tekst"@
                && final(ctx).mem@ == old(ctx).mem@
                && final(parsed)@ == old(parsed)@,
        }),
{
    let ghost base = parsed@;
    proof {
        assert(old(ctx).mem@ + Seq::<Value>::empty() =~= old(ctx).mem@);
    }
    if let Some(ins) = token_simple(token, pos) {
        proof {
            lemma_ivs_push(parsed@, ins);
            assert(ivs(base).push(iview(ins))
                =~= ivs(base) + Seq::<InstrView>::empty().push(iview(ins)));
        }
        parsed.push(ins);
        return Ok(());
    }
    if let Some(v) = crate::strutil::parse_int(token.as_str()) {
        let ins = Instruction::new(Operator::Literal, Some(Value::Int(v)), None,
            clone_pos(pos));
        proof {
            lemma_ivs_push(parsed@, ins);
            assert(ivs(base).push(iview(ins))
                =~= ivs(base) + Seq::<InstrView>::empty().push(iview(ins)));
        }
        parsed.push(ins);
        return Ok(());
    }
    if is_float_like(token) {
        let ins = Instruction::new(Operator::Literal, None, Some(token.clone()),
            clone_pos(pos));
        proof {
            lemma_ivs_push(parsed@, ins);
            assert(ivs(base).push(iview(ins))
                =~= ivs(base) + Seq::<InstrView>::empty().push(iview(ins)));
        }
        parsed.push(ins);
        return Ok(());
    }
    let n = token.as_str().unicode_len();
    if n > 0 && token.as_str().get_char(0) == '"' {
        let vals = match parse_char(token.as_str()) {
            Some(v) => v,
            None => {
                return Err(("ugyldig tekst", clone_pos(pos)));
            }
        };
        proof {
            if let Some(cs) = unescape_of(token@) {
                crate::ops::lemma_char_values_len(cs);
            }
        }
        if vals.len() == 1 {
            let v0 = vals[0];
            proof {
                if let Some(cs) = unescape_of(token@) {
                    crate::ops::lemma_char_values_index(cs, 0);
                }
            }
            let ins = Instruction::new(Operator::Literal, Some(v0), None, clone_pos(pos));
            proof {
                lemma_ivs_push(parsed@, ins);
                assert(ivs(base).push(iview(ins))
                    =~= ivs(base) + Seq::<InstrView>::empty().push(iview(ins)));
            }
            parsed.push(ins);
            return Ok(());
        }
        if vals.len() == 0 {
            return Err(("ugyldig tekst", clone_pos(pos)));
        }
        let res = ctx.write(&vals);
        let ins = Instruction::new(Operator::Literal, Some(Value::Str(res.0, res.1)), None,
            clone_pos(pos));
        proof {
            lemma_ivs_push(parsed@, ins);
            assert(ivs(base).push(iview(ins))
                =~= ivs(base) + Seq::<InstrView>::empty().push(iview(ins)));
        }
        parsed.push(ins);
        return Ok(());
    }
    if n == 0 {
        proof {
            assert(ivs(parsed@) =~= ivs(base) + Seq::<InstrView>::empty());
        }
        return Ok(());
    }
    parse_word(token, pos, parsed);
    Ok(())
}

/// Once a token is rejected the whole parse is rejected the same way.
proof fn lemma_parse_bad_sticks(toks: Seq<(String, Pos)>, i: nat, j: nat, top0: int)
    requires
        i <= j,
        parse_upto(toks, i, top0) is Bad,
    ensures
        parse_upto(toks, j, top0) == parse_upto(toks, i, top0),
    decreases j - i,
{
    if j > i {
        lemma_parse_bad_sticks(toks, i, (j - 1) as nat, top0);
    }
}

/// Turn the token stream into an instruction list (see `parse_upto`):
/// each token becomes its instruction or expansion, and string literals
/// of more than one character are materialized in the arena. The first
/// unusable string literal rejects the program at its position.
pub fn parse(prg: Vec<(String, Pos)>, ctx: &mut Runtime)
    -> (r: Result<Vec<Instruction>, (&'static str, Pos)>)
    requires
        old(ctx).wf(),
    ensures
        final(ctx).wf(),
        final(ctx).stack@ == old(ctx).stack@,
        final(ctx).def@ == old(ctx).def@,
        final(ctx).funcs@ == old(ctx).funcs@,
        final(ctx).frame_stack@ == old(ctx).frame_stack@,
        final(ctx).return_stack@ == old(ctx).return_stack@,
        final(ctx).current_scope == old(ctx).current_scope,
        final(ctx).ip == old(ctx).ip,
        final(ctx).out@ == old(ctx).out@,
        (match r {
            Ok(res) => (match parse_upto(prg@, prg@.len(), old(ctx).top as int) {
                ParseFlow::Going(ins, mm) => ivs(res@) == ins
                    && final(ctx).mem@ == old(ctx).mem@ + mm,
                ParseFlow::Bad(_) => false,
            }),
            Err(e) => (match parse_upto(prg@, prg@.len(), old(ctx).top as int) {
                ParseFlow::Bad(x) => 0 <= x < prg@.len() && e.1 == prg@[x].1
                    && e.0@ == "ugyldig tekst"@,
                ParseFlow::Going(..) => false,
            }),
        }),
{
    let mut parsed: Vec<Instruction> = Vec::new();
    let ghost top0 = old(ctx).top as int;
    let n = prg.len();
    let mut i: usize = 0;
    proof {
        assert(ivs(parsed@) =~= Seq::<InstrView>::empty());
        assert(old(ctx).mem@ + Seq::<Value>::empty() =~= old(ctx).mem@);
        assert(ctx.mem@.skip(old(ctx).mem@.len() as int) =~= Seq::<Value>::empty());
        assert(ctx.mem@.subrange(0, old(ctx).mem@.len() as int) =~= old(ctx).mem@);
    }
    while i < n
        invariant
            n == prg@.len(),
            i <= n,
            old(ctx).wf(),
            ctx.wf(),
            ctx.stack@ == old(ctx).stack@,
            ctx.def@ == old(ctx).def@,
            ctx.funcs@ == old(ctx).funcs@,
            ctx.frame_stack@ == old(ctx).frame_stack@,
            ctx.return_stack@ == old(ctx).return_stack@,
            ctx.current_scope == old(ctx).current_scope,
            ctx.ip == old(ctx).ip,
            ctx.out@ == old(ctx).out@,
            top0 == old(ctx).top as int,
            old(ctx).mem@.len() <= ctx.mem@.len(),
            parse_upto(prg@, i as nat, top0) == ParseFlow::Going(ivs(parsed@),
                ctx.mem@.skip(old(ctx).mem@.len() as int)),
            ctx.mem@.subrange(0, old(ctx).mem@.len() as int) == old(ctx).mem@,
        decreases n - i,
    {
        let ghost mm = ctx.mem@.skip(old(ctx).mem@.len() as int);
        proof {
            assert(ctx.top as int == top0 + mm.len());
        }
        match parse_token(&prg[i].0, &prg[i].1, ctx, &mut parsed) {
            Ok(_) => {
                proof {
                    if let TokOut::Emit(xs, dm) = parse_tok_spec(prg@[i as int].0,
                        prg@[i as int].1, top0 + mm.len()) {
                        assert(ctx.mem@.skip(old(ctx).mem@.len() as int) =~= mm + dm);
                        assert(ctx.mem@.subrange(0, old(ctx).mem@.len() as int)
                            =~= old(ctx).mem@);
                    }
                }
            }
            Err(e) => {
                proof {
                    lemma_parse_bad_sticks(prg@, (i + 1) as nat, prg@.len(), top0);
                }
                return Err(e);
            }
        }
        i += 1;
    }
    proof {
        assert(ctx.mem@ =~= old(ctx).mem@ + ctx.mem@.skip(old(ctx).mem@.len() as int));
    }
    Ok(parsed)
}

} // verus!
