use vstd::prelude::*;
use crate::strutil::{dec_chars, hex_chars, int_chars};
use crate::{all_chars, str_chars, Runtime};

verus! {

/// Source position of an instruction: line, column, and source path.
pub type Pos = (usize, usize, String);

/// Address of a cell in the memory arena.
pub type Ptr = usize;

/// First-class type tag, used as operand to casts, declarations and
/// function signatures.
#[derive(Clone, Copy, PartialEq, Eq, Structural, Debug)]
pub enum TypeLiteral {
    Int,
    Float,
    Bool,
    Str,
    Byte,
    Char,
    Ptr,
}

/// One operation of the instruction set.
#[derive(Clone, Copy, PartialEq, Eq, Structural, Debug)]
pub enum Operator {
    Literal,
    Const,
    Mem,
    Func,
    Let,
    Word,
    BikeShed,
    Add,
    Sub,
    Mult,
    Div,
    Cast,
    Print,
    PrintLn,
    Input,
    Debug,
    Read,
    Write,
    Exit,
    Not,
    And,
    Or,
    Eq,
    Lt,
    Le,
    Gt,
    Ge,
    If,
    Else,
    Elif,
    End,
    Do,
    In,
    While,
    Dup,
    Drop,
    Swap,
    Over,
    Rot,
}

/// A runtime value. `Float` carries the IEEE-754 single-precision bit
/// pattern: the engine never computes on it itself, it hands such work to
/// its embedder (see `execute::Request`). `Str` is an (offset, length) view
/// into the arena; `Ptr` additionally carries the element type tag.
/// `FuncPtr` is an index into the runtime's table of function descriptors.
#[derive(Clone, Copy, PartialEq, Eq, Structural, Debug)]
pub enum Value {
    Int(i32),
    Float(u32),
    Bool(bool),
    Str(Ptr, usize),
    Byte(u8),
    Char(char),
    Ptr(Ptr, usize, TypeLiteral),
    TypeLiteral(TypeLiteral),
    FuncPtr(usize),
    Null,
}

/// Whether a value's runtime type tag matches a type literal.
/// Type literals, function values and the null marker match no tag.
pub open spec fn has_type(v: Value, typ: TypeLiteral) -> bool {
    match v {
        Value::Int(_) => typ == TypeLiteral::Int,
        Value::Float(_) => typ == TypeLiteral::Float,
        Value::Bool(_) => typ == TypeLiteral::Bool,
        Value::Str(..) => typ == TypeLiteral::Str,
        Value::Byte(_) => typ == TypeLiteral::Byte,
        Value::Char(_) => typ == TypeLiteral::Char,
        Value::Ptr(..) => typ == TypeLiteral::Ptr,
        _ => false,
    }
}

impl Value {
    /// Runtime type test: does this value carry the given type tag?
    pub fn eq(&self, typ: &TypeLiteral) -> (r: bool)
        ensures
            r == has_type(*self, *typ),
    {
        match self {
            Value::Int(_) => *typ == TypeLiteral::Int,
            Value::Float(_) => *typ == TypeLiteral::Float,
            Value::Bool(_) => *typ == TypeLiteral::Bool,
            Value::Str(..) => *typ == TypeLiteral::Str,
            Value::Byte(_) => *typ == TypeLiteral::Byte,
            Value::Char(_) => *typ == TypeLiteral::Char,
            Value::Ptr(..) => *typ == TypeLiteral::Ptr,
            _ => false,
        }
    }
}

/// A function descriptor: entry address (the index just past the signature's
/// closing `in`), parameter types, and return types.
#[derive(Clone, Debug)]
pub struct FuncPtr {
    pub ptr: usize,
    pub params: Vec<TypeLiteral>,
    pub rets: Vec<TypeLiteral>,
}

/// One resolved program step: operator, optional jump target (`arg`,
/// backpatched by the resolver), optional literal value, optional symbol
/// name, and source position.
#[derive(Debug)]
pub struct Instruction {
    pub op: Operator,
    pub arg: Option<Ptr>,
    pub val: Option<Value>,
    pub name: Option<String>,
    pub pos: Pos,
}

impl Instruction {
    pub fn new(op: Operator, val: Option<Value>, name: Option<String>, pos: Pos) -> (r: Self)
        ensures
            r.op == op,
            r.arg is None,
            r.val == val,
            r.name == name,
            r.pos == pos,
    {
        Instruction { op, arg: None, val, name, pos }
    }

    /// An exact copy of this instruction.
    pub fn duplicate(&self) -> (r: Self)
        ensures
            r == *self,
    {
        Instruction {
            op: self.op,
            arg: self.arg,
            val: self.val,
            name: match &self.name {
                Some(n) => Some(n.clone()),
                None => None,
            },
            pos: (self.pos.0, self.pos.1, self.pos.2.clone()),
        }
    }
}

/// One character as an arena cell.
pub open spec fn char_cell(c: char) -> Value {
    Value::Char(c)
}

/// A character sequence as arena cells.
pub open spec fn char_values(cs: Seq<char>) -> Seq<Value>
    decreases cs.len(),
{
    if cs.len() == 0 {
        Seq::empty()
    } else {
        char_values(cs.drop_last()).push(char_cell(cs.last()))
    }
}

pub proof fn lemma_char_values_len(cs: Seq<char>)
    ensures
        char_values(cs).len() == cs.len(),
    decreases cs.len(),
{
    if cs.len() > 0 {
        lemma_char_values_len(cs.drop_last());
    }
}

pub proof fn lemma_char_values_index(cs: Seq<char>, k: int)
    requires
        0 <= k < cs.len(),
    ensures
        char_values(cs)[k] == Value::Char(cs[k]),
    decreases cs.len(),
{
    lemma_char_values_len(cs);
    if k < cs.len() - 1 {
        lemma_char_values_index(cs.drop_last(), k);
        lemma_char_values_len(cs.drop_last());
    }
}

/// The display name of a type tag.
pub open spec fn type_chars(t: TypeLiteral) -> Seq<char> {
    match t {
        TypeLiteral::Int => "Helt"@,
        TypeLiteral::Float => "Flyt"@,
        TypeLiteral::Bool => "Bool"@,
        TypeLiteral::Str => "Str"@,
        TypeLiteral::Ptr => "Peker"@,
        TypeLiteral::Byte => "Byte"@,
        TypeLiteral::Char => "Bokst"@,
    }
}

/// How a value prints: integers in decimal, booleans as the language's
/// truth words, strings by their arena content, bytes in hexadecimal,
/// pointers as element type, length and address. A float has no text here
/// (the embedder renders it), nor does a string whose range has left the
/// arena or covers a cell that is not a character.
pub open spec fn text_of(v: Value, mem: Seq<Value>) -> Option<Seq<char>> {
    match v {
        Value::Int(x) => Some(int_chars(x as int)),
        Value::Float(_) => None,
        Value::Bool(b) => Some(if b { "sann"@ } else { "usann"@ }),
        Value::Str(p, l) => if p + l <= mem.len() && all_chars(mem, p as int, l as int) {
            Some(str_chars(mem, p as int, l as int))
        } else {
            None
        },
        Value::Byte(x) => Some("0x"@ + hex_chars(x as int)),
        Value::Char(c) => Some(Seq::empty().push(c)),
        Value::Ptr(p, l, t) => Some(
            "["@ + type_chars(t) + "; "@ + dec_chars(l as int) + "] -> "@ + dec_chars(p as int)),
        Value::TypeLiteral(t) => Some(type_chars(t)),
        Value::FuncPtr(_) => Some("Kan ikke skrives"@),
        Value::Null => Some("null"@),
    }
}

/// The display name of a type tag.
pub fn tag_name(t: &TypeLiteral) -> (r: &'static str)
    ensures
        r@ == type_chars(*t),
{
    match t {
        TypeLiteral::Int => "Helt",
        TypeLiteral::Float => "Flyt",
        TypeLiteral::Bool => "Bool",
        TypeLiteral::Str => "Str",
        TypeLiteral::Ptr => "Peker",
        TypeLiteral::Byte => "Byte",
        TypeLiteral::Char => "Bokst",
    }
}

impl Value {
    /// Render this value as text (see `text_of`); nothing for a float or
    /// an out-of-range string.
    pub fn to_string(&self, ctx: &Runtime) -> (r: Option<String>)
        ensures
            (match r {
                Some(s) => text_of(*self, ctx.mem@) == Some(s@),
                None => text_of(*self, ctx.mem@) is None,
            }),
    {
        match *self {
            Value::Int(x) => Some(crate::strutil::int_to_string(x)),
            Value::Float(_) => None,
            Value::Bool(b) => {
                if b {
                    Some(String::from_str("sann"))
                } else {
                    Some(String::from_str("usann"))
                }
            }
            Value::Str(..) => ctx.read_str(self),
            Value::Byte(x) => {
                let mut s = String::from_str("0x");
                crate::strutil::push_hex(&mut s, x);
                Some(s)
            }
            Value::Char(c) => {
                let mut s = String::new();
                crate::strutil::push_char(&mut s, c);
                proof {
                    assert(s@ =~= Seq::empty().push(c));
                }
                Some(s)
            }
            Value::Ptr(p, l, t) => {
                let mut s = String::from_str("[");
                s.append(tag_name(&t));
                s.append("; ");
                crate::strutil::push_dec(&mut s, l as u64);
                s.append("] -> ");
                crate::strutil::push_dec(&mut s, p as u64);
                proof {
                    assert(s@ =~= "["@ + type_chars(t) + "; "@ + dec_chars(l as int)
                        + "] -> "@ + dec_chars(p as int));
                }
                Some(s)
            }
            Value::TypeLiteral(t) => Some(String::from_str(tag_name(&t))),
            Value::FuncPtr(_) => Some(String::from_str("Kan ikke skrives")),
            Value::Null => Some(String::from_str("null")),
        }
    }
}

impl FuncPtr {
    /// An exact copy of this descriptor.
    pub fn duplicate(&self) -> (r: Self)
        ensures
            r.ptr == self.ptr,
            r.params@ == self.params@,
            r.rets@ == self.rets@,
    {
        let mut params: Vec<TypeLiteral> = Vec::new();
        let mut k: usize = 0;
        while k < self.params.len()
            invariant
                k <= self.params@.len(),
                params@ == self.params@.subrange(0, k as int),
            decreases self.params@.len() - k,
        {
            params.push(self.params[k]);
            proof {
                assert(params@ =~= self.params@.subrange(0, (k + 1) as int));
            }
            k += 1;
        }
        let mut rets: Vec<TypeLiteral> = Vec::new();
        let mut j: usize = 0;
        while j < self.rets.len()
            invariant
                j <= self.rets@.len(),
                rets@ == self.rets@.subrange(0, j as int),
            decreases self.rets@.len() - j,
        {
            rets.push(self.rets[j]);
            proof {
                assert(rets@ =~= self.rets@.subrange(0, (j + 1) as int));
            }
            j += 1;
        }
        proof {
            assert(self.params@.subrange(0, self.params@.len() as int) =~= self.params@);
            assert(self.rets@.subrange(0, self.rets@.len() as int) =~= self.rets@);
        }
        FuncPtr { ptr: self.ptr, params, rets }
    }
}

} // verus!
