pub mod ops;
pub mod cross_ref;
pub mod execute;
pub mod lex;
pub mod parse;

use vstd::prelude::*;
use crate::ops::{FuncPtr, Pos, Ptr, TypeLiteral, Value};

verus! {

/// One definition-table entry: a name, its bound value (`None` while the
/// name is declared but not yet bound), and the scope depth at which the
/// definition was made.
pub struct DefEntry {
    pub name: String,
    pub val: Option<Value>,
    pub depth: usize,
}

/// The entries of `def` that survive leaving scope depth `d`: everything
/// declared at a depth below `d`, in order.
pub open spec fn swept(def: Seq<DefEntry>, d: int) -> Seq<DefEntry>
    decreases def.len(),
{
    if def.len() == 0 {
        def
    } else {
        let rest = swept(def.drop_last(), d);
        if def.last().depth < d {
            rest.push(def.last())
        } else {
            rest
        }
    }
}

/// The visible binding of `name` in `def`: the innermost (latest) entry
/// with that name, if any.
pub open spec fn lookup(def: Seq<DefEntry>, name: Seq<char>) -> Option<DefEntry>
    decreases def.len(),
{
    if def.len() == 0 {
        None
    } else if def.last().name@ == name {
        Some(def.last())
    } else {
        lookup(def.drop_last(), name)
    }
}

/// The machine's mutable state: operand stack, append-only memory arena,
/// scope depth, flat depth-tagged definition table, saved caller stacks,
/// return addresses, the table of function descriptors, the instruction
/// pointer, and the text emitted so far.
pub struct Runtime {
    pub stack: Vec<Value>,
    pub mem: Vec<Value>,
    pub current_scope: usize,
    pub top: usize,
    pub def: Vec<DefEntry>,
    pub return_stack: Vec<usize>,
    pub frame_stack: Vec<Vec<Value>>,
    pub funcs: Vec<FuncPtr>,
    pub ip: usize,
    pub out: Vec<String>,
}

impl Runtime {
    /// The arena's write cursor always sits at its end.
    pub open spec fn wf(&self) -> bool {
        self.top == self.mem@.len()
    }

    pub fn new() -> (r: Self)
        ensures
            r.stack@.len() == 0,
            r.mem@.len() == 0,
            r.current_scope == 0,
            r.top == 0,
            r.def@.len() == 0,
            r.return_stack@.len() == 0,
            r.frame_stack@.len() == 0,
            r.funcs@.len() == 0,
            r.ip == 0,
            r.out@.len() == 0,
            r.wf(),
    {
        Runtime {
            stack: Vec::new(),
            mem: Vec::new(),
            current_scope: 0,
            top: 0,
            def: Vec::new(),
            return_stack: Vec::new(),
            frame_stack: Vec::new(),
            funcs: Vec::new(),
            ip: 0,
            out: Vec::new(),
        }
    }

    pub fn push(&mut self, x: Value)
        ensures
            final(self).stack@ == old(self).stack@.push(x),
            unchanged_but_stack(old(self), final(self)),
    {
        self.stack.push(x);
    }

    pub fn pop(&mut self) -> (r: Option<Value>)
        ensures
            unchanged_but_stack(old(self), final(self)),
            old(self).stack@.len() == 0 ==> r is None && final(self).stack@ == old(self).stack@,
            old(self).stack@.len() > 0 ==> r == Some(old(self).stack@.last())
                && final(self).stack@ == old(self).stack@.drop_last(),
    {
        self.stack.pop()
    }

    pub fn peek(&self) -> (r: Option<Value>)
        ensures
            self.stack@.len() == 0 ==> r is None,
            self.stack@.len() > 0 ==> r == Some(self.stack@.last()),
    {
        match self.stack.len() {
            0 => None,
            n => Some(self.stack[n - 1]),
        }
    }

    /// Begin a function call at return address `i`: the top values of the
    /// stack (one per parameter) are checked positionally against the
    /// parameter types and become the callee's fresh operand stack; the rest
    /// of the caller's stack is saved on the frame stack. On a type mismatch
    /// the arguments are consumed and `None` is returned.
    pub fn call(&mut self, func: &FuncPtr, i: usize) -> (r: Option<usize>)
        requires
            old(self).current_scope < usize::MAX,
        ensures
            (match r {
                Some(entry) => {
                    let start = old(self).stack@.len() - func.params@.len();
                    &&& entry == func.ptr
                    &&& old(self).stack@.len() >= func.params@.len()
                    &&& (forall|j: int| 0 <= j < func.params@.len()
                        ==> has_type_at(old(self).stack@, start + j, func.params@[j]))
                    &&& final(self).stack@ == old(self).stack@.subrange(
                        start as int, old(self).stack@.len() as int)
                    &&& final(self).frame_stack@.len() == old(self).frame_stack@.len() + 1
                    &&& (forall|k: int| 0 <= k < old(self).frame_stack@.len()
                        ==> final(self).frame_stack@[k] == old(self).frame_stack@[k])
                    &&& final(self).frame_stack@.last()@ == old(self).stack@.subrange(0, start as int)
                    &&& final(self).return_stack@ == old(self).return_stack@.push(i)
                    &&& final(self).current_scope == old(self).current_scope + 1
                }
                None => {
                    &&& final(self).frame_stack@ == old(self).frame_stack@
                    &&& final(self).return_stack@ == old(self).return_stack@
                    &&& final(self).current_scope == old(self).current_scope
                    &&& if old(self).stack@.len() < func.params@.len() {
                        final(self).stack@ == old(self).stack@
                    } else {
                        let start = old(self).stack@.len() - func.params@.len();
                        (exists|j: int| 0 <= j < func.params@.len()
                            && !has_type_at(old(self).stack@, start + j, func.params@[j]))
                        && final(self).stack@ == old(self).stack@.subrange(0, start as int)
                    }
                }
            }),
            final(self).mem@ == old(self).mem@,
            final(self).top == old(self).top,
            final(self).def@ == old(self).def@,
            final(self).funcs@ == old(self).funcs@,
            final(self).ip == old(self).ip,
            final(self).out@ == old(self).out@,
    {
        let n = self.stack.len();
        if n < func.params.len() {
            return None;
        }
        let start = n - func.params.len();
        let mut j: usize = 0;
        while j < func.params.len()
            invariant
                n == self.stack@.len(),
                start + func.params@.len() == n,
                j <= func.params@.len(),
                self == old(self),
                forall|k: int| 0 <= k < j ==> has_type_at(self.stack@, start + k, func.params@[k]),
            decreases func.params@.len() - j,
        {
            if !self.stack[start + j].eq(&func.params[j]) {
                proof {
                    assert(exists|q: int| 0 <= q < func.params@.len()
                        && !has_type_at(old(self).stack@, start + q, func.params@[q])) by {
                        assert(!has_type_at(old(self).stack@, start + j, func.params@[j as int]));
                    }
                }
                self.stack.truncate(start);
                return None;
            }
            j += 1;
        }
        let mut args = self.stack.split_off(start);
        core::mem::swap(&mut self.stack, &mut args);
        self.frame_stack.push(args);
        self.return_stack.push(i);
        self.current_scope = self.current_scope + 1;
        Some(func.ptr)
    }

    /// Return from a function: the top values of the stack (one per return
    /// type) are checked positionally, the caller's saved stack is restored
    /// with those values appended, and the saved return address is popped
    /// and handed back.
    pub fn retur(&mut self, func: &FuncPtr) -> (r: Option<usize>)
        ensures
            (match r {
                Some(ret_i) => {
                    let start = old(self).stack@.len() - func.rets@.len();
                    &&& retur_types_fit(old(self).stack@, func.rets@)
                    &&& old(self).frame_stack@.len() > 0
                    &&& old(self).return_stack@.len() > 0
                    &&& ret_i == old(self).return_stack@.last()
                    &&& final(self).return_stack@ == old(self).return_stack@.drop_last()
                    &&& final(self).frame_stack@ == old(self).frame_stack@.drop_last()
                    &&& final(self).stack@ == old(self).frame_stack@.last()@
                        + old(self).stack@.subrange(start as int, old(self).stack@.len() as int)
                }
                None => {
                    if retur_types_fit(old(self).stack@, func.rets@)
                        && old(self).frame_stack@.len() > 0 {
                        // the return-address stack was empty; the operand
                        // stack is still restored before that is discovered
                        let start = old(self).stack@.len() - func.rets@.len();
                        &&& old(self).return_stack@.len() == 0
                        &&& final(self).return_stack@ == old(self).return_stack@
                        &&& final(self).frame_stack@ == old(self).frame_stack@.drop_last()
                        &&& final(self).stack@ == old(self).frame_stack@.last()@
                            + old(self).stack@.subrange(start as int, old(self).stack@.len() as int)
                    } else {
                        &&& final(self).stack@ == old(self).stack@
                        &&& final(self).frame_stack@ == old(self).frame_stack@
                        &&& final(self).return_stack@ == old(self).return_stack@
                    }
                }
            }),
            final(self).mem@ == old(self).mem@,
            final(self).top == old(self).top,
            final(self).def@ == old(self).def@,
            final(self).funcs@ == old(self).funcs@,
            final(self).current_scope == old(self).current_scope,
            final(self).ip == old(self).ip,
            final(self).out@ == old(self).out@,
    {
        let n = self.stack.len();
        if n < func.rets.len() {
            return None;
        }
        let start = n - func.rets.len();
        let mut j: usize = 0;
        while j < func.rets.len()
            invariant
                n == self.stack@.len(),
                start + func.rets@.len() == n,
                j <= func.rets@.len(),
                self == old(self),
                forall|k: int| 0 <= k < j ==> has_type_at(self.stack@, start + k, func.rets@[k]),
            decreases func.rets@.len() - j,
        {
            if !self.stack[start + j].eq(&func.rets[j]) {
                return None;
            }
            j += 1;
        }
        let mut returned = self.stack.split_off(start);
        let old_stack = match self.frame_stack.pop() {
            Some(s) => s,
            None => {
                // restore the values that split_off detached
                self.stack.append(&mut returned);
                proof {
                    assert(self.stack@ =~= old(self).stack@);
                }
                return None;
            }
        };
        self.stack = old_stack;
        self.stack.append(&mut returned);
        self.return_stack.pop()
    }

    /// Append the given values to the arena; rets the address of the
    /// first cell written and the number of cells.
    pub fn write(&mut self, data: &Vec<Value>) -> (r: (Ptr, usize))
        requires
            old(self).wf(),
        ensures
            final(self).wf(),
            r.0 == old(self).top,
            r.1 == data@.len(),
            final(self).mem@ == old(self).mem@ + data@,
            final(self).top == old(self).top + data@.len(),
            final(self).stack@ == old(self).stack@,
            final(self).def@ == old(self).def@,
            final(self).funcs@ == old(self).funcs@,
            final(self).frame_stack@ == old(self).frame_stack@,
            final(self).return_stack@ == old(self).return_stack@,
            final(self).current_scope == old(self).current_scope,
            final(self).ip == old(self).ip,
            final(self).out@ == old(self).out@,
    {
        let ptr = self.top;
        let mut k: usize = 0;
        while k < data.len()
            invariant
                self.wf(),
                k <= data@.len(),
                self.top == ptr + k,
                self.mem@ == old(self).mem@ + data@.subrange(0, k as int),
                self.stack@ == old(self).stack@,
                self.def@ == old(self).def@,
                self.funcs@ == old(self).funcs@,
                self.frame_stack@ == old(self).frame_stack@,
                self.return_stack@ == old(self).return_stack@,
                self.current_scope == old(self).current_scope,
                self.ip == old(self).ip,
                self.out@ == old(self).out@,
            decreases data@.len() - k,
        {
            self.mem.push(data[k]);
            self.top = self.mem.len();
            proof {
                assert(self.mem@ =~= old(self).mem@ + data@.subrange(0, (k + 1) as int));
            }
            k += 1;
        }
        proof {
            assert(data@.subrange(0, data@.len() as int) =~= data@);
        }
        (ptr, data.len())
    }

    /// Overwrite one existing arena cell.
    pub fn over_write(&mut self, ptr: Ptr, data: &Value)
        requires
            ptr < old(self).mem@.len(),
        ensures
            final(self).mem@ == old(self).mem@.update(ptr as int, *data),
            final(self).top == old(self).top,
            final(self).stack@ == old(self).stack@,
            final(self).def@ == old(self).def@,
            final(self).funcs@ == old(self).funcs@,
            final(self).frame_stack@ == old(self).frame_stack@,
            final(self).return_stack@ == old(self).return_stack@,
            final(self).current_scope == old(self).current_scope,
            final(self).ip == old(self).ip,
            final(self).out@ == old(self).out@,
    {
        self.mem.set(ptr, *data);
    }

    /// Read one arena cell, if the address is in bounds.
    pub fn read(&self, ptr: Ptr) -> (r: Option<Value>)
        ensures
            ptr < self.mem@.len() ==> r == Some(self.mem@[ptr as int]),
            ptr >= self.mem@.len() ==> r is None,
    {
        if ptr < self.mem.len() {
            Some(self.mem[ptr])
        } else {
            None
        }
    }

    /// Read `len` arena cells starting at `ptr`, if the range is in bounds.
    pub fn read_data(&self, ptr: Ptr, len: usize) -> (r: Option<Vec<Value>>)
        ensures
            (match r {
                Some(vals) => ptr + len <= self.mem@.len()
                    && vals@ == self.mem@.subrange(ptr as int, ptr + len),
                None => ptr + len > self.mem@.len(),
            }),
    {
        let ml = self.mem.len();
        if usize::MAX - len < ptr {
            return None;
        }
        if ptr + len > ml {
            return None;
        }
        let mut vals: Vec<Value> = Vec::new();
        let mut k: usize = 0;
        while k < len
            invariant
                ml == self.mem@.len(),
                ptr + len <= ml,
                k <= len,
                vals@ == self.mem@.subrange(ptr as int, ptr + k),
            decreases len - k,
        {
            vals.push(self.mem[ptr + k]);
            proof {
                assert(vals@ =~= self.mem@.subrange(ptr as int, ptr + k + 1));
            }
            k += 1;
        }
        Some(vals)
    }

    /// Materialize a `Str` value's arena range as a host string. Returns
    /// `None` if the value is not a `Str`, its range leaves the arena, or
    /// any cell in the range does not hold a character.
    pub fn read_str(&self, str_ptr: &Value) -> (r: Option<String>)
        ensures
            (match *str_ptr {
                Value::Str(ptr, len) => (match r {
                    Some(s) => ptr + len <= self.mem@.len()
                        && all_chars(self.mem@, ptr as int, len as int)
                        && s@ == str_chars(self.mem@, ptr as int, len as int),
                    None => ptr + len > self.mem@.len()
                        || !all_chars(self.mem@, ptr as int, len as int),
                }),
                _ => r is None,
            }),
    {
        if let Value::Str(ptr, len) = *str_ptr {
            let cells = match self.read_data(ptr, len) {
                Some(c) => c,
                None => {
                    return None;
                }
            };
            let mut s = String::new();
            let mut k: usize = 0;
            while k < cells.len()
                invariant
                    *str_ptr == Value::Str(ptr, len),
                    ptr + len <= self.mem@.len(),
                    cells@ == self.mem@.subrange(ptr as int, ptr + len),
                    k <= len,
                    forall|j: int| 0 <= j < k ==> (#[trigger] self.mem@[ptr + j]) is Char,
                    s@ == str_chars(self.mem@, ptr as int, k as int),
                decreases len - k,
            {
                let c = match cells[k] {
                    Value::Char(c) => c,
                    _ => {
                        proof {
                            assert(cells@[k as int] == self.mem@[ptr + k]);
                            assert(exists|j: int| 0 <= j < len
                                && !((#[trigger] self.mem@[ptr + j]) is Char)) by {
                                assert(!((self.mem@[ptr + k as int]) is Char));
                            }
                            assert(!all_chars(self.mem@, ptr as int, len as int));
                        }
                        return None;
                    }
                };
                crate::strutil::push_char(&mut s, c);
                k += 1;
            }
            Some(s)
        } else {
            None
        }
    }

    /// The innermost definition of `name`, if any.
    pub fn def_lookup(&self, name: &String) -> (r: Option<(Option<Value>, usize)>)
        ensures
            (match lookup(self.def@, name@) {
                Some(e) => r == Some((e.val, e.depth)),
                None => r is None,
            }),
    {
        let mut k: usize = self.def.len();
        proof {
            assert(self.def@.subrange(0, k as int) =~= self.def@);
        }
        while k > 0
            invariant
                k <= self.def@.len(),
                lookup(self.def@, name@) == lookup(self.def@.subrange(0, k as int), name@),
            decreases k,
        {
            k = k - 1;
            proof {
                assert(self.def@.subrange(0, k + 1 as int).last() == self.def@[k as int]);
                assert(self.def@.subrange(0, k + 1 as int).drop_last()
                    =~= self.def@.subrange(0, k as int));
            }
            if self.def[k].name.eq(name) {
                return Some((self.def[k].val, self.def[k].depth));
            }
        }
        None
    }

    /// Add a definition for `name` at depth `depth`, shadowing any earlier
    /// one of the same name.
    pub fn def_insert(&mut self, name: String, val: Option<Value>, depth: usize)
        ensures
            final(self).def@.len() == old(self).def@.len() + 1,
            (forall|k: int| 0 <= k < old(self).def@.len()
                ==> final(self).def@[k] == old(self).def@[k]),
            final(self).def@.last().name@ == name@,
            final(self).def@.last().val == val,
            final(self).def@.last().depth == depth,
            lookup(final(self).def@, name@) == Some(final(self).def@.last()),
            final(self).stack@ == old(self).stack@,
            final(self).mem@ == old(self).mem@,
            final(self).top == old(self).top,
            final(self).funcs@ == old(self).funcs@,
            final(self).frame_stack@ == old(self).frame_stack@,
            final(self).return_stack@ == old(self).return_stack@,
            final(self).current_scope == old(self).current_scope,
            final(self).ip == old(self).ip,
            final(self).out@ == old(self).out@,
    {
        self.def.push(DefEntry { name, val, depth });
        proof {
            assert(final(self).def@.drop_last() =~= old(self).def@);
        }
    }

    /// Remove every definition made at scope depth `d` or deeper.
    pub fn sweep(&mut self, d: usize)
        ensures
            final(self).def@ == swept(old(self).def@, d as int),
            final(self).stack@ == old(self).stack@,
            final(self).mem@ == old(self).mem@,
            final(self).top == old(self).top,
            final(self).funcs@ == old(self).funcs@,
            final(self).frame_stack@ == old(self).frame_stack@,
            final(self).return_stack@ == old(self).return_stack@,
            final(self).current_scope == old(self).current_scope,
            final(self).ip == old(self).ip,
            final(self).out@ == old(self).out@,
    {
        let mut kept: Vec<DefEntry> = Vec::new();
        let n = self.def.len();
        let mut k: usize = 0;
        while k < n
            invariant
                n == self.def@.len(),
                k <= n,
                kept@ == swept(self.def@.subrange(0, k as int), d as int),
            decreases n - k,
        {
            proof {
                assert(self.def@.subrange(0, k + 1 as int).last() == self.def@[k as int]);
                assert(self.def@.subrange(0, k + 1 as int).drop_last()
                    =~= self.def@.subrange(0, k as int));
            }
            let e = &self.def[k];
            if e.depth < d {
                let copy = DefEntry { name: e.name.clone(), val: e.val, depth: e.depth };
                assert(copy == self.def@[k as int]);
                kept.push(copy);
            }
            k += 1;
        }
        proof {
            assert(self.def@.subrange(0, n as int) =~= self.def@);
        }
        self.def = kept;
    }
}

/// Every cell of the range holds a character: the condition under which
/// a `Str` view can be materialized at all.
pub open spec fn all_chars(mem: Seq<Value>, ptr: int, len: int) -> bool {
    forall|j: int| 0 <= j < len ==> (#[trigger] mem[ptr + j]) is Char
}

/// The characters a `Str` range reads as; meaningful only where every
/// cell of the range holds a character (cells that do not are read as the
/// nul character, but materialization rejects such a range).
pub open spec fn str_chars(mem: Seq<Value>, ptr: int, len: int) -> Seq<char>
    decreases len,
{
    if len <= 0 {
        Seq::empty()
    } else {
        str_chars(mem, ptr, len - 1).push(match mem[ptr + len - 1] {
            Value::Char(c) => c,
            _ => '\0',
        })
    }
}

/// The stack value at index `at` has type tag `typ`.
pub open spec fn has_type_at(stack: Seq<Value>, at: int, typ: TypeLiteral) -> bool {
    crate::ops::has_type(stack[at], typ)
}

/// The top of `stack` fits the return-type list `rets` positionally.
pub open spec fn retur_types_fit(stack: Seq<Value>, rets: Seq<TypeLiteral>) -> bool {
    stack.len() >= rets.len()
        && (forall|j: int| 0 <= j < rets.len()
            ==> has_type_at(stack, stack.len() - rets.len() + j, rets[j]))
}

/// Everything except the operand stack is unchanged.
pub open spec fn unchanged_but_stack(a: &Runtime, b: &Runtime) -> bool {
    &&& b.mem@ == a.mem@
    &&& b.top == a.top
    &&& b.def@ == a.def@
    &&& b.funcs@ == a.funcs@
    &&& b.frame_stack@ == a.frame_stack@
    &&& b.return_stack@ == a.return_stack@
    &&& b.current_scope == a.current_scope
    &&& b.ip == a.ip
    &&& b.out@ == a.out@
}

/// Leaving scope depth `d` makes every name bound at that depth or deeper
/// unreachable: a lookup after the sweep finds only an entry from an
/// outer scope, or nothing.
pub proof fn lemma_scope_teardown(def: Seq<DefEntry>, d: int, name: Seq<char>)
    ensures
        (match lookup(swept(def, d), name) {
            Some(e) => e.depth < d,
            None => true,
        }),
    decreases def.len(),
{
    if def.len() > 0 {
        lemma_scope_teardown(def.drop_last(), d, name);
        if def.last().depth < d {
            let s = swept(def.drop_last(), d).push(def.last());
            assert(s.drop_last() =~= swept(def.drop_last(), d));
        }
    }
}

} // verus!

pub mod strutil;
