//! The stack machine that drives a decode.
//!
//! Each step reads one opcode with its operands and applies it: values are
//! pushed on the evaluation stack, memoized by integer index, and gathered
//! into composites above the most recent mark.  Composite payloads live in
//! arenas owned by the machine, so that every handle to a composite sees
//! the same container.

use std::collections::HashMap;

use vstd::prelude::*;

use crate::value::FloatReprView;
use crate::value::Value;
use crate::value::ValueView;

verus! {

broadcast use vstd::std_specs::hash::group_hash_axioms;

/// Everything that can go wrong during a decode.  Any error aborts the
/// decode; the machine is not reusable afterwards.
#[derive(Debug, Clone, Copy, PartialEq, Eq, Structural)]
pub enum Error {
    /// Short read within a fixed-width operand.
    Read,
    /// The dispatch saw a byte that is no opcode.
    UnknownOpcode(u8),
    /// The opcode needs class-registry semantics, which this core declares
    /// unsupported.  Such an opcode's operands are still read first, so a
    /// stream cut short inside them reports the read error instead.
    NotImplemented,
    /// A protocol version below two.
    InvalidProto(u8),
    InvalidInt,
    InvalidLong,
    InvalidFloat,
    InvalidString,
    UnescapeError(crate::string::Error),
    /// A signed 32-bit length field below zero.
    NegativeLength,
    EmptyStack,
    /// A variadic opcode without a prior mark.
    EmptyMarker,
    /// The mark lies above the current stack top.
    StackTooSmall,
    /// APPEND, APPENDS, SETITEM or SETITEMS found a target of the wrong kind.
    InvalidValueOnStack,
    /// A memo read of a slot never written.
    InvalidGetValue,
}

/// What a decimal integer operand denotes: the two boolean sentinels
/// `00` and `01`, or a plain integer.
#[derive(Debug, Clone, Copy, PartialEq, Eq, Structural)]
pub enum BooleanOrInt {
    Boolean(bool),
    Int(i64),
}

/// What a decimal integer operand of the literal-integer opcode denotes:
/// exactly `00` and `01` are the boolean sentinels, everything else must
/// be a decimal i64.
pub open spec fn spec_int_or_bool(s: Seq<u8>) -> Option<BooleanOrInt> {
    if s == seq![48u8, 48u8] {
        Some(BooleanOrInt::Boolean(false))
    } else if s == seq![48u8, 49u8] {
        Some(BooleanOrInt::Boolean(true))
    } else {
        match crate::opcode::spec_parse_i64(s) {
            Some(v) => Some(BooleanOrInt::Int(v as i64)),
            None => None,
        }
    }
}

/// Reads a line and parses it as the literal-integer opcode does: the
/// sentinels `00` and `01` give booleans, anything else a decimal i64.
pub fn read_decimal_int_or_bool(input: &Vec<u8>, pos: &mut usize) -> (r: Result<
    BooleanOrInt,
    Error,
>)
    requires
        *old(pos) <= input@.len(),
    ensures
        match crate::opcode::spec_read_line(input@, *old(pos) as int) {
            Some(v) => match spec_int_or_bool(v.0) {
                Some(b) => r == Ok::<BooleanOrInt, Error>(b) && *final(pos) == v.1 && *old(pos)
                    < v.1 <= input@.len(),
                None => r == Err::<BooleanOrInt, Error>(Error::InvalidInt),
            },
            None => r == Err::<BooleanOrInt, Error>(Error::InvalidString),
        },
{
    let s = crate::opcode::read_until_newline(input, pos)?;
    if s.len() == 2 && s[0] == 48 && s[1] == 48 {
        proof {
            assert(s@ =~= seq![48u8, 48u8]);
        }
        Ok(BooleanOrInt::Boolean(false))
    } else if s.len() == 2 && s[0] == 48 && s[1] == 49 {
        proof {
            assert(s@ =~= seq![48u8, 49u8]);
        }
        Ok(BooleanOrInt::Boolean(true))
    } else {
        let v = crate::opcode::from_bytes(&s)?;
        Ok(BooleanOrInt::Int(v))
    }
}

/// Reads a quoted string operand: a line whose first and last byte are
/// the quotes, whose interior is then unescaped in non-unicode mode.
pub fn read_bracketed_string(input: &Vec<u8>, pos: &mut usize) -> (r: Result<Vec<u8>, Error>)
    requires
        *old(pos) <= input@.len(),
    ensures
        match crate::opcode::spec_read_line(input@, *old(pos) as int) {
            Some(v) => if v.0.len() < 2 {
                r == Err::<Vec<u8>, Error>(Error::InvalidString)
            } else {
                match crate::string::spec_unescape(v.0.subrange(1, v.0.len() - 1), false) {
                    Ok(bytes) => r matches Ok(out) && out@ == bytes && *final(pos) == v.1 && *old(
                        pos,
                    ) < v.1 <= input@.len(),
                    Err(e) => r == Err::<Vec<u8>, Error>(Error::UnescapeError(e)),
                }
            },
            None => r == Err::<Vec<u8>, Error>(Error::InvalidString),
        },
{
    let s = crate::opcode::read_until_newline(input, pos)?;
    if s.len() < 2 {
        return Err(Error::InvalidString);
    }
    let inner = crate::string::copy_range(&s, 1, s.len() - 1);
    match crate::string::unescape(&inner, false) {
        Ok(out) => Ok(out),
        Err(e) => Err(Error::UnescapeError(e)),
    }
}

/// Mathematical model of a machine: the stack and the composite arenas
/// as sequences of value models, the memo as a map.
pub struct MachineView {
    pub stack: Seq<ValueView>,
    pub memo: Map<u64, ValueView>,
    pub marker: Option<int>,
    pub lists: Seq<Seq<ValueView>>,
    pub tuples: Seq<Seq<ValueView>>,
    pub dicts: Seq<Seq<(ValueView, ValueView)>>,
}

/// Whether a value's composite handle, if any, points into its machine's
/// arenas.
pub open spec fn value_ok(v: ValueView, m: MachineView) -> bool {
    match v {
        ValueView::List(h) => 0 <= h < m.lists.len(),
        ValueView::Tuple(h) => 0 <= h < m.tuples.len(),
        ValueView::Dict(h) => 0 <= h < m.dicts.len(),
        _ => true,
    }
}

impl MachineView {
    /// Every handle on the stack, in the memo and inside the arenas
    /// points into the arenas.
    pub open spec fn wf(self) -> bool {
        &&& forall|i: int| 0 <= i < self.stack.len() ==> value_ok(#[trigger] self.stack[i], self)
        &&& forall|k: u64|
            self.memo.dom().contains(k) ==> value_ok(#[trigger] self.memo[k], self)
        &&& forall|i: int, j: int|
            0 <= i < self.lists.len() && 0 <= j < self.lists[i].len() ==> value_ok(
                #[trigger] self.lists[i][j],
                self,
            )
        &&& forall|i: int, j: int|
            0 <= i < self.tuples.len() && 0 <= j < self.tuples[i].len() ==> value_ok(
                #[trigger] self.tuples[i][j],
                self,
            )
        &&& forall|i: int, j: int|
            0 <= i < self.dicts.len() && 0 <= j < self.dicts[i].len() ==> value_ok(
                (#[trigger] self.dicts[i][j]).0,
                self,
            ) && value_ok(self.dicts[i][j].1, self)
    }
}

/// The model of a fresh machine: everything empty, no mark set.
pub open spec fn initial() -> MachineView {
    MachineView {
        stack: Seq::empty(),
        memo: Map::empty(),
        marker: None,
        lists: Seq::empty(),
        tuples: Seq::empty(),
        dicts: Seq::empty(),
    }
}

/// The model with one more value on the stack.
pub open spec fn pushed(m: MachineView, v: ValueView) -> MachineView {
    MachineView { stack: m.stack.push(v), ..m }
}

/// The stack below the mark and the values at and above it, or the error
/// when no usable mark is set.
pub open spec fn spec_split(m: MachineView) -> Result<(Seq<ValueView>, Seq<ValueView>), Error> {
    match m.marker {
        None => Err(Error::EmptyMarker),
        Some(mk) => if mk < 0 || mk > m.stack.len() {
            Err(Error::StackTooSmall)
        } else {
            Ok((m.stack.subrange(0, mk), m.stack.subrange(mk, m.stack.len() as int)))
        },
    }
}

/// Consecutive values paired in order; a trailing odd value is dropped.
pub open spec fn pair_up(items: Seq<ValueView>) -> Seq<(ValueView, ValueView)>
    decreases items.len(),
{
    if items.len() >= 2 {
        seq![(items[0], items[1])] + pair_up(items.skip(2))
    } else {
        Seq::empty()
    }
}

/// The machine: the evaluation stack, the memo table, the position of
/// the most recent mark, and one arena per composite kind.  A composite
/// value on the stack or in the memo is a handle into an arena, so every
/// holder of the handle sees the same container.
pub struct Machine {
    stack: Vec<Value>,
    memo: HashMap<u64, Value>,
    marker: Option<usize>,
    lists: Vec<Vec<Value>>,
    tuples: Vec<Vec<Value>>,
    dicts: Vec<Vec<(Value, Value)>>,
}

impl View for Machine {
    type V = MachineView;

    closed spec fn view(&self) -> MachineView {
        MachineView {
            stack: self.stack@.map_values(|v: Value| v@),
            memo: self.memo@.map_values(|v: Value| v@),
            marker: match self.marker {
                Some(mk) => Some(mk as int),
                None => None,
            },
            lists: self.lists@.map_values(|l: Vec<Value>| l@.map_values(|v: Value| v@)),
            tuples: self.tuples@.map_values(|l: Vec<Value>| l@.map_values(|v: Value| v@)),
            dicts: self.dicts@.map_values(
                |d: Vec<(Value, Value)>| d@.map_values(|p: (Value, Value)| pair_view(p)),
            ),
        }
    }
}

impl Machine {
    /// A fresh machine: empty stack, empty memo, no mark.
    pub fn new() -> (r: Self)
        ensures
            r@ == initial(),
    {
        let r = Machine {
            stack: Vec::new(),
            memo: HashMap::new(),
            marker: None,
            lists: Vec::new(),
            tuples: Vec::new(),
            dicts: Vec::new(),
        };
        proof {
            assert(r@.stack =~= initial().stack);
            assert(r@.memo =~= initial().memo);
            assert(r@.lists =~= initial().lists);
            assert(r@.tuples =~= initial().tuples);
            assert(r@.dicts =~= initial().dicts);
        }
        r
    }

    /// Splits the stack at the mark: the suffix at and above the mark is
    /// returned, the prefix below it stays.  The mark itself is kept.
    fn split_off(&mut self) -> (r: Result<Vec<Value>, Error>)
        ensures
            match spec_split(old(self)@) {
                Ok(parts) => r matches Ok(items) && items@.map_values(|v: Value| v@) == parts.1
                    && final(self)@ == (MachineView { stack: parts.0, ..old(self)@ }),
                Err(e) => r == Err::<Vec<Value>, Error>(e) && final(self)@ == old(self)@,
            },
    {
        let at: usize = match self.marker {
            None => {
                return Err(Error::EmptyMarker);
            },
            Some(marker) => marker,
        };
        if at > self.stack.len() {
            return Err(Error::StackTooSmall);
        }
        let ghost pre = self@;
        let items = self.stack.split_off(at);
        proof {
            assert(self@.stack =~= pre.stack.subrange(0, at as int));
            assert(items@.map_values(|v: Value| v@) =~= pre.stack.subrange(
                at as int,
                pre.stack.len() as int,
            ));
        }
        Ok(items)
    }

    /// Pops the stack top.
    fn pop(&mut self) -> (r: Result<Value, Error>)
        ensures
            match r {
                Ok(v) => old(self)@.stack.len() > 0 && v@ == old(self)@.stack.last()
                    && final(self)@ == (MachineView {
                    stack: old(self)@.stack.drop_last(),
                    ..old(self)@
                }),
                Err(e) => e == Error::EmptyStack && old(self)@.stack.len() == 0
                    && final(self)@ == old(self)@,
            },
    {
        let ghost pre = self@;
        match self.stack.pop() {
            None => Err(Error::EmptyStack),
            Some(value) => {
                proof {
                    assert(pre.stack[pre.stack.len() - 1] == value@);
                    assert(self@.stack =~= pre.stack.drop_last());
                }
                Ok(value)
            },
        }
    }

    /// Pushes one value.
    fn push_value(&mut self, v: Value)
        ensures
            final(self)@ == pushed(old(self)@, v@),
    {
        let ghost pre = self@;
        self.stack.push(v);
        proof {
            assert(self@.stack =~= pre.stack.push(v@));
        }
    }

    /// Reads memo slot i and pushes the stored value: for a composite a
    /// handle to the same container.
    fn handle_get(&mut self, i: u64) -> (r: Result<(), Error>)
        ensures
            match r {
                Ok(u) => old(self)@.memo.dom().contains(i) && final(self)@ == pushed(
                    old(self)@,
                    old(self)@.memo[i],
                ),
                Err(e) => e == Error::InvalidGetValue && !old(self)@.memo.dom().contains(i)
                    && final(self)@ == old(self)@,
            },
    {
        let ghost pre = self@;
        let value = match self.memo.get(&i) {
            None => {
                proof {
                    assert(!pre.memo.dom().contains(i));
                }
                return Err(Error::InvalidGetValue);
            },
            Some(v) => v.clone(),
        };
        proof {
            assert(pre.memo.dom().contains(i));
            assert(value@ == pre.memo[i]);
        }
        self.push_value(value);
        Ok(())
    }

    /// Stores a copy of the stack top in memo slot i; for a composite the
    /// copy is another handle to the same container.
    fn handle_put(&mut self, i: u64) -> (r: Result<(), Error>)
        ensures
            match r {
                Ok(u) => old(self)@.stack.len() > 0 && final(self)@ == (MachineView {
                    memo: old(self)@.memo.insert(i, old(self)@.stack.last()),
                    ..old(self)@
                }),
                Err(e) => e == Error::EmptyStack && old(self)@.stack.len() == 0
                    && final(self)@ == old(self)@,
            },
    {
        if self.stack.len() == 0 {
            return Err(Error::EmptyStack);
        }
        let ghost pre = self@;
        let top = self.stack[self.stack.len() - 1].clone();
        self.memo.insert(i, top);
        proof {
            assert(self@.memo =~= pre.memo.insert(i, pre.stack.last()));
            assert(self@.stack =~= pre.stack);
        }
        Ok(())
    }
}

/// The four opcodes that pop or split the stack before checking that
/// their target has the right kind: only these can leave a shortened
/// stack behind a failing application.
pub open spec fn pops_before_check(op: crate::opcode::OpCodeView) -> bool {
    ||| op is Append
    ||| op is Appends
    ||| op is SetItem
    ||| op is SetItems
}

/// What a failing opcode application leaves behind: the memo, the mark
/// and the arenas are untouched, and so is the stack, except under the
/// four opcodes that pop or split before checking their target, which
/// leave a prefix of it.
pub open spec fn fail_leaves(pre: MachineView, post: MachineView, partial: bool) -> bool {
    if partial {
        &&& post.memo == pre.memo
        &&& post.marker == pre.marker
        &&& post.lists == pre.lists
        &&& post.tuples == pre.tuples
        &&& post.dicts == pre.dicts
        &&& post.stack.is_prefix_of(pre.stack)
    } else {
        post == pre
    }
}

proof fn lemma_prefix_refl(s: Seq<ValueView>)
    ensures
        s.is_prefix_of(s),
{
    assert(s =~= s.subrange(0, s.len() as int));
}

proof fn lemma_prefix_take(s: Seq<ValueView>, k: int)
    requires
        0 <= k <= s.len(),
    ensures
        s.subrange(0, k).is_prefix_of(s),
{
    assert(s.subrange(0, k) =~= s.subrange(0, s.subrange(0, k).len() as int));
}

/// What applying one opcode does: the next machine model, a halt, or the
/// error.
pub enum ApplyOutcome {
    Next(MachineView),
    Halt,
    Fail(Error),
}

/// The view of a pair of values.
pub open spec fn pair_view(p: (Value, Value)) -> (ValueView, ValueView) {
    (p.0@, p.1@)
}

/// The effect of one opcode on the machine model.  This is the whole
/// opcode semantics of the decoder: what each opcode pushes, pops,
/// memoizes or gathers, and the error it stops on.
pub open spec fn spec_apply(m: MachineView, op: crate::opcode::OpCodeView) -> ApplyOutcome {
    match op {
        crate::opcode::OpCodeView::Proto(v) => ApplyOutcome::Next(m),
        crate::opcode::OpCodeView::Stop => ApplyOutcome::Halt,
        crate::opcode::OpCodeView::Int(v) => match v {
            BooleanOrInt::Boolean(b) => ApplyOutcome::Next(pushed(m, ValueView::Bool(b))),
            BooleanOrInt::Int(n) => ApplyOutcome::Next(pushed(m, ValueView::Long(n as int))),
        },
        crate::opcode::OpCodeView::BinInt(n) => ApplyOutcome::Next(
            pushed(m, ValueView::Int(n as int)),
        ),
        crate::opcode::OpCodeView::BinInt1(n) => ApplyOutcome::Next(
            pushed(m, ValueView::Int(n as int)),
        ),
        crate::opcode::OpCodeView::BinInt2(n) => ApplyOutcome::Next(
            pushed(m, ValueView::Int(n as int)),
        ),
        crate::opcode::OpCodeView::Long(n) => ApplyOutcome::Next(pushed(m, ValueView::Long(n))),
        crate::opcode::OpCodeView::Long1(n) => ApplyOutcome::Next(pushed(m, ValueView::Long(n))),
        crate::opcode::OpCodeView::Long4(n) => ApplyOutcome::Next(pushed(m, ValueView::Long(n))),
        crate::opcode::OpCodeView::String(b) => ApplyOutcome::Next(
            pushed(m, ValueView::String(b)),
        ),
        crate::opcode::OpCodeView::BinString(b) => ApplyOutcome::Next(
            pushed(m, ValueView::String(b)),
        ),
        crate::opcode::OpCodeView::ShortBinString(b) => ApplyOutcome::Next(
            pushed(m, ValueView::String(b)),
        ),
        crate::opcode::OpCodeView::NoneValue => ApplyOutcome::Next(
            pushed(m, ValueView::NoneValue),
        ),
        crate::opcode::OpCodeView::NewTrue => ApplyOutcome::Next(
            pushed(m, ValueView::Bool(true)),
        ),
        crate::opcode::OpCodeView::NewFalse => ApplyOutcome::Next(
            pushed(m, ValueView::Bool(false)),
        ),
        crate::opcode::OpCodeView::Unicode(t) => ApplyOutcome::Next(
            pushed(m, ValueView::Unicode(t)),
        ),
        crate::opcode::OpCodeView::BinUnicode(t) => ApplyOutcome::Next(
            pushed(m, ValueView::Unicode(t)),
        ),
        crate::opcode::OpCodeView::Float(text) => ApplyOutcome::Next(
            pushed(m, ValueView::Float(FloatReprView::Literal(text))),
        ),
        crate::opcode::OpCodeView::BinFloat(bits) => ApplyOutcome::Next(
            pushed(m, ValueView::Float(FloatReprView::Binary(bits))),
        ),
        crate::opcode::OpCodeView::EmptyList => ApplyOutcome::Next(
            MachineView {
                stack: m.stack.push(ValueView::List(m.lists.len() as int)),
                lists: m.lists.push(Seq::empty()),
                ..m
            },
        ),
        crate::opcode::OpCodeView::Append => if m.stack.len() < 2 {
            ApplyOutcome::Fail(Error::EmptyStack)
        } else {
            let v = m.stack.last();
            let rest = m.stack.drop_last();
            match rest.last() {
                ValueView::List(h) => ApplyOutcome::Next(
                    MachineView { stack: rest, lists: m.lists.update(h, m.lists[h].push(v)), ..m },
                ),
                _ => ApplyOutcome::Fail(Error::InvalidValueOnStack),
            }
        },
        crate::opcode::OpCodeView::Appends => match spec_split(m) {
            Err(e) => ApplyOutcome::Fail(e),
            Ok(parts) => if parts.0.len() == 0 {
                ApplyOutcome::Fail(Error::EmptyStack)
            } else {
                match parts.0.last() {
                    ValueView::List(h) => ApplyOutcome::Next(
                        MachineView {
                            stack: parts.0,
                            lists: m.lists.update(h, m.lists[h] + parts.1),
                            ..m
                        },
                    ),
                    _ => ApplyOutcome::Fail(Error::InvalidValueOnStack),
                }
            },
        },
        crate::opcode::OpCodeView::List => match spec_split(m) {
            Err(e) => ApplyOutcome::Fail(e),
            Ok(parts) => ApplyOutcome::Next(
                MachineView {
                    stack: parts.0.push(ValueView::List(m.lists.len() as int)),
                    lists: m.lists.push(parts.1),
                    ..m
                },
            ),
        },
        crate::opcode::OpCodeView::EmptyTuple => ApplyOutcome::Next(
            MachineView {
                stack: m.stack.push(ValueView::Tuple(m.tuples.len() as int)),
                tuples: m.tuples.push(Seq::empty()),
                ..m
            },
        ),
        crate::opcode::OpCodeView::Tuple => match spec_split(m) {
            Err(e) => ApplyOutcome::Fail(e),
            Ok(parts) => ApplyOutcome::Next(
                MachineView {
                    stack: parts.0.push(ValueView::Tuple(m.tuples.len() as int)),
                    tuples: m.tuples.push(parts.1),
                    ..m
                },
            ),
        },
        crate::opcode::OpCodeView::Tuple1 => spec_small_tuple(m, 1),
        crate::opcode::OpCodeView::Tuple2 => spec_small_tuple(m, 2),
        crate::opcode::OpCodeView::Tuple3 => spec_small_tuple(m, 3),
        crate::opcode::OpCodeView::EmptyDict => ApplyOutcome::Next(
            MachineView {
                stack: m.stack.push(ValueView::Dict(m.dicts.len() as int)),
                dicts: m.dicts.push(Seq::empty()),
                ..m
            },
        ),
        crate::opcode::OpCodeView::Dict => match spec_split(m) {
            Err(e) => ApplyOutcome::Fail(e),
            Ok(parts) => ApplyOutcome::Next(
                MachineView {
                    stack: parts.0.push(ValueView::Dict(m.dicts.len() as int)),
                    dicts: m.dicts.push(pair_up(parts.1)),
                    ..m
                },
            ),
        },
        crate::opcode::OpCodeView::SetItem => if m.stack.len() < 3 {
            ApplyOutcome::Fail(Error::EmptyStack)
        } else {
            let value = m.stack[m.stack.len() - 1];
            let key = m.stack[m.stack.len() - 2];
            match m.stack[m.stack.len() - 3] {
                ValueView::Dict(h) => ApplyOutcome::Next(
                    MachineView {
                        stack: m.stack.subrange(0, m.stack.len() - 2),
                        dicts: m.dicts.update(h, m.dicts[h].push((key, value))),
                        ..m
                    },
                ),
                _ => ApplyOutcome::Fail(Error::InvalidValueOnStack),
            }
        },
        crate::opcode::OpCodeView::SetItems => match spec_split(m) {
            Err(e) => ApplyOutcome::Fail(e),
            Ok(parts) => if parts.0.len() == 0 {
                ApplyOutcome::Fail(Error::EmptyStack)
            } else {
                match parts.0.last() {
                    ValueView::Dict(h) => ApplyOutcome::Next(
                        MachineView {
                            stack: parts.0,
                            dicts: m.dicts.update(h, m.dicts[h] + pair_up(parts.1)),
                            ..m
                        },
                    ),
                    _ => ApplyOutcome::Fail(Error::InvalidValueOnStack),
                }
            },
        },
        crate::opcode::OpCodeView::Pop => if m.stack.len() == 0 {
            ApplyOutcome::Fail(Error::EmptyStack)
        } else {
            ApplyOutcome::Next(MachineView { stack: m.stack.drop_last(), ..m })
        },
        crate::opcode::OpCodeView::Dup => if m.stack.len() == 0 {
            ApplyOutcome::Fail(Error::EmptyStack)
        } else {
            ApplyOutcome::Next(pushed(m, m.stack.last()))
        },
        crate::opcode::OpCodeView::Mark => ApplyOutcome::Next(
            MachineView { marker: Some(m.stack.len() as int), ..m },
        ),
        crate::opcode::OpCodeView::PopMark => match spec_split(m) {
            Err(e) => ApplyOutcome::Fail(e),
            Ok(parts) => ApplyOutcome::Next(MachineView { stack: parts.0, ..m }),
        },
        crate::opcode::OpCodeView::Get(n) => spec_memo_get(m, n),
        crate::opcode::OpCodeView::BinGet(n) => spec_memo_get(m, n),
        crate::opcode::OpCodeView::LongBinGet(n) => spec_memo_get(m, n),
        crate::opcode::OpCodeView::Put(n) => spec_memo_put(m, n),
        crate::opcode::OpCodeView::BinPut(n) => spec_memo_put(m, n),
        crate::opcode::OpCodeView::LongBinPut(n) => spec_memo_put(m, n),
        _ => ApplyOutcome::Fail(Error::NotImplemented),
    }
}

/// The k topmost stack values become a tuple, in push order.
pub open spec fn spec_small_tuple(m: MachineView, k: int) -> ApplyOutcome {
    if m.stack.len() < k {
        ApplyOutcome::Fail(Error::EmptyStack)
    } else {
        ApplyOutcome::Next(
            MachineView {
                stack: m.stack.subrange(0, m.stack.len() - k).push(
                    ValueView::Tuple(m.tuples.len() as int),
                ),
                tuples: m.tuples.push(m.stack.subrange(m.stack.len() - k, m.stack.len() as int)),
                ..m
            },
        )
    }
}

/// Reading memo slot n pushes the stored value; an unset slot is an error.
pub open spec fn spec_memo_get(m: MachineView, n: u64) -> ApplyOutcome {
    if m.memo.dom().contains(n) {
        ApplyOutcome::Next(pushed(m, m.memo[n]))
    } else {
        ApplyOutcome::Fail(Error::InvalidGetValue)
    }
}

/// Writing memo slot n stores the stack top; the last write wins.
pub open spec fn spec_memo_put(m: MachineView, n: u64) -> ApplyOutcome {
    if m.stack.len() == 0 {
        ApplyOutcome::Fail(Error::EmptyStack)
    } else {
        ApplyOutcome::Next(MachineView { memo: m.memo.insert(n, m.stack.last()), ..m })
    }
}

/// Applying an opcode to a well-formed machine leaves it well formed.
#[verifier::rlimit(100)]
#[verifier::spinoff_prover]
pub proof fn lemma_apply_wf(m: MachineView, op: crate::opcode::OpCodeView)
    requires
        m.wf(),
    ensures
        spec_apply(m, op) matches ApplyOutcome::Next(m2) ==> m2.wf(),
{
    match spec_apply(m, op) {
        ApplyOutcome::Next(m2) => {
            assert(m2.lists.len() >= m.lists.len() && m2.tuples.len() >= m.tuples.len()
                && m2.dicts.len() >= m.dicts.len());
            assert forall|v: ValueView| value_ok(v, m) implies value_ok(v, m2) by {}
            assert forall|i: int| 0 <= i < m2.stack.len() implies value_ok(
                #[trigger] m2.stack[i],
                m2,
            ) by {
                lemma_stack_entry_ok(m, op, m2, i);
            }
            assert forall|k: u64| m2.memo.dom().contains(k) implies value_ok(
                #[trigger] m2.memo[k],
                m2,
            ) by {
                if m.memo.dom().contains(k) && m2.memo[k] == m.memo[k] {
                } else {
                }
            }
            assert forall|i: int, j: int|
                0 <= i < m2.lists.len() && 0 <= j < m2.lists[i].len() implies value_ok(
                #[trigger] m2.lists[i][j],
                m2,
            ) by {
                lemma_list_entry_ok(m, op, m2, i, j);
            }
            assert forall|i: int, j: int|
                0 <= i < m2.tuples.len() && 0 <= j < m2.tuples[i].len() implies value_ok(
                #[trigger] m2.tuples[i][j],
                m2,
            ) by {
                lemma_tuple_entry_ok(m, op, m2, i, j);
            }
            assert forall|i: int, j: int|
                0 <= i < m2.dicts.len() && 0 <= j < m2.dicts[i].len() implies value_ok(
                (#[trigger] m2.dicts[i][j]).0,
                m2,
            ) && value_ok(m2.dicts[i][j].1, m2) by {
                lemma_dict_entry_ok(m, op, m2, i, j);
            }
        },
        _ => {},
    }
}

/// Every value paired up out of ok values is a pair of ok values.
proof fn lemma_pair_up_ok(items: Seq<ValueView>, m: MachineView, i: int)
    requires
        forall|x: int| 0 <= x < items.len() ==> value_ok(#[trigger] items[x], m),
        0 <= i < pair_up(items).len(),
    ensures
        value_ok(pair_up(items)[i].0, m),
        value_ok(pair_up(items)[i].1, m),
        pair_up(items).len() <= items.len(),
    decreases items.len(),
{
    if items.len() >= 2 {
        assert(forall|x: int|
            0 <= x < items.skip(2).len() ==> items.skip(2)[x] == #[trigger] items[x + 2]);
        if i > 0 {
            lemma_pair_up_ok(items.skip(2), m, i - 1);
        } else {
            lemma_pair_up_len(items.skip(2));
        }
    }
}

proof fn lemma_pair_up_len(items: Seq<ValueView>)
    ensures
        pair_up(items).len() <= items.len(),
    decreases items.len(),
{
    if items.len() >= 2 {
        lemma_pair_up_len(items.skip(2));
    }
}

#[verifier::rlimit(100)]
#[verifier::spinoff_prover]
proof fn lemma_stack_entry_ok(
    m: MachineView,
    op: crate::opcode::OpCodeView,
    m2: MachineView,
    i: int,
)
    requires
        m.wf(),
        spec_apply(m, op) == ApplyOutcome::Next(m2),
        0 <= i < m2.stack.len(),
    ensures
        value_ok(m2.stack[i], m2),
{
}

#[verifier::rlimit(100)]
#[verifier::spinoff_prover]
proof fn lemma_list_entry_ok(
    m: MachineView,
    op: crate::opcode::OpCodeView,
    m2: MachineView,
    i: int,
    j: int,
)
    requires
        m.wf(),
        spec_apply(m, op) == ApplyOutcome::Next(m2),
        0 <= i < m2.lists.len(),
        0 <= j < m2.lists[i].len(),
    ensures
        value_ok(m2.lists[i][j], m2),
{
}

#[verifier::rlimit(100)]
#[verifier::spinoff_prover]
proof fn lemma_tuple_entry_ok(
    m: MachineView,
    op: crate::opcode::OpCodeView,
    m2: MachineView,
    i: int,
    j: int,
)
    requires
        m.wf(),
        spec_apply(m, op) == ApplyOutcome::Next(m2),
        0 <= i < m2.tuples.len(),
        0 <= j < m2.tuples[i].len(),
    ensures
        value_ok(m2.tuples[i][j], m2),
{
}

#[verifier::rlimit(100)]
#[verifier::spinoff_prover]
proof fn lemma_dict_entry_ok(
    m: MachineView,
    op: crate::opcode::OpCodeView,
    m2: MachineView,
    i: int,
    j: int,
)
    requires
        m.wf(),
        spec_apply(m, op) == ApplyOutcome::Next(m2),
        0 <= i < m2.dicts.len(),
        0 <= j < m2.dicts[i].len(),
    ensures
        value_ok(m2.dicts[i][j].0, m2),
        value_ok(m2.dicts[i][j].1, m2),
{
    match op {
        crate::opcode::OpCodeView::Dict => {
            if i == m.dicts.len() {
                let parts = spec_split(m)->Ok_0;
                let items = parts.1;
                let mk = m.marker->0;
                assert forall|x: int| 0 <= x < items.len() implies value_ok(
                    #[trigger] items[x],
                    m,
                ) by {
                    assert(items[x] == m.stack[mk + x]);
                }
                lemma_pair_up_ok(items, m, j);
            }
        },
        crate::opcode::OpCodeView::SetItems => {
            let parts = spec_split(m)->Ok_0;
            let items = parts.1;
            let mk = m.marker->0;
            match parts.0.last() {
                ValueView::Dict(h) => {
                    if i == h && j >= m.dicts[h].len() {
                        assert forall|x: int| 0 <= x < items.len() implies value_ok(
                            #[trigger] items[x],
                            m,
                        ) by {
                            assert(items[x] == m.stack[mk + x]);
                        }
                        lemma_pair_up_ok(items, m, j - m.dicts[h].len());
                        assert(m2.dicts[i][j] == pair_up(items)[j - m.dicts[h].len()]);
                    }
                },
                _ => {},
            }
        },
        _ => {},
    }
}

impl Machine {
    /// Adds a new list to its arena, handing back the handle.
    fn new_list(&mut self, items: Vec<Value>) -> (h: usize)
        ensures
            h as int == old(self)@.lists.len(),
            final(self)@ == (MachineView {
                lists: old(self)@.lists.push(items@.map_values(|v: Value| v@)),
                ..old(self)@
            }),
    {
        let ghost pre = self@;
        let h = self.lists.len();
        self.lists.push(items);
        proof {
            assert(self@.lists =~= pre.lists.push(items@.map_values(|v: Value| v@)));
        }
        h
    }

    /// Adds a new tuple to its arena, handing back the handle.
    fn new_tuple(&mut self, items: Vec<Value>) -> (h: usize)
        ensures
            h as int == old(self)@.tuples.len(),
            final(self)@ == (MachineView {
                tuples: old(self)@.tuples.push(items@.map_values(|v: Value| v@)),
                ..old(self)@
            }),
    {
        let ghost pre = self@;
        let h = self.tuples.len();
        self.tuples.push(items);
        proof {
            assert(self@.tuples =~= pre.tuples.push(items@.map_values(|v: Value| v@)));
        }
        h
    }

    /// Adds a new dictionary to its arena, handing back the handle.
    fn new_dict(&mut self, pairs: Vec<(Value, Value)>) -> (h: usize)
        ensures
            h as int == old(self)@.dicts.len(),
            final(self)@ == (MachineView {
                dicts: old(self)@.dicts.push(pairs@.map_values(|p: (Value, Value)| pair_view(p))),
                ..old(self)@
            }),
    {
        let ghost pre = self@;
        let h = self.dicts.len();
        self.dicts.push(pairs);
        proof {
            assert(self@.dicts =~= pre.dicts.push(
                pairs@.map_values(|p: (Value, Value)| pair_view(p)),
            ));
        }
        h
    }

    /// Appends one value to the list behind handle h.
    fn list_push(&mut self, h: usize, v: Value)
        requires
            (h as int) < old(self)@.lists.len(),
        ensures
            final(self)@ == (MachineView {
                lists: old(self)@.lists.update(h as int, old(self)@.lists[h as int].push(v@)),
                ..old(self)@
            }),
    {
        let ghost pre = self@;
        let ghost vv = v@;
        self.lists[h].push(v);
        proof {
            assert(self@.lists =~~= pre.lists.update(h as int, pre.lists[h as int].push(vv)));
        }
    }

    /// Appends every given value, in order, to the list behind handle h.
    fn list_extend(&mut self, h: usize, items: Vec<Value>)
        requires
            (h as int) < old(self)@.lists.len(),
        ensures
            final(self)@ == (MachineView {
                lists: old(self)@.lists.update(
                    h as int,
                    old(self)@.lists[h as int] + items@.map_values(|v: Value| v@),
                ),
                ..old(self)@
            }),
    {
        let ghost pre = self@;
        let ghost itemsv = items@.map_values(|v: Value| v@);
        let mut items = items;
        self.lists[h].append(&mut items);
        proof {
            assert(self@.lists =~~= pre.lists.update(h as int, pre.lists[h as int] + itemsv));
        }
    }

    /// Appends one entry to the dictionary behind handle h.
    fn dict_push(&mut self, h: usize, key: Value, value: Value)
        requires
            (h as int) < old(self)@.dicts.len(),
        ensures
            final(self)@ == (MachineView {
                dicts: old(self)@.dicts.update(
                    h as int,
                    old(self)@.dicts[h as int].push((key@, value@)),
                ),
                ..old(self)@
            }),
    {
        let ghost pre = self@;
        let ghost kv = (key@, value@);
        self.dicts[h].push((key, value));
        proof {
            assert(self@.dicts =~~= pre.dicts.update(h as int, pre.dicts[h as int].push(kv)));
        }
    }

    /// Appends every given entry, in order, to the dictionary behind h.
    fn dict_extend(&mut self, h: usize, pairs: Vec<(Value, Value)>)
        requires
            (h as int) < old(self)@.dicts.len(),
        ensures
            final(self)@ == (MachineView {
                dicts: old(self)@.dicts.update(
                    h as int,
                    old(self)@.dicts[h as int] + pairs@.map_values(
                        |p: (Value, Value)| pair_view(p),
                    ),
                ),
                ..old(self)@
            }),
    {
        let ghost pre = self@;
        let ghost pairsv = pairs@.map_values(|p: (Value, Value)| pair_view(p));
        let mut pairs = pairs;
        self.dicts[h].append(&mut pairs);
        proof {
            assert(self@.dicts =~~= pre.dicts.update(h as int, pre.dicts[h as int] + pairsv));
        }
    }
}

/// Pairs up consecutive values in order; a trailing odd value is dropped.
fn pair_items(items: Vec<Value>) -> (r: Vec<(Value, Value)>)
    ensures
        r@.map_values(|p: (Value, Value)| pair_view(p)) == pair_up(
            items@.map_values(|v: Value| v@),
        ),
{
    let ghost target = pair_up(items@.map_values(|v: Value| v@));
    let mut rest = items;
    let mut out: Vec<(Value, Value)> = Vec::new();
    proof {
        assert(out@.map_values(|p: (Value, Value)| pair_view(p)) =~= Seq::<
            (ValueView, ValueView),
        >::empty());
    }
    while rest.len() >= 2
        invariant
            out@.map_values(|p: (Value, Value)| pair_view(p)) + pair_up(
                rest@.map_values(|v: Value| v@),
            ) == target,
        decreases rest.len(),
    {
        let ghost restv = rest@.map_values(|v: Value| v@);
        let ghost outv = out@.map_values(|p: (Value, Value)| pair_view(p));
        let k = rest.remove(0);
        let ghost mid = rest@;
        let v = rest.remove(0);
        proof {
            assert(restv[0] == k@);
            assert(mid[0] == v);
            assert(restv[1] == v@);
            assert(rest@.map_values(|v: Value| v@) =~= restv.skip(2));
        }
        out.push((k, v));
        proof {
            assert(out@.map_values(|p: (Value, Value)| pair_view(p)) =~= outv.push((k@, v@)));
            assert(outv.push((k@, v@)) =~= outv + seq![(k@, v@)]);
            assert((outv + seq![(k@, v@)]) + pair_up(restv.skip(2)) =~= outv + (seq![(k@, v@)]
                + pair_up(restv.skip(2))));
            assert(seq![(k@, v@)] + pair_up(restv.skip(2)) =~= seq![(restv[0], restv[1])]
                + pair_up(restv.skip(2)));
        }
    }
    proof {
        assert(pair_up(rest@.map_values(|v: Value| v@)) =~= Seq::<(ValueView, ValueView)>::empty());
        assert(out@.map_values(|p: (Value, Value)| pair_view(p)) + Seq::<
            (ValueView, ValueView),
        >::empty() =~= out@.map_values(|p: (Value, Value)| pair_view(p)));
    }
    out
}

impl Machine {
    /// Applies one decoded opcode: true when the machine halted on the
    /// stop opcode.
    pub fn apply(&mut self, op: crate::opcode::OpCode) -> (r: Result<bool, Error>)
        requires
            old(self)@.wf(),
        ensures
            match spec_apply(old(self)@, op@) {
                ApplyOutcome::Next(m2) => r == Ok::<bool, Error>(false) && final(self)@ == m2,
                ApplyOutcome::Halt => r == Ok::<bool, Error>(true) && final(self)@ == old(self)@,
                ApplyOutcome::Fail(e) => r == Err::<bool, Error>(e) && fail_leaves(
                    old(self)@,
                    final(self)@,
                    pops_before_check(op@),
                ),
            },
    {
        let ghost pre = self@;
        match op {
            crate::opcode::OpCode::Proto(_v) => Ok(false),
            crate::opcode::OpCode::Stop => Ok(true),
            crate::opcode::OpCode::Int(v) => {
                match v {
                    BooleanOrInt::Boolean(b) => self.push_value(Value::Bool(b)),
                    BooleanOrInt::Int(n) => self.push_value(Value::Long(
                        crate::bignum::BigNum::from_i64(n),
                    )),
                }
                Ok(false)
            },
            crate::opcode::OpCode::BinInt(n) => {
                self.push_value(Value::Int(n as i64));
                Ok(false)
            },
            crate::opcode::OpCode::BinInt1(n) => {
                self.push_value(Value::Int(n as i64));
                Ok(false)
            },
            crate::opcode::OpCode::BinInt2(n) => {
                self.push_value(Value::Int(n as i64));
                Ok(false)
            },
            crate::opcode::OpCode::Long(n) => {
                self.push_value(Value::Long(n));
                Ok(false)
            },
            crate::opcode::OpCode::Long1(n) => {
                self.push_value(Value::Long(n));
                Ok(false)
            },
            crate::opcode::OpCode::Long4(n) => {
                self.push_value(Value::Long(n));
                Ok(false)
            },
            crate::opcode::OpCode::String(b) => {
                self.push_value(Value::String(b));
                Ok(false)
            },
            crate::opcode::OpCode::BinString(b) => {
                self.push_value(Value::String(b));
                Ok(false)
            },
            crate::opcode::OpCode::ShortBinString(b) => {
                self.push_value(Value::String(b));
                Ok(false)
            },
            crate::opcode::OpCode::NoneValue => {
                self.push_value(Value::NoneValue);
                Ok(false)
            },
            crate::opcode::OpCode::NewTrue => {
                self.push_value(Value::Bool(true));
                Ok(false)
            },
            crate::opcode::OpCode::NewFalse => {
                self.push_value(Value::Bool(false));
                Ok(false)
            },
            crate::opcode::OpCode::Unicode(t) => {
                self.push_value(Value::Unicode(t));
                Ok(false)
            },
            crate::opcode::OpCode::BinUnicode(t) => {
                self.push_value(Value::Unicode(t));
                Ok(false)
            },
            crate::opcode::OpCode::Float(text) => {
                self.push_value(Value::Float(crate::value::FloatRepr::Literal(text)));
                Ok(false)
            },
            crate::opcode::OpCode::BinFloat(bits) => {
                self.push_value(Value::Float(crate::value::FloatRepr::Binary(bits)));
                Ok(false)
            },
            crate::opcode::OpCode::EmptyList => {
                let h = self.new_list(Vec::new());
                self.push_value(Value::List(h));
                proof {
                    assert(Seq::<Value>::empty().map_values(|v: Value| v@) =~= Seq::<
                        ValueView,
                    >::empty());
                }
                Ok(false)
            },
            crate::opcode::OpCode::Append => {
                let v = match self.pop() {
                    Ok(v) => v,
                    Err(e) => {
                        proof {
                            lemma_prefix_refl(pre.stack);
                        }
                        return Err(e);
                    },
                };
                proof {
                    lemma_prefix_take(pre.stack, pre.stack.len() - 1);
                    assert(self@.stack =~= pre.stack.subrange(0, pre.stack.len() - 1));
                }
                if self.stack.len() == 0 {
                    return Err(Error::EmptyStack);
                }
                let n = self.stack.len();
                proof {
                    assert(self@.stack.len() == pre.stack.len() - 1);
                    assert(self@.stack[self@.stack.len() - 1] == pre.stack.drop_last().last());
                    assert(value_ok(pre.stack[pre.stack.len() - 2], pre));
                }
                let h: usize = match &self.stack[n - 1] {
                    Value::List(h) => *h,
                    _ => {
                        return Err(Error::InvalidValueOnStack);
                    },
                };
                self.list_push(h, v);
                Ok(false)
            },
            crate::opcode::OpCode::Appends => {
                let items = match self.split_off() {
                    Ok(items) => items,
                    Err(e) => {
                        proof {
                            lemma_prefix_refl(pre.stack);
                        }
                        return Err(e);
                    },
                };
                proof {
                    lemma_prefix_take(pre.stack, spec_split(pre)->Ok_0.0.len() as int);
                }
                if self.stack.len() == 0 {
                    return Err(Error::EmptyStack);
                }
                let n = self.stack.len();
                proof {
                    let parts = spec_split(pre)->Ok_0;
                    assert(self@.stack[self@.stack.len() - 1] == parts.0.last());
                    assert(parts.0[parts.0.len() - 1] == pre.stack[parts.0.len() - 1]);
                    assert(value_ok(pre.stack[parts.0.len() - 1], pre));
                }
                let h: usize = match &self.stack[n - 1] {
                    Value::List(h) => *h,
                    _ => {
                        return Err(Error::InvalidValueOnStack);
                    },
                };
                self.list_extend(h, items);
                Ok(false)
            },
            crate::opcode::OpCode::List => {
                let items = self.split_off()?;
                let h = self.new_list(items);
                self.push_value(Value::List(h));
                Ok(false)
            },
            crate::opcode::OpCode::EmptyTuple => {
                let h = self.new_tuple(Vec::new());
                self.push_value(Value::Tuple(h));
                proof {
                    assert(Seq::<Value>::empty().map_values(|v: Value| v@) =~= Seq::<
                        ValueView,
                    >::empty());
                }
                Ok(false)
            },
            crate::opcode::OpCode::Tuple => {
                let items = self.split_off()?;
                let h = self.new_tuple(items);
                self.push_value(Value::Tuple(h));
                Ok(false)
            },
            crate::opcode::OpCode::Tuple1 => self.small_tuple(1),
            crate::opcode::OpCode::Tuple2 => self.small_tuple(2),
            crate::opcode::OpCode::Tuple3 => self.small_tuple(3),
            crate::opcode::OpCode::EmptyDict => {
                let h = self.new_dict(Vec::new());
                self.push_value(Value::Dict(h));
                proof {
                    assert(Seq::<(Value, Value)>::empty().map_values(
                        |p: (Value, Value)| pair_view(p),
                    ) =~= Seq::<(ValueView, ValueView)>::empty());
                }
                Ok(false)
            },
            crate::opcode::OpCode::Dict => {
                let items = self.split_off()?;
                let pairs = pair_items(items);
                let h = self.new_dict(pairs);
                self.push_value(Value::Dict(h));
                Ok(false)
            },
            crate::opcode::OpCode::SetItem => {
                let value = match self.pop() {
                    Ok(v) => v,
                    Err(e) => {
                        proof {
                            lemma_prefix_refl(pre.stack);
                        }
                        return Err(e);
                    },
                };
                let key = match self.pop() {
                    Ok(v) => v,
                    Err(e) => {
                        proof {
                            lemma_prefix_take(pre.stack, pre.stack.len() - 1);
                            assert(self@.stack =~= pre.stack.subrange(0, pre.stack.len() - 1));
                        }
                        return Err(e);
                    },
                };
                proof {
                    lemma_prefix_take(pre.stack, pre.stack.len() - 2);
                    assert(self@.stack =~= pre.stack.subrange(0, pre.stack.len() - 2));
                }
                if self.stack.len() == 0 {
                    proof {
                        assert(self@.stack.len() == 0);
                        assert(pre.stack.len() == 2);
                    }
                    return Err(Error::EmptyStack);
                }
                let n = self.stack.len();
                proof {
                    assert(self@.stack =~= pre.stack.subrange(0, pre.stack.len() - 2));
                    assert(self@.stack[self@.stack.len() - 1] == pre.stack[pre.stack.len() - 3]);
                    assert(value_ok(pre.stack[pre.stack.len() - 3], pre));
                }
                let h: usize = match &self.stack[n - 1] {
                    Value::Dict(h) => *h,
                    _ => {
                        return Err(Error::InvalidValueOnStack);
                    },
                };
                self.dict_push(h, key, value);
                Ok(false)
            },
            crate::opcode::OpCode::SetItems => {
                let items = match self.split_off() {
                    Ok(items) => items,
                    Err(e) => {
                        proof {
                            lemma_prefix_refl(pre.stack);
                        }
                        return Err(e);
                    },
                };
                proof {
                    lemma_prefix_take(pre.stack, spec_split(pre)->Ok_0.0.len() as int);
                }
                if self.stack.len() == 0 {
                    return Err(Error::EmptyStack);
                }
                let n = self.stack.len();
                proof {
                    let parts = spec_split(pre)->Ok_0;
                    assert(self@.stack[self@.stack.len() - 1] == parts.0.last());
                    assert(parts.0[parts.0.len() - 1] == pre.stack[parts.0.len() - 1]);
                    assert(value_ok(pre.stack[parts.0.len() - 1], pre));
                }
                let h: usize = match &self.stack[n - 1] {
                    Value::Dict(h) => *h,
                    _ => {
                        return Err(Error::InvalidValueOnStack);
                    },
                };
                let pairs = pair_items(items);
                self.dict_extend(h, pairs);
                Ok(false)
            },
            crate::opcode::OpCode::Pop => {
                let _ = self.pop()?;
                Ok(false)
            },
            crate::opcode::OpCode::Dup => {
                if self.stack.len() == 0 {
                    return Err(Error::EmptyStack);
                }
                let n = self.stack.len();
                let v = self.stack[n - 1].clone();
                self.push_value(v);
                Ok(false)
            },
            crate::opcode::OpCode::Mark => {
                self.marker = Some(self.stack.len());
                proof {
                    assert(self@.stack =~= pre.stack);
                }
                Ok(false)
            },
            crate::opcode::OpCode::PopMark => {
                let _ = self.split_off()?;
                Ok(false)
            },
            crate::opcode::OpCode::Get(n) => {
                self.handle_get(n)?;
                Ok(false)
            },
            crate::opcode::OpCode::BinGet(n) => {
                self.handle_get(n)?;
                Ok(false)
            },
            crate::opcode::OpCode::LongBinGet(n) => {
                self.handle_get(n)?;
                Ok(false)
            },
            crate::opcode::OpCode::Put(n) => {
                self.handle_put(n)?;
                Ok(false)
            },
            crate::opcode::OpCode::BinPut(n) => {
                self.handle_put(n)?;
                Ok(false)
            },
            crate::opcode::OpCode::LongBinPut(n) => {
                self.handle_put(n)?;
                Ok(false)
            },
            _ => Err(Error::NotImplemented),
        }
    }

    /// Gathers the k topmost stack values, in push order, into a tuple.
    fn small_tuple(&mut self, k: usize) -> (r: Result<bool, Error>)
        requires
            old(self)@.wf(),
            1 <= k <= 3,
        ensures
            match spec_small_tuple(old(self)@, k as int) {
                ApplyOutcome::Next(m2) => r == Ok::<bool, Error>(false) && final(self)@ == m2,
                ApplyOutcome::Halt => false,
                ApplyOutcome::Fail(e) => r == Err::<bool, Error>(e) && final(self)@ == old(
                    self,
                )@,
            },
    {
        let ghost pre = self@;
        if self.stack.len() < k {
            return Err(Error::EmptyStack);
        }
        let at = self.stack.len() - k;
        let items = self.stack.split_off(at);
        proof {
            assert(self@.stack =~= pre.stack.subrange(0, at as int));
            assert(items@.map_values(|v: Value| v@) =~= pre.stack.subrange(
                at as int,
                pre.stack.len() as int,
            ));
        }
        let h = self.new_tuple(items);
        self.push_value(Value::Tuple(h));
        Ok(false)
    }
}

/// What one whole step does: the next model and cursor, a halt, or the
/// error.
pub enum StepOutcome {
    Next(MachineView, int),
    Halt(MachineView, int),
    Fail(Error),
}

/// One step of the decode: read one opcode with its operands at pos,
/// then apply it.
pub open spec fn spec_step(m: MachineView, input: Seq<u8>, pos: int) -> StepOutcome {
    match crate::opcode::spec_read_opcode(input, pos) {
        crate::opcode::OpRead::Fail(e) => StepOutcome::Fail(e),
        crate::opcode::OpRead::Op(op, p) => match spec_apply(m, op) {
            ApplyOutcome::Fail(e) => StepOutcome::Fail(e),
            ApplyOutcome::Halt => StepOutcome::Halt(m, p),
            ApplyOutcome::Next(m2) => StepOutcome::Next(m2, p),
        },
    }
}

/// How a whole decode ends: the model and cursor at the stop opcode, or
/// the first error.
pub enum RunOutcome {
    Done(MachineView, int),
    Fail(Error),
}

/// Runs the machine from pos until it halts or fails.  Every successful
/// step consumes at least the opcode byte, so the run ends.
pub open spec fn spec_run(m: MachineView, input: Seq<u8>, pos: int) -> RunOutcome
    decreases input.len() - pos,
{
    match spec_step(m, input, pos) {
        StepOutcome::Fail(e) => RunOutcome::Fail(e),
        StepOutcome::Halt(m2, p2) => RunOutcome::Done(m2, p2),
        StepOutcome::Next(m2, p2) => if pos < p2 <= input.len() {
            spec_run(m2, input, p2)
        } else {
            RunOutcome::Fail(Error::Read)
        },
    }
}

impl Machine {
    /// Performs one step: reads one opcode at the cursor and applies it.
    /// Returns true when the machine halted on the stop opcode.
    pub fn execute(&mut self, input: &Vec<u8>, pos: &mut usize) -> (r: Result<bool, Error>)
        requires
            old(self)@.wf(),
            *old(pos) <= input@.len(),
        ensures
            match spec_step(old(self)@, input@, *old(pos) as int) {
                StepOutcome::Next(m2, p2) => r == Ok::<bool, Error>(false) && final(self)@ == m2
                    && m2.wf() && *final(pos) == p2 && *old(pos) < p2 <= input@.len(),
                StepOutcome::Halt(m2, p2) => r == Ok::<bool, Error>(true) && final(self)@ == m2
                    && m2.wf() && *final(pos) == p2 && *old(pos) < p2 <= input@.len(),
                StepOutcome::Fail(e) => r == Err::<bool, Error>(e) && (match
                crate::opcode::spec_read_opcode(input@, *old(pos) as int) {
                    crate::opcode::OpRead::Fail(re) => final(self)@ == old(self)@,
                    crate::opcode::OpRead::Op(op, p) => fail_leaves(
                        old(self)@,
                        final(self)@,
                        pops_before_check(op),
                    ),
                }),
            },
    {
        let op = crate::opcode::read_opcode(input, pos)?;
        proof {
            lemma_apply_wf(self@, op@);
        }
        let halted = self.apply(op)?;
        Ok(halted)
    }
}

/// A decoded document: the root value and the arenas its composite
/// handles point into.
#[derive(Debug)]
pub struct Unpickled {
    pub root: Value,
    pub lists: Vec<Vec<Value>>,
    pub tuples: Vec<Vec<Value>>,
    pub dicts: Vec<Vec<(Value, Value)>>,
}

/// Mathematical model of a decoded document.
pub struct UnpickledView {
    pub root: ValueView,
    pub lists: Seq<Seq<ValueView>>,
    pub tuples: Seq<Seq<ValueView>>,
    pub dicts: Seq<Seq<(ValueView, ValueView)>>,
}

impl View for Unpickled {
    type V = UnpickledView;

    closed spec fn view(&self) -> UnpickledView {
        UnpickledView {
            root: self.root@,
            lists: self.lists@.map_values(|l: Vec<Value>| l@.map_values(|v: Value| v@)),
            tuples: self.tuples@.map_values(|l: Vec<Value>| l@.map_values(|v: Value| v@)),
            dicts: self.dicts@.map_values(
                |d: Vec<(Value, Value)>| d@.map_values(|p: (Value, Value)| pair_view(p)),
            ),
        }
    }
}

/// Every composite handle in the document, starting from the root,
/// points into its arenas.
pub open spec fn doc_wf(d: UnpickledView) -> bool {
    (MachineView {
        stack: seq![d.root],
        memo: Map::empty(),
        marker: None,
        lists: d.lists,
        tuples: d.tuples,
        dicts: d.dicts,
    }).wf()
}

/// Drives a fresh machine over the whole input until the stop opcode,
/// then returns the single remaining stack value with the arenas it
/// needs.  After a successful decode the stack held exactly one value.
pub fn unpickle(input: &Vec<u8>) -> (r: Result<Unpickled, Error>)
    ensures
        match spec_run(initial(), input@, 0) {
            RunOutcome::Done(mf, p) => if mf.stack.len() == 1 {
                r matches Ok(u) && u@.root == mf.stack[0] && u@.lists == mf.lists && u@.tuples
                    == mf.tuples && u@.dicts == mf.dicts
            } else if mf.stack.len() == 0 {
                r == Err::<Unpickled, Error>(Error::EmptyStack)
            } else {
                r == Err::<Unpickled, Error>(Error::InvalidValueOnStack)
            },
            RunOutcome::Fail(e) => r == Err::<Unpickled, Error>(e),
        },
        r is Ok ==> (spec_run(initial(), input@, 0) matches RunOutcome::Done(mf, p)
            && mf.stack.len() == 1),
        r matches Ok(u) ==> doc_wf(u@),
{
    let mut machine = Machine::new();
    let mut pos: usize = 0;
    let mut halted = false;
    while !halted
        invariant
            pos <= input@.len(),
            machine@.wf(),
            !halted ==> spec_run(initial(), input@, 0) == spec_run(
                machine@,
                input@,
                pos as int,
            ),
            halted ==> spec_run(initial(), input@, 0) == RunOutcome::Done(machine@, pos as int),
        decreases input@.len() - pos,
    {
        match machine.execute(input, &mut pos) {
            Err(e) => {
                return Err(e);
            },
            Ok(h) => {
                halted = h;
            },
        }
    }
    let ghost mf = machine@;
    let Machine { stack: mut remaining, memo: _, marker: _, lists, tuples, dicts } = machine;
    if remaining.len() == 0 {
        return Err(Error::EmptyStack);
    }
    if remaining.len() > 1 {
        return Err(Error::InvalidValueOnStack);
    }
    let root = match remaining.pop() {
        Some(v) => v,
        None => {
            return Err(Error::EmptyStack);
        },
    };
    let u = Unpickled { root, lists, tuples, dicts };
    proof {
        assert(u@.root == mf.stack[0]);
        let m = MachineView {
            stack: seq![u@.root],
            memo: Map::<u64, ValueView>::empty(),
            marker: None,
            lists: u@.lists,
            tuples: u@.tuples,
            dicts: u@.dicts,
        };
        assert forall|v: ValueView| value_ok(v, mf) implies value_ok(v, m) by {}
        assert(m.stack[0] == mf.stack[0]);
        assert(m.wf());
    }
    Ok(u)
}

/// Storing the stack top in a memo slot and reading the same slot back
/// pushes the very value that was stored: the two topmost stack entries
/// are then the same value, and for a composite the same handle into the
/// same arena, so a mutation through either is seen through the other.
pub proof fn lemma_memo_round_trip(m: MachineView, n: u64)
    requires
        m.stack.len() > 0,
    ensures
        spec_apply(m, crate::opcode::OpCodeView::Put(n)) matches ApplyOutcome::Next(m1) && {
            &&& spec_apply(m1, crate::opcode::OpCodeView::Get(n)) matches ApplyOutcome::Next(m2)
            &&& m2.stack.len() == m.stack.len() + 1
            &&& m2.stack.last() == m.stack.last()
            &&& m2.stack[m2.stack.len() - 2] == m.stack.last()
            &&& m2.lists == m.lists
            &&& m2.tuples == m.tuples
            &&& m2.dicts == m.dicts
        },
{
}

/// A mutation through one reference to a memoized composite is seen
/// through every other.  After the stack-top list is stored in a memo
/// slot and read back, appending a value through the handle on the stack
/// changes the very container the slot names: a later read of the slot
/// pushes the same handle, behind which the appended value stands.
pub proof fn lemma_memo_mutation_visible(m: MachineView, n: u64, h: int, x: ValueView)
    requires
        m.stack.len() > 0,
        m.stack.last() == ValueView::List(h),
        0 <= h < m.lists.len(),
    ensures
        spec_apply(m, crate::opcode::OpCodeView::Put(n)) matches ApplyOutcome::Next(m1) && {
            &&& spec_apply(m1, crate::opcode::OpCodeView::Get(n)) matches ApplyOutcome::Next(m2)
            &&& spec_apply(pushed(m2, x), crate::opcode::OpCodeView::Append)
                matches ApplyOutcome::Next(m3)
            &&& m3.lists[h] == m.lists[h].push(x)
            &&& m3.memo[n] == ValueView::List(h)
            &&& spec_apply(m3, crate::opcode::OpCodeView::Get(n)) matches ApplyOutcome::Next(m4)
            &&& m4.stack.last() == ValueView::List(h)
            &&& m4.lists[h] == m.lists[h].push(x)
        },
{
}

/// A byte outside the recognized opcode set decodes, alone, to exactly
/// the unknown-opcode error naming that byte.
pub proof fn lemma_unknown_opcode(b: u8)
    requires
        !crate::opcode::is_recognized(b),
    ensures
        spec_run(initial(), seq![b], 0) == RunOutcome::Fail(Error::UnknownOpcode(b)),
{
    assert(seq![b][0] == b);
    assert(crate::opcode::spec_read_opcode(seq![b], 0) == crate::opcode::OpRead::Fail(
        Error::UnknownOpcode(b),
    ));
}

/// Every opcode that carries a four-byte signed length or index field
/// fails with the negative-length error when that field is negative:
/// the four-byte long, the length-prefixed string and unicode opcodes,
/// and the wide memo get and put.
pub proof fn lemma_negative_length(m: MachineView, input: Seq<u8>, pos: int)
    requires
        0 <= pos < input.len(),
        input[pos] == 0x8b || input[pos] == 0x54 || input[pos] == 0x58 || input[pos] == 0x6a
            || input[pos] == 0x72,
        crate::opcode::spec_read_exact(input, pos + 1, 4) matches Some(v)
            && crate::opcode::spec_i32_le(v.0) < 0,
    ensures
        spec_step(m, input, pos) == StepOutcome::Fail(Error::NegativeLength),
{
}

} // verus!
