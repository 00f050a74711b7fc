//! The virtual machine: a bounded operand stack, a table of globals, and a
//! dispatch loop over the elements of a chunk.
//!
//! The machine computes sums, differences, products and quotients itself.
//! For a power it suspends with a [`Request`]; the host computes the value
//! and hands it to [`VM::resume`]. Printing is left to the host as well:
//! the machine records what a program prints.
//!
//! What the machine does where a program goes wrong:
//!
//! - Every push and pop is checked. An instruction that finds the stack
//!   full or too short ends the run with a runtime error.
//! - An operand that is missing or lies outside the pool, an element that
//!   is no instruction where one is due, and the end of the code without
//!   `OpReturn` end the run with a runtime error.
//! - `OpAdd` concatenates when the top of the stack is a text and then
//!   wants a text below it; otherwise it wants two numbers. Nothing is
//!   converted.
//! - `OpSetGlobal` binds its identifier whether or not it was bound.
//! - `OpCall` with `backward` pushes nothing. The compiler pushes `nil`
//!   behind such a call, so that in a source text it is an expression like
//!   every other call.
use vstd::prelude::*;
use std::collections::HashMap;
use vstd::string::*;
use crate::chunk::{
    aligned, backward_name, effect, lemma_net_step, names_within, net,
    operand_at, Chunk, OpCode, VectorType,
};
use crate::compiler::{compilation, compile, error_text, lemma_compilation, Parse};
use crate::interner::{
    distinct, extends, handle_of, interned, lemma_interned_distinct, Interner,
};
use crate::arithmetic::{
    difference, number_add, number_divide, number_multiply, number_subtract, product, quotient,
    sum,
};
use crate::number::{below, negated, number_less, number_negate, NumericOp, Request};
use crate::tensor::{backward_of, gradient_of, graph_wf, relu_of, Graph, Node};
use crate::value::{equal_values, truthy, StringHandle, TensorRef, ValueType};

verus! {

/// Capacity of the operand stack.
pub const STACK_MAX: usize = 256;

/// How an interpretation ended.
#[derive(Debug, PartialEq)]
pub enum Result {
    /// The program returned; the values it printed, in order.
    Success(Vec<ValueType>),
    CompileErr(String),
    RuntimeErr(String),
}

/// What the machine reports when it stops executing.
#[derive(Debug, PartialEq)]
pub enum Status {
    /// The interpretation is over.
    Finished(Result),
    /// The machine waits for the host to compute this operation and to
    /// hand the value to `resume`.
    Suspended(Request),
}

/// The mathematical content of a [`Result`].
pub enum Verdict {
    Success(Seq<ValueType>),
    CompileErr(Seq<char>),
    RuntimeErr(Seq<char>),
}

/// The mathematical content of a [`Status`].
pub enum Outcome {
    Finished(Verdict),
    Suspended(Request),
}

impl View for Result {
    type V = Verdict;

    open spec fn view(&self) -> Verdict {
        match self {
            Result::Success(values) => Verdict::Success(values@),
            Result::CompileErr(message) => Verdict::CompileErr(message@),
            Result::RuntimeErr(message) => Verdict::RuntimeErr(message@),
        }
    }
}

impl View for Status {
    type V = Outcome;

    open spec fn view(&self) -> Outcome {
        match self {
            Status::Finished(result) => Outcome::Finished(result@),
            Status::Suspended(request) => Outcome::Suspended(*request),
        }
    }
}

/// How a result reads: `Ok`, or the kind of the error and its message.
pub open spec fn result_text(verdict: Verdict) -> Seq<char> {
    match verdict {
        Verdict::Success(_) => "Ok"@,
        Verdict::CompileErr(message) => "Compile error : "@ + message,
        Verdict::RuntimeErr(message) => "Runtime error : "@ + message,
    }
}

impl Result {
    /// The text of the result, as it is reported to the user.
    pub fn text(&self) -> (r: String)
        ensures
            r@ == result_text(self@),
    {
        match self {
            Result::Success(_) => "Ok".to_owned(),
            Result::CompileErr(message) => {
                let mut r = "Compile error : ".to_owned();
                r.append(message.as_str());
                r
            },
            Result::RuntimeErr(message) => {
                let mut r = "Runtime error : ".to_owned();
                r.append(message.as_str());
                r
            },
        }
    }
}

/// What a suspended machine waits for.
pub enum Waiting {
    /// Nothing: the machine is not suspended.
    Idle,
    /// The value of an arithmetic instruction, to be pushed.
    Arithmetic,
}

/// The state of a machine.
pub struct Machine {
    pub code: Seq<VectorType>,
    pub constants: Seq<ValueType>,
    pub ip: nat,
    pub stack: Seq<ValueType>,
    pub strings: Seq<Seq<u8>>,
    pub globals: Map<usize, ValueType>,
    pub graph: Seq<Node>,
    pub outputs: Seq<ValueType>,
    pub waiting: Waiting,
}

/// The methods of a tensor.
#[derive(Clone, Copy, Debug, PartialEq, Eq, Structural)]
pub enum Method {
    Relu,
    Backward,
    Grad,
}

/// The method that a name denotes: `relu`, `backward` or `grad`.
pub open spec fn method_named(name: Seq<u8>) -> Option<Method> {
    if name == seq![114u8, 101u8, 108u8, 117u8] {
        Some(Method::Relu)
    } else if name == backward_name() {
        Some(Method::Backward)
    } else if name == seq![103u8, 114u8, 97u8, 100u8] {
        Some(Method::Grad)
    } else {
        None
    }
}

/// The machine stops with a runtime error.
pub open spec fn halted(m: Machine, message: Seq<char>) -> (Machine, Option<Outcome>) {
    (m, Some(Outcome::Finished(Verdict::RuntimeErr(message))))
}

/// The machine goes on with the next instruction.
pub open spec fn advanced(m: Machine) -> (Machine, Option<Outcome>) {
    (m, None)
}

/// The machine with another operand stack.
pub open spec fn with_stack(m: Machine, stack: Seq<ValueType>) -> Machine {
    Machine { stack, ..m }
}

/// The machine with its instruction pointer moved one element on.
pub open spec fn stepped(m: Machine) -> Machine {
    Machine { ip: m.ip + 1, ..m }
}

/// Pushes a value, unless the stack is full.
pub open spec fn push_value(m: Machine, value: ValueType) -> (Machine, Option<Outcome>) {
    if m.stack.len() >= STACK_MAX {
        halted(m, "Stack overflow"@)
    } else {
        advanced(with_stack(m, m.stack.push(value)))
    }
}

/// The constant that the element at the instruction pointer refers to, if
/// that element is a reference into the pool.
pub open spec fn operand(m: Machine) -> Option<ValueType> {
    if m.ip < m.code.len() {
        match m.code[m.ip as int] {
            VectorType::Constant(k) => if k < m.constants.len() {
                Some(m.constants[k as int])
            } else {
                None
            },
            VectorType::Code(_) => None,
        }
    } else {
        None
    }
}

/// What the machine computes itself: everything but a power.
#[verifier::opaque]
pub open spec fn computed(op: NumericOp, x: u64, y: u64) -> Option<u64> {
    match op {
        NumericOp::Add => Some(sum(x, y)),
        NumericOp::Subtract => Some(difference(x, y)),
        NumericOp::Multiply => Some(product(x, y)),
        NumericOp::Divide => Some(quotient(x, y)),
        NumericOp::Power => None,
    }
}

/// The machine turns to its host for a power and for nothing else.
pub proof fn lemma_computed(op: NumericOp, x: u64, y: u64)
    ensures
        computed(op, x, y) is None <==> op == NumericOp::Power,
{
    reveal(computed);
}

/// A binary arithmetic instruction: both operands leave the stack. What
/// the machine computes itself, it pushes; for the rest it suspends until
/// the host supplies the value.
pub open spec fn arithmetic(m: Machine, op: NumericOp) -> (Machine, Option<Outcome>) {
    if m.stack.len() < 2 {
        halted(m, "Stack underflow"@)
    } else {
        let b = m.stack.last();
        let a = m.stack.drop_last().last();
        let n = with_stack(m, m.stack.drop_last().drop_last());
        match (a, b) {
            (ValueType::Number(x), ValueType::Number(y)) => match computed(op, x, y) {
                Some(value) => advanced(with_stack(n, n.stack.push(ValueType::Number(value)))),
                None => (
                    Machine { waiting: Waiting::Arithmetic, ..n },
                    Some(Outcome::Suspended(Request { op, lhs: x, rhs: y })),
                ),
            },
            _ => halted(n, "Operands must be numbers"@),
        }
    }
}

/// The machine after the two texts on top of the stack have been replaced
/// by their interned concatenation; `None` unless both are texts of this
/// interner.
pub open spec fn concatenated(m: Machine) -> Option<Machine> {
    let b = m.stack.last();
    let a = m.stack.drop_last().last();
    let n = with_stack(m, m.stack.drop_last().drop_last());
    match (a, b) {
        (ValueType::String(x), ValueType::String(y)) => if x.0 < m.strings.len() && y.0
            < m.strings.len() {
            let text = m.strings[x.0 as int] + m.strings[y.0 as int];
            Some(
                Machine {
                    strings: interned(m.strings, text),
                    stack: n.stack.push(
                        ValueType::String(StringHandle(handle_of(m.strings, text) as usize)),
                    ),
                    ..n
                },
            )
        } else {
            None
        },
        _ => None,
    }
}

/// Concatenation as an instruction.
pub open spec fn concatenation(m: Machine) -> (Machine, Option<Outcome>) {
    if m.stack.len() < 2 {
        halted(m, "Stack underflow"@)
    } else {
        match concatenated(m) {
            Some(n) => advanced(n),
            None => halted(
                with_stack(m, m.stack.drop_last().drop_last()),
                "Operands must be two strings"@,
            ),
        }
    }
}

/// `OpNegate`.
pub open spec fn negation(m: Machine) -> (Machine, Option<Outcome>) {
    if m.stack.len() < 1 {
        halted(m, "Stack underflow"@)
    } else {
        let n = with_stack(m, m.stack.drop_last());
        match m.stack.last() {
            ValueType::Number(x) => advanced(
                with_stack(n, n.stack.push(ValueType::Number(negated(x)))),
            ),
            _ => halted(n, "Operand must be a number"@),
        }
    }
}

/// `OpNot`.
pub open spec fn logical_not(m: Machine) -> (Machine, Option<Outcome>) {
    if m.stack.len() < 1 {
        halted(m, "Stack underflow"@)
    } else {
        advanced(
            with_stack(m, m.stack.drop_last().push(ValueType::Boolean(!truthy(m.stack.last())))),
        )
    }
}

/// `OpEqualEqual`.
pub open spec fn equality(m: Machine) -> (Machine, Option<Outcome>) {
    if m.stack.len() < 2 {
        halted(m, "Stack underflow"@)
    } else {
        let b = m.stack.last();
        let a = m.stack.drop_last().last();
        advanced(
            with_stack(
                m,
                m.stack.drop_last().drop_last().push(ValueType::Boolean(equal_values(a, b))),
            ),
        )
    }
}

/// `OpGreater` and `OpLess`.
pub open spec fn comparison(m: Machine, greater: bool) -> (Machine, Option<Outcome>) {
    if m.stack.len() < 2 {
        halted(m, "Stack underflow"@)
    } else {
        let b = m.stack.last();
        let a = m.stack.drop_last().last();
        let n = with_stack(m, m.stack.drop_last().drop_last());
        match (a, b) {
            (ValueType::Number(x), ValueType::Number(y)) => advanced(
                with_stack(
                    n,
                    n.stack.push(
                        ValueType::Boolean(
                            if greater {
                                below(y, x)
                            } else {
                                below(x, y)
                            },
                        ),
                    ),
                ),
            ),
            _ => halted(n, "Operands must be numbers"@),
        }
    }
}

/// `OpPrint`.
pub open spec fn print(m: Machine) -> (Machine, Option<Outcome>) {
    if m.stack.len() < 1 {
        halted(m, "Stack underflow"@)
    } else {
        advanced(
            Machine { stack: m.stack.drop_last(), outputs: m.outputs.push(m.stack.last()), ..m },
        )
    }
}

/// `OpPop`.
pub open spec fn discard(m: Machine) -> (Machine, Option<Outcome>) {
    if m.stack.len() < 1 {
        halted(m, "Stack underflow"@)
    } else {
        advanced(with_stack(m, m.stack.drop_last()))
    }
}

/// `OpConstant`.
pub open spec fn constant(m: Machine) -> (Machine, Option<Outcome>) {
    match operand(m) {
        None => halted(m, "Invalid constant index"@),
        Some(c) => push_value(stepped(m), c),
    }
}

/// `OpDefineGlobal`: binds the top of the stack to the identifier and
/// pops it; an operand that is no identifier binds nothing.
pub open spec fn define_global(m: Machine) -> (Machine, Option<Outcome>) {
    match operand(m) {
        None => halted(m, "Invalid constant index"@),
        Some(c) => {
            let n = stepped(m);
            if n.stack.len() < 1 {
                halted(n, "Stack underflow"@)
            } else {
                let globals = match c {
                    ValueType::Identifier(h) => n.globals.insert(h.0, n.stack.last()),
                    _ => n.globals,
                };
                advanced(Machine { globals, stack: n.stack.drop_last(), ..n })
            }
        },
    }
}

/// `OpGetGlobal`.
pub open spec fn get_global(m: Machine) -> (Machine, Option<Outcome>) {
    match operand(m) {
        None => halted(m, "Invalid constant index"@),
        Some(c) => {
            let n = stepped(m);
            match c {
                ValueType::Identifier(h) => if n.globals.contains_key(h.0) {
                    push_value(n, n.globals[h.0])
                } else {
                    halted(n, "undefined global variable"@)
                },
                _ => halted(n, "Invalid global variable"@),
            }
        },
    }
}

/// `OpSetGlobal`: binds the top of the stack to the identifier, whether or
/// not the identifier was bound before, and leaves the stack as it is.
pub open spec fn set_global(m: Machine) -> (Machine, Option<Outcome>) {
    match operand(m) {
        None => halted(m, "Invalid constant index"@),
        Some(c) => {
            let n = stepped(m);
            match c {
                ValueType::Identifier(h) => if n.stack.len() < 1 {
                    halted(n, "Stack underflow"@)
                } else {
                    advanced(Machine { globals: n.globals.insert(h.0, n.stack.last()), ..n })
                },
                _ => halted(n, "Invalid global variable"@),
            }
        },
    }
}

/// A method call on tensor `t` of a machine whose receiver has been popped.
pub open spec fn dispatch(m: Machine, name: Seq<u8>, t: int) -> (Machine, Option<Outcome>) {
    match method_named(name) {
        Some(Method::Relu) => advanced(
            Machine {
                graph: m.graph.push(relu_of(m.graph, t)),
                stack: m.stack.push(ValueType::Tensor(TensorRef(m.graph.len() as usize))),
                ..m
            },
        ),
        Some(Method::Grad) => advanced(
            Machine {
                graph: m.graph.push(gradient_of(m.graph, t)),
                stack: m.stack.push(ValueType::Tensor(TensorRef(m.graph.len() as usize))),
                ..m
            },
        ),
        Some(Method::Backward) => advanced(Machine { graph: backward_of(m.graph, t), ..m }),
        None => halted(m, "Undefined function. Currently only supports relu, backward and grad"@),
    }
}

/// `OpCall`: pops the receiver, which must be a tensor of this machine,
/// and calls the method that the operand names.
pub open spec fn call(m: Machine) -> (Machine, Option<Outcome>) {
    match operand(m) {
        None => halted(m, "Invalid constant index"@),
        Some(c) => {
            let n = stepped(m);
            if n.stack.len() < 1 {
                halted(n, "Stack underflow"@)
            } else {
                let p = with_stack(n, n.stack.drop_last());
                match (c, n.stack.last()) {
                    (ValueType::Identifier(h), ValueType::Tensor(t)) => if h.0 < p.strings.len()
                        && t.0 < p.graph.len() {
                        dispatch(p, p.strings[h.0 as int], t.0 as int)
                    } else {
                        halted(p, "Invalid function"@)
                    },
                    _ => halted(p, "Invalid function"@),
                }
            }
        },
    }
}

/// What one instruction does to a machine whose instruction pointer
/// already stands behind it.
pub open spec fn execute(m: Machine, op: OpCode) -> (Machine, Option<Outcome>) {
    match op {
        OpCode::OpReturn => (m, Some(Outcome::Finished(Verdict::Success(m.outputs)))),
        OpCode::OpConstant => constant(m),
        OpCode::OpNil => push_value(m, ValueType::Nil),
        OpCode::OpTrue => push_value(m, ValueType::Boolean(true)),
        OpCode::OpFalse => push_value(m, ValueType::Boolean(false)),
        OpCode::OpAdd => if m.stack.len() > 0 && m.stack.last() is String {
            concatenation(m)
        } else {
            arithmetic(m, NumericOp::Add)
        },
        OpCode::OpSubtract => arithmetic(m, NumericOp::Subtract),
        OpCode::OpMultiply => arithmetic(m, NumericOp::Multiply),
        OpCode::OpDivide => arithmetic(m, NumericOp::Divide),
        OpCode::OpPower => arithmetic(m, NumericOp::Power),
        OpCode::OpNegate => negation(m),
        OpCode::OpNot => logical_not(m),
        OpCode::OpEqualEqual => equality(m),
        OpCode::OpGreater => comparison(m, true),
        OpCode::OpLess => comparison(m, false),
        OpCode::OpPrint => print(m),
        OpCode::OpPop => discard(m),
        OpCode::OpDefineGlobal => define_global(m),
        OpCode::OpGetGlobal => get_global(m),
        OpCode::OpSetGlobal => set_global(m),
        OpCode::OpCall => call(m),
    }
}

/// One step of the machine: fetch the element at the instruction pointer,
/// move past it, execute it. The second component is `None` while the
/// machine goes on.
pub open spec fn step(m: Machine) -> (Machine, Option<Outcome>) {
    if m.ip >= m.code.len() {
        halted(m, "Unexpected end of code"@)
    } else {
        match m.code[m.ip as int] {
            VectorType::Code(op) => execute(stepped(m), op),
            VectorType::Constant(_) => halted(stepped(m), "Expected an instruction"@),
        }
    }
}

/// The machine runs until it finishes or suspends. A step that goes on
/// has moved the instruction pointer forward (`lemma_step_advances`), so
/// the test that guards the recursion always succeeds.
pub open spec fn run_from(m: Machine) -> (Machine, Outcome)
    decreases m.code.len() - m.ip,
{
    let (n, signal) = step(m);
    match signal {
        Some(outcome) => (n, outcome),
        None => if n.code.len() - n.ip < m.code.len() - m.ip {
            run_from(n)
        } else {
            (n, Outcome::Finished(Verdict::RuntimeErr("Unexpected end of code"@)))
        },
    }
}

/// The machine at the start of a run: nothing printed, nothing pending.
pub open spec fn started(m: Machine) -> Machine {
    Machine { outputs: Seq::empty(), waiting: Waiting::Idle, ..m }
}

/// What handing `value` to a machine does: a machine that waits for an
/// arithmetic value pushes it and runs on; one that waits for nothing
/// reports an error and stays as it is.
pub open spec fn resumed(m: Machine, value: u64) -> (Machine, Outcome) {
    match m.waiting {
        Waiting::Idle => (m, Outcome::Finished(Verdict::RuntimeErr("No operation is pending"@))),
        Waiting::Arithmetic => {
            let n = Machine { waiting: Waiting::Idle, ..m };
            match push_value(n, ValueType::Number(value)) {
                (p, None) => run_from(p),
                (p, Some(outcome)) => (p, outcome),
            }
        },
    }
}

/// The machine with a freshly compiled program: the program and the
/// texts are those of the compilation, the stack is empty, nothing is
/// printed or pending; globals and tensors are kept.
pub open spec fn loaded(m: Machine, p: Parse) -> Machine {
    Machine {
        code: p.code,
        constants: p.constants,
        ip: 0,
        stack: Seq::empty(),
        strings: p.strings,
        globals: m.globals,
        graph: m.graph,
        outputs: Seq::empty(),
        waiting: Waiting::Idle,
    }
}

/// How a value is printed, as far as no number has to be formatted:
/// `nil`, `true`, `false`, and a text as it is. Numbers and the elements
/// of tensors are formatted by the host.
pub open spec fn rendering(m: Machine, value: ValueType) -> Option<Seq<u8>> {
    match value {
        ValueType::Nil => Some(seq![110u8, 105u8, 108u8]),
        ValueType::Boolean(true) => Some(seq![116u8, 114u8, 117u8, 101u8]),
        ValueType::Boolean(false) => Some(seq![102u8, 97u8, 108u8, 115u8, 101u8]),
        ValueType::String(h) | ValueType::Identifier(h) => if h.0 < m.strings.len() {
            Some(m.strings[h.0 as int])
        } else {
            None
        },
        _ => None,
    }
}

/// The invariant of a machine state.
pub open spec fn machine_wf(m: Machine) -> bool {
    &&& m.stack.len() <= STACK_MAX
    &&& distinct(m.strings)
    &&& graph_wf(m.graph)
}

/// An operation that the machine waits for.
#[derive(Debug)]
pub enum Pending {
    Idle,
    Arithmetic,
}

impl View for Pending {
    type V = Waiting;

    open spec fn view(&self) -> Waiting {
        match self {
            Pending::Idle => Waiting::Idle,
            Pending::Arithmetic => Waiting::Arithmetic,
        }
    }
}

/// The virtual machine.
pub struct VM {
    chunk: Chunk,
    ip: usize,
    stack: Vec<ValueType>,
    stack_top: usize,
    interner: Interner,
    globals: HashMap<usize, ValueType>,
    graph: Graph,
    outputs: Vec<ValueType>,
    pending: Pending,
}

impl View for VM {
    type V = Machine;

    closed spec fn view(&self) -> Machine {
        Machine {
            code: self.chunk.code@,
            constants: self.chunk.constants@,
            ip: self.ip as nat,
            stack: self.stack@.take(self.stack_top as int),
            strings: self.interner@,
            globals: self.globals@,
            graph: self.graph@,
            outputs: self.outputs@,
            waiting: self.pending@,
        }
    }
}

/// The view of what a step reports.
pub open spec fn signal_view(signal: Option<Status>) -> Option<Outcome> {
    match signal {
        Some(status) => Some(status@),
        None => None,
    }
}

/// A runtime error with the given message.
fn fault(message: &str) -> (r: Option<Status>)
    ensures
        signal_view(r) == Some(Outcome::Finished(Verdict::RuntimeErr(message@))),
{
    Some(Status::Finished(Result::RuntimeErr(message.to_owned())))
}

/// The method that a name denotes.
pub fn method_of(name: &Vec<u8>) -> (r: Option<Method>)
    ensures
        r == method_named(name@),
{
    if name.len() == 4 && name[0] == 114 && name[1] == 101 && name[2] == 108 && name[3] == 117 {
        assert(name@ =~= seq![114u8, 101u8, 108u8, 117u8]);
        Some(Method::Relu)
    } else if name.len() == 8 && name[0] == 98 && name[1] == 97 && name[2] == 99 && name[3] == 107
        && name[4] == 119 && name[5] == 97 && name[6] == 114 && name[7] == 100 {
        assert(name@ =~= seq![98u8, 97u8, 99u8, 107u8, 119u8, 97u8, 114u8, 100u8]);
        Some(Method::Backward)
    } else if name.len() == 4 && name[0] == 103 && name[1] == 114 && name[2] == 97 && name[3]
        == 100 {
        assert(name@ =~= seq![103u8, 114u8, 97u8, 100u8]);
        Some(Method::Grad)
    } else {
        proof {
            let relu = seq![114u8, 101u8, 108u8, 117u8];
            let backward = seq![98u8, 97u8, 99u8, 107u8, 119u8, 97u8, 114u8, 100u8];
            let grad = seq![103u8, 114u8, 97u8, 100u8];
            assert(relu.len() == 4 && relu[0] == 114 && relu[1] == 101 && relu[2] == 108 && relu[3]
                == 117);
            assert(grad.len() == 4 && grad[0] == 103 && grad[1] == 114 && grad[2] == 97 && grad[3]
                == 100);
            assert(backward.len() == 8 && backward[0] == 98 && backward[1] == 97 && backward[2]
                == 99 && backward[3] == 107 && backward[4] == 119 && backward[5] == 97
                && backward[6] == 114 && backward[7] == 100);
        }
        None
    }
}

/// A copy of a vector of values.
pub fn copy_values(values: &Vec<ValueType>) -> (v: Vec<ValueType>)
    ensures
        v@ == values@,
{
    let mut v: Vec<ValueType> = Vec::new();
    let mut i: usize = 0;
    while i < values.len()
        invariant
            i <= values.len(),
            v@ == values@.take(i as int),
        decreases values.len() - i,
    {
        v.push(values[i]);
        i += 1;
        assert(v@ =~= values@.take(i as int));
    }
    assert(values@.take(values@.len() as int) =~= values@);
    v
}

/// The concatenation of two byte strings.
pub fn joined(a: &Vec<u8>, b: &Vec<u8>) -> (v: Vec<u8>)
    ensures
        v@ == a@ + b@,
{
    let mut v: Vec<u8> = Vec::new();
    let mut i: usize = 0;
    while i < a.len()
        invariant
            i <= a.len(),
            v@ == a@.take(i as int),
        decreases a.len() - i,
    {
        v.push(a[i]);
        i += 1;
        assert(v@ =~= a@.take(i as int));
    }
    assert(a@.take(a@.len() as int) =~= a@);
    let mut j: usize = 0;
    while j < b.len()
        invariant
            j <= b.len(),
            v@ == a@ + b@.take(j as int),
        decreases b.len() - j,
    {
        v.push(b[j]);
        j += 1;
        assert(v@ =~= a@ + b@.take(j as int));
    }
    assert(b@.take(b@.len() as int) =~= b@);
    v
}

impl VM {
    /// The invariant of the machine: the stack buffer has its full
    /// capacity and the top index lies inside it, and the state is well
    /// formed.
    pub closed spec fn wf(&self) -> bool {
        &&& self.stack@.len() == STACK_MAX
        &&& self.stack_top <= STACK_MAX
        &&& self.interner.wf()
        &&& self.graph.wf()
        &&& machine_wf(self@)
    }

    /// The slots of the stack buffer, those above the top too.
    pub closed spec fn slots(&self) -> Seq<ValueType> {
        self.stack@
    }

    /// A well-formed machine has a well-formed state: at most `STACK_MAX`
    /// values on the stack, no text twice, a well-formed graph.
    pub proof fn lemma_wf(&self)
        requires
            self.wf(),
        ensures
            machine_wf(self@),
            self.slots().len() == STACK_MAX,
            self@.stack =~= self.slots().take(self@.stack.len() as int),
    {
    }

    /// A machine for `chunk` with an empty stack and no globals; it takes
    /// over the texts interned while the chunk was compiled. Every slot of
    /// the stack buffer holds `Nil`.
    pub fn init(chunk: Chunk, interner: Interner) -> (vm: VM)
        requires
            interner.wf(),
        ensures
            vm.wf(),
            vm.slots() == Seq::new(STACK_MAX as nat, |i: int| ValueType::Nil),
            vm@ == (Machine {
                code: chunk.code@,
                constants: chunk.constants@,
                ip: 0,
                stack: Seq::empty(),
                strings: interner@,
                globals: Map::empty(),
                graph: Seq::empty(),
                outputs: Seq::empty(),
                waiting: Waiting::Idle,
            }),
    {
        let mut stack: Vec<ValueType> = Vec::new();
        let mut i: usize = 0;
        while i < STACK_MAX
            invariant
                i <= STACK_MAX,
                stack@.len() == i,
                forall|k: int| 0 <= k < i ==> stack@[k] == ValueType::Nil,
            decreases STACK_MAX - i,
        {
            stack.push(ValueType::Nil);
            i += 1;
        }
        let vm = VM {
            chunk,
            ip: 0,
            stack,
            stack_top: 0,
            interner,
            globals: HashMap::new(),
            graph: Graph::new(),
            outputs: Vec::new(),
            pending: Pending::Idle,
        };
        assert(vm@.stack =~= Seq::<ValueType>::empty());
        assert(vm.slots() =~= Seq::new(STACK_MAX as nat, |i: int| ValueType::Nil));
        vm
    }

    /// The texts of the machine.
    pub fn interner(&self) -> (r: &Interner)
        ensures
            r@ == self@.strings,
    {
        &self.interner
    }

    /// The tensors of the machine.
    pub fn graph(&self) -> (r: &Graph)
        ensures
            r@ == self@.graph,
    {
        &self.graph
    }

    /// The program of the machine.
    pub fn chunk(&self) -> (r: &Chunk)
        ensures
            r.code@ == self@.code,
            r.constants@ == self@.constants,
    {
        &self.chunk
    }

    /// The values printed since the current run began.
    pub fn outputs(&self) -> (r: &Vec<ValueType>)
        ensures
            r@ == self@.outputs,
    {
        &self.outputs
    }

    /// Number of values on the operand stack.
    pub fn depth(&self) -> (r: usize)
        requires
            self.wf(),
        ensures
            r == self@.stack.len(),
    {
        self.stack_top
    }

    /// The text of a value whose rendering needs no number formatting;
    /// `None` for numbers and tensors, which the host renders, and for
    /// texts that this machine does not hold.
    pub fn render(&self, value: ValueType) -> (r: Option<Vec<u8>>)
        ensures
            r.is_some() == rendering(self@, value).is_some(),
            r matches Some(text) ==> Some(text@) == rendering(self@, value),
    {
        match value {
            ValueType::Nil => {
                let mut text: Vec<u8> = Vec::new();
                text.push(110);
                text.push(105);
                text.push(108);
                assert(text@ =~= seq![110u8, 105u8, 108u8]);
                Some(text)
            },
            ValueType::Boolean(true) => {
                let mut text: Vec<u8> = Vec::new();
                text.push(116);
                text.push(114);
                text.push(117);
                text.push(101);
                assert(text@ =~= seq![116u8, 114u8, 117u8, 101u8]);
                Some(text)
            },
            ValueType::Boolean(false) => {
                let mut text: Vec<u8> = Vec::new();
                text.push(102);
                text.push(97);
                text.push(108);
                text.push(115);
                text.push(101);
                assert(text@ =~= seq![102u8, 97u8, 108u8, 115u8, 101u8]);
                Some(text)
            },
            ValueType::String(h) | ValueType::Identifier(h) => {
                if h.0 < self.interner.len() {
                    let source = self.interner.lookup(h);
                    let text = crate::compiler::slice(source, 0, source.len());
                    assert(source@.subrange(0, source@.len() as int) =~= source@);
                    Some(text)
                } else {
                    None
                }
            },
            _ => None,
        }
    }

    /// Whether the machine waits for a value.
    pub fn is_suspended(&self) -> (r: bool)
        ensures
            r == !(self@.waiting is Idle),
    {
        match &self.pending {
            Pending::Idle => false,
            _ => true,
        }
    }

    /// The value bound to an interned identifier, if any.
    pub fn global(&self, name: StringHandle) -> (r: Option<ValueType>)
        ensures
            r == (if self@.globals.contains_key(name.0) {
                Some(self@.globals[name.0])
            } else {
                None
            }),
    {
        match self.globals.get(&name.0) {
            Some(value) => Some(*value),
            None => None,
        }
    }

    /// Interns `name` and binds `value` to it, as `OpDefineGlobal` does.
    pub fn define(&mut self, name: Vec<u8>, value: ValueType)
        requires
            old(self).wf(),
        ensures
            final(self).wf(),
            final(self)@ == (Machine {
                strings: interned(old(self)@.strings, name@),
                globals: old(self)@.globals.insert(
                    handle_of(old(self)@.strings, name@) as usize,
                    value,
                ),
                ..old(self)@
            }),
    {
        let handle = self.interner.intern_string(name);
        self.globals.insert(handle.0, value);
    }

    /// Adds a leaf tensor to the machine's graph and returns it as a value;
    /// `None`, and nothing changes, unless the shape describes exactly the
    /// elements given.
    pub fn tensor(&mut self, data: Vec<u64>, shape: Vec<usize>) -> (r: Option<ValueType>)
        requires
            old(self).wf(),
        ensures
            final(self).wf(),
            r.is_some() == (crate::tensor::shape_size(shape@) == data@.len()),
            r matches Some(value) ==> value == ValueType::Tensor(
                TensorRef(old(self)@.graph.len() as usize),
            ) && final(self)@ == (Machine {
                graph: old(self)@.graph.push(crate::tensor::leaf(data@, shape@)),
                ..old(self)@
            }),
            r.is_none() ==> final(self)@ == old(self)@,
    {
        match self.graph.tensor(data, shape) {
            Some(t) => Some(ValueType::Tensor(t)),
            None => None,
        }
    }

    /// Reads the element at the instruction pointer and moves past it.
    pub fn read_byte(&mut self) -> (element: VectorType)
        requires
            old(self).wf(),
            old(self)@.ip < old(self)@.code.len(),
        ensures
            final(self).wf(),
            element == old(self)@.code[old(self)@.ip as int],
            final(self)@ == stepped(old(self)@),
    {
        assert(self.ip < self.chunk.code.len());
        let element = self.chunk.code[self.ip];
        self.ip += 1;
        element
    }

    /// The constant at `index` of the pool.
    pub fn read_constant(&mut self, index: usize) -> (value: ValueType)
        requires
            old(self).wf(),
            index < old(self)@.constants.len(),
        ensures
            final(self).wf(),
            final(self)@ == old(self)@,
            value == old(self)@.constants[index as int],
    {
        self.chunk.constants[index]
    }

    /// Pushes a value; the stack must have room.
    pub fn push(&mut self, value: ValueType)
        requires
            old(self).wf(),
            old(self)@.stack.len() < STACK_MAX,
        ensures
            final(self).wf(),
            final(self)@ == with_stack(old(self)@, old(self)@.stack.push(value)),
    {
        self.stack.set(self.stack_top, value);
        self.stack_top += 1;
        assert(self@.stack =~= old(self)@.stack.push(value));
    }

    /// Pops the top of the stack; the stack must not be empty.
    pub fn pop(&mut self) -> (value: ValueType)
        requires
            old(self).wf(),
            old(self)@.stack.len() > 0,
        ensures
            final(self).wf(),
            value == old(self)@.stack.last(),
            final(self)@ == with_stack(old(self)@, old(self)@.stack.drop_last()),
    {
        self.stack_top -= 1;
        assert(self@.stack =~= old(self)@.stack.drop_last());
        self.stack[self.stack_top]
    }

    /// The value `distance` places below the top of the stack.
    pub fn peek(&self, distance: usize) -> (value: ValueType)
        requires
            self.wf(),
            distance < self@.stack.len(),
        ensures
            value == self@.stack[self@.stack.len() - 1 - distance],
    {
        self.stack[self.stack_top - 1 - distance]
    }

    /// Replaces the two texts on top of the stack by their interned
    /// concatenation and returns `true`. Where the two values are not both
    /// texts of this machine, they are popped, nothing is pushed, and the
    /// result is `false`.
    pub fn concatenate(&mut self) -> (done: bool)
        requires
            old(self).wf(),
            old(self)@.stack.len() >= 2,
        ensures
            final(self).wf(),
            done == concatenated(old(self)@).is_some(),
            done ==> final(self)@ == concatenated(old(self)@).unwrap(),
            !done ==> final(self)@ == with_stack(
                old(self)@,
                old(self)@.stack.drop_last().drop_last(),
            ),
    {
        let b = self.pop();
        let a = self.pop();
        if let ValueType::String(x) = a {
            if let ValueType::String(y) = b {
                if x.0 < self.interner.len() && y.0 < self.interner.len() {
                    let text = joined(self.interner.lookup(x), self.interner.lookup(y));
                    proof {
                        lemma_interned_distinct(self@.strings, text@);
                    }
                    let handle = self.interner.intern_string(text);
                    self.push(ValueType::String(handle));
                    return true;
                }
            }
        }
        false
    }
}

/// A step that goes on has moved the instruction pointer forward and kept
/// the program, so a run ends after at most as many steps as the program
/// has elements left.
pub proof fn lemma_step_advances(m: Machine)
    ensures
        step(m).1 is None ==> step(m).0.ip > m.ip && step(m).0.ip <= m.code.len() && step(m).0.code
            == m.code,
{
}

impl VM {
    /// Resolves the operand at the instruction pointer and moves past it.
    fn take_operand(&mut self) -> (r: Option<ValueType>)
        requires
            old(self).wf(),
        ensures
            final(self).wf(),
            r == operand(old(self)@),
            r.is_some() ==> final(self)@ == stepped(old(self)@),
            r.is_none() ==> final(self)@ == old(self)@,
    {
        if self.ip < self.chunk.code.len() {
            match self.chunk.code[self.ip] {
                VectorType::Constant(k) => {
                    if k < self.chunk.constants.len() {
                        self.ip += 1;
                        Some(self.chunk.constants[k])
                    } else {
                        None
                    }
                },
                VectorType::Code(_) => None,
            }
        } else {
            None
        }
    }

    /// Pushes a value, or reports that the stack is full.
    fn push_checked(&mut self, value: ValueType) -> (r: Option<Status>)
        requires
            old(self).wf(),
        ensures
            final(self).wf(),
            (final(self)@, signal_view(r)) == push_value(old(self)@, value),
    {
        if self.stack_top >= STACK_MAX {
            fault("Stack overflow")
        } else {
            self.push(value);
            None
        }
    }

    /// A binary arithmetic instruction.
    fn binary(&mut self, op: NumericOp) -> (r: Option<Status>)
        requires
            old(self).wf(),
            old(self)@.waiting is Idle,
        ensures
            final(self).wf(),
            (final(self)@, signal_view(r)) == arithmetic(old(self)@, op),
    {
        if self.stack_top < 2 {
            return fault("Stack underflow");
        }
        let b = self.pop();
        let a = self.pop();
        proof {
            reveal(computed);
        }
        match (a, b) {
            (ValueType::Number(x), ValueType::Number(y)) => {
                let value = match op {
                    NumericOp::Add => number_add(x, y),
                    NumericOp::Subtract => number_subtract(x, y),
                    NumericOp::Multiply => number_multiply(x, y),
                    NumericOp::Divide => number_divide(x, y),
                    NumericOp::Power => {
                        self.pending = Pending::Arithmetic;
                        return Some(Status::Suspended(Request { op, lhs: x, rhs: y }));
                    },
                };
                self.push(ValueType::Number(value));
                None
            },
            _ => fault("Operands must be numbers"),
        }
    }

    /// `OpAdd` on a text.
    fn concatenate_checked(&mut self) -> (r: Option<Status>)
        requires
            old(self).wf(),
            old(self)@.waiting is Idle,
        ensures
            final(self).wf(),
            (final(self)@, signal_view(r)) == concatenation(old(self)@),
    {
        if self.stack_top < 2 {
            return fault("Stack underflow");
        }
        if self.concatenate() {
            None
        } else {
            fault("Operands must be two strings")
        }
    }

    /// `OpNegate`, `OpNot`, `OpPrint` and `OpPop`.
    fn unary(&mut self, op: OpCode) -> (r: Option<Status>)
        requires
            old(self).wf(),
            old(self)@.waiting is Idle,
            op == OpCode::OpNegate || op == OpCode::OpNot || op == OpCode::OpPrint || op
                == OpCode::OpPop,
        ensures
            final(self).wf(),
            (final(self)@, signal_view(r)) == execute(old(self)@, op),
    {
        if self.stack_top < 1 {
            return fault("Stack underflow");
        }
        let a = self.pop();
        match op {
            OpCode::OpNegate => match a {
                ValueType::Number(x) => {
                    self.push(ValueType::Number(number_negate(x)));
                    None
                },
                _ => fault("Operand must be a number"),
            },
            OpCode::OpNot => {
                self.push(a.not());
                None
            },
            OpCode::OpPrint => {
                self.outputs.push(a);
                None
            },
            _ => None,
        }
    }

    /// `OpEqualEqual`, `OpGreater` and `OpLess`.
    fn relation(&mut self, op: OpCode) -> (r: Option<Status>)
        requires
            old(self).wf(),
            old(self)@.waiting is Idle,
            op == OpCode::OpEqualEqual || op == OpCode::OpGreater || op == OpCode::OpLess,
        ensures
            final(self).wf(),
            (final(self)@, signal_view(r)) == execute(old(self)@, op),
    {
        if self.stack_top < 2 {
            return fault("Stack underflow");
        }
        let b = self.pop();
        let a = self.pop();
        match op {
            OpCode::OpEqualEqual => {
                self.push(ValueType::Boolean(a.equals(&b)));
                None
            },
            _ => match (a, b) {
                (ValueType::Number(x), ValueType::Number(y)) => {
                    let holds = if op == OpCode::OpGreater {
                        number_less(y, x)
                    } else {
                        number_less(x, y)
                    };
                    self.push(ValueType::Boolean(holds));
                    None
                },
                _ => fault("Operands must be numbers"),
            },
        }
    }

    /// `OpConstant`, `OpDefineGlobal`, `OpGetGlobal` and `OpSetGlobal`.
    fn with_operand(&mut self, op: OpCode) -> (r: Option<Status>)
        requires
            old(self).wf(),
            old(self)@.waiting is Idle,
            op == OpCode::OpConstant || op == OpCode::OpDefineGlobal || op == OpCode::OpGetGlobal
                || op == OpCode::OpSetGlobal,
        ensures
            final(self).wf(),
            (final(self)@, signal_view(r)) == execute(old(self)@, op),
    {
        let c = match self.take_operand() {
            Some(c) => c,
            None => {
                return fault("Invalid constant index");
            },
        };
        match op {
            OpCode::OpConstant => self.push_checked(c),
            OpCode::OpDefineGlobal => {
                if self.stack_top < 1 {
                    return fault("Stack underflow");
                }
                let value = self.pop();
                if let ValueType::Identifier(h) = c {
                    self.globals.insert(h.0, value);
                }
                None
            },
            OpCode::OpGetGlobal => match c {
                ValueType::Identifier(h) => match self.global(h) {
                    Some(value) => self.push_checked(value),
                    None => fault("undefined global variable"),
                },
                _ => fault("Invalid global variable"),
            },
            _ => match c {
                ValueType::Identifier(h) => {
                    if self.stack_top < 1 {
                        return fault("Stack underflow");
                    }
                    let value = self.peek(0);
                    self.globals.insert(h.0, value);
                    None
                },
                _ => fault("Invalid global variable"),
            },
        }
    }

    /// `OpCall`.
    fn invoke(&mut self) -> (r: Option<Status>)
        requires
            old(self).wf(),
            old(self)@.waiting is Idle,
        ensures
            final(self).wf(),
            (final(self)@, signal_view(r)) == call(old(self)@),
    {
        let c = match self.take_operand() {
            Some(c) => c,
            None => {
                return fault("Invalid constant index");
            },
        };
        if self.stack_top < 1 {
            return fault("Stack underflow");
        }
        let receiver = self.pop();
        match (c, receiver) {
            (ValueType::Identifier(h), ValueType::Tensor(t)) => {
                if h.0 < self.interner.len() && t.0 < self.graph.len() {
                    match method_of(self.interner.lookup(h)) {
                        Some(Method::Relu) => match self.graph.relu(t) {
                            Some(made) => {
                                self.push(ValueType::Tensor(made));
                                None
                            },
                            None => vstd::pervasive::unreached(),
                        },
                        Some(Method::Grad) => match self.graph.gradient(t) {
                            Some(made) => {
                                self.push(ValueType::Tensor(made));
                                None
                            },
                            None => vstd::pervasive::unreached(),
                        },
                        Some(Method::Backward) => {
                            self.graph.backward(t);
                            None
                        },
                        None => fault(
                            "Undefined function. Currently only supports relu, backward and grad",
                        ),
                    }
                } else {
                    fault("Invalid function")
                }
            },
            _ => fault("Invalid function"),
        }
    }

    /// Executes the element at the instruction pointer.
    fn step(&mut self) -> (r: Option<Status>)
        requires
            old(self).wf(),
            old(self)@.waiting is Idle,
        ensures
            final(self).wf(),
            (final(self)@, signal_view(r)) == step(old(self)@),
    {
        if self.ip >= self.chunk.code.len() {
            return fault("Unexpected end of code");
        }
        let op = match self.read_byte() {
            VectorType::Code(op) => op,
            VectorType::Constant(_) => {
                return fault("Expected an instruction");
            },
        };
        match op {
            OpCode::OpReturn => Some(Status::Finished(Result::Success(copy_values(&self.outputs)))),
            OpCode::OpNil => self.push_checked(ValueType::Nil),
            OpCode::OpTrue => self.push_checked(ValueType::Boolean(true)),
            OpCode::OpFalse => self.push_checked(ValueType::Boolean(false)),
            OpCode::OpAdd => {
                let text_on_top = self.stack_top > 0 && match self.peek(0) {
                    ValueType::String(_) => true,
                    _ => false,
                };
                if text_on_top {
                    self.concatenate_checked()
                } else {
                    self.binary(NumericOp::Add)
                }
            },
            OpCode::OpSubtract => self.binary(NumericOp::Subtract),
            OpCode::OpMultiply => self.binary(NumericOp::Multiply),
            OpCode::OpDivide => self.binary(NumericOp::Divide),
            OpCode::OpPower => self.binary(NumericOp::Power),
            OpCode::OpNegate | OpCode::OpNot | OpCode::OpPrint | OpCode::OpPop => self.unary(op),
            OpCode::OpEqualEqual | OpCode::OpGreater | OpCode::OpLess => self.relation(op),
            OpCode::OpConstant | OpCode::OpDefineGlobal | OpCode::OpGetGlobal
            | OpCode::OpSetGlobal => self.with_operand(op),
            OpCode::OpCall => self.invoke(),
        }
    }

    /// Steps until the machine finishes or suspends.
    fn proceed(&mut self) -> (status: Status)
        requires
            old(self).wf(),
            old(self)@.waiting is Idle,
        ensures
            final(self).wf(),
            (final(self)@, status@) == run_from(old(self)@),
    {
        loop
            invariant
                self.wf(),
                self@.waiting is Idle,
                run_from(self@) == run_from(old(self)@),
            decreases self@.code.len() - self@.ip,
        {
            proof {
                lemma_step_advances(self@);
            }
            match self.step() {
                Some(status) => {
                    return status;
                },
                None => {},
            }
        }
    }

    /// Runs the program from the instruction pointer on. What was printed
    /// before and any operation that was pending are forgotten.
    pub fn run(&mut self) -> (status: Status)
        requires
            old(self).wf(),
        ensures
            final(self).wf(),
            (final(self)@, status@) == run_from(started(old(self)@)),
    {
        self.outputs = Vec::new();
        self.pending = Pending::Idle;
        self.proceed()
    }

    /// Hands the machine the value that it was suspended for.
    pub fn resume(&mut self, value: u64) -> (status: Status)
        requires
            old(self).wf(),
        ensures
            final(self).wf(),
            (final(self)@, status@) == resumed(old(self)@, value),
    {
        let mut waiting = Pending::Idle;
        core::mem::swap(&mut self.pending, &mut waiting);
        match waiting {
            Pending::Idle => Status::Finished(
                Result::RuntimeErr("No operation is pending".to_owned()),
            ),
            Pending::Arithmetic => match self.push_checked(ValueType::Number(value)) {
                Some(status) => status,
                None => self.proceed(),
            },
        }
    }
}

impl VM {
    /// Compiles `source` and runs it. Where the source does not compile,
    /// the machine keeps its program and its state, but for the texts
    /// interned before the error was met, and reports the error. Where it compiles, the
    /// program replaces the old one and runs on an empty stack; globals,
    /// texts and tensors persist from one interpretation to the next.
    pub fn interpret(&mut self, source: &str) -> (status: Status)
        requires
            old(self).wf(),
        ensures
            final(self).wf(),
            match compilation(source.spec_bytes(), old(self)@.strings) {
                Ok(p) => (final(self)@, status@) == run_from(loaded(old(self)@, p)) && names_valid(
                    p.constants,
                    p.strings,
                ) && aligned(p.code, p.constants.len(), 0) && extends(p.strings, old(self)@.strings),
                Err(f) => status@ == Outcome::Finished(Verdict::CompileErr(error_text(f.error)))
                    && final(self)@ == (Machine { strings: f.strings, ..old(self)@ }) && extends(
                    f.strings,
                    old(self)@.strings,
                ),
            },
    {
        match compile(source, &mut self.interner) {
            Err(e) => Status::Finished(Result::CompileErr(e.text())),
            Ok(chunk) => {
                self.chunk = chunk;
                self.ip = 0;
                self.stack_top = 0;
                self.outputs = Vec::new();
                self.pending = Pending::Idle;
                assert(self@.stack =~= Seq::<ValueType>::empty());
                self.proceed()
            },
        }
    }
}

/// The state of a machine that has not run anything yet.
pub open spec fn fresh() -> Machine {
    Machine {
        code: Seq::empty(),
        constants: Seq::empty(),
        ip: 0,
        stack: Seq::empty(),
        strings: Seq::empty(),
        globals: Map::empty(),
        graph: Seq::empty(),
        outputs: Seq::empty(),
        waiting: Waiting::Idle,
    }
}

/// Interprets `source` on a fresh machine. The machine is returned with
/// the status, so that the host can resume it where it is suspended.
pub fn run_source(source: &str) -> (r: (VM, Status))
    ensures
        r.0.wf(),
        match compilation(source.spec_bytes(), Seq::empty()) {
            Ok(p) => (r.0@, r.1@) == run_from(loaded(fresh(), p)) && names_valid(
                p.constants,
                p.strings,
            ) && aligned(p.code, p.constants.len(), 0),
            Err(f) => r.1@ == Outcome::Finished(Verdict::CompileErr(error_text(f.error))) && r.0@
                == (Machine { strings: f.strings, ..fresh() }),
        },
{
    let mut vm = VM::init(Chunk::new(), Interner::new());
    let status = vm.interpret(source);
    (vm, status)
}

/// Number of operands that an instruction needs on the stack.
pub open spec fn demand(op: OpCode) -> nat {
    match op {
        OpCode::OpAdd | OpCode::OpSubtract | OpCode::OpMultiply | OpCode::OpDivide
        | OpCode::OpPower | OpCode::OpEqualEqual | OpCode::OpGreater | OpCode::OpLess => 2,
        OpCode::OpNegate | OpCode::OpNot | OpCode::OpPrint | OpCode::OpPop
        | OpCode::OpDefineGlobal | OpCode::OpSetGlobal | OpCode::OpCall => 1,
        _ => 0,
    }
}

/// Number of values that an instruction leaves in place of its operands.
/// `operand` is the constant that the instruction refers to, if any; it
/// matters for `OpCall` only, where `backward` leaves nothing and every
/// other method one value. For `OpPower` the value is the one that the
/// host supplies.
pub open spec fn yields(op: OpCode, operand: Option<ValueType>, strings: Seq<Seq<u8>>) -> nat {
    match op {
        OpCode::OpReturn | OpCode::OpPrint | OpCode::OpPop | OpCode::OpDefineGlobal => 0,
        OpCode::OpCall => match operand {
            Some(ValueType::Identifier(h)) => if h.0 < strings.len() && method_named(
                strings[h.0 as int],
            ) == Some(Method::Backward) {
                0
            } else {
                1
            },
            _ => 1,
        },
        _ => 1,
    }
}

/// Stack discipline of one step. An instruction that finds fewer values
/// than it needs fails and takes none. Otherwise it touches its operands
/// only: what lies below them stays, and the stack never grows beyond its
/// capacity. Where the machine goes on, the depth has changed by what the
/// instruction yields less what it needs; where it suspends for the value
/// of a power, the operands are gone and the value is still to be pushed.
#[verifier::rlimit(50)]
pub proof fn lemma_stack_discipline(m: Machine, op: OpCode)
    requires
        m.ip < m.code.len(),
        m.code[m.ip as int] == VectorType::Code(op),
        m.stack.len() <= STACK_MAX,
        m.waiting is Idle,
    ensures
        step(m).0.stack.len() <= STACK_MAX,
        m.stack.len() < demand(op) ==> step(m).0.stack == m.stack && (step(m).1 matches Some(
            Outcome::Finished(Verdict::RuntimeErr(_)),
        )),
        m.stack.len() >= demand(op) ==> step(m).0.stack.len() >= m.stack.len() - demand(op)
            && step(m).0.stack.take(m.stack.len() - demand(op)) == m.stack.take(
            m.stack.len() - demand(op),
        ),
        step(m).1 is None ==> step(m).0.stack.len() == m.stack.len() - demand(op) + yields(
            op,
            operand(stepped(m)),
            m.strings,
        ),
        step(m).0.waiting is Arithmetic ==> step(m).0.stack.len() + 1 == m.stack.len() - demand(op)
            + yields(op, operand(stepped(m)), m.strings),
{
    let kept = m.stack.len() - demand(op);
    if kept >= 0 {
        assert(step(m).0.stack.take(kept) =~= m.stack.take(kept));
    }
}

/// Concatenation and the interner. The value pushed is a text handle that
/// denotes the concatenation of the two operands. Where that text was not
/// interned before, the handle is new and differs from both operands;
/// where it was, the interner is unchanged and the handle is the one that
/// the text already had.
pub proof fn lemma_concatenation_handle(m: Machine, x: StringHandle, y: StringHandle)
    requires
        distinct(m.strings),
        m.strings.len() < usize::MAX,
        m.stack.len() >= 2,
        m.stack.last() == ValueType::String(y),
        m.stack.drop_last().last() == ValueType::String(x),
        x.0 < m.strings.len(),
        y.0 < m.strings.len(),
    ensures
        concatenated(m) matches Some(n) && n.stack.len() == m.stack.len() - 1 && (
        n.stack.last() matches ValueType::String(h) && h.0 < n.strings.len() && n.strings[h.0 as int]
            == m.strings[x.0 as int] + m.strings[y.0 as int] && (!m.strings.contains(
            m.strings[x.0 as int] + m.strings[y.0 as int],
        ) ==> h != x && h != y && h.0 == m.strings.len()) && (m.strings.contains(
            m.strings[x.0 as int] + m.strings[y.0 as int],
        ) ==> n.strings == m.strings)),
{
    let text = m.strings[x.0 as int] + m.strings[y.0 as int];
    lemma_interned_distinct(m.strings, text);
}

/// Every text and identifier in the pool is a text of the interner.
pub open spec fn names_valid(constants: Seq<ValueType>, strings: Seq<Seq<u8>>) -> bool {
    names_within(constants, strings.len())
}

/// Number of elements that an instruction spans.
pub open spec fn width(op: OpCode) -> int {
    if crate::chunk::takes_operand(op) {
        2
    } else {
        1
    }
}

/// What the instructions from element `from` up to, but not including,
/// element `to` do to the depth of the stack, read off the program alone:
/// for each instruction what it yields less what it needs.
pub open spec fn balance(m: Machine, from: int, to: int) -> int
    decreases to - from,
{
    if from < 0 || from >= to || from >= m.code.len() {
        0
    } else {
        match m.code[from] {
            VectorType::Code(op) => yields(
                op,
                operand(Machine { ip: (from + 1) as nat, ..m }),
                m.strings,
            ) - demand(op) + (if from + width(op) <= to {
                balance(m, from + width(op), to)
            } else {
                0
            }),
            VectorType::Constant(_) => 0,
        }
    }
}

/// What a step leaves alone: the program, the pool, and every text that
/// was interned. A step that does not fail moves past the instruction and
/// its operand.
#[verifier::rlimit(50)]
pub proof fn lemma_step_frame(m: Machine, op: OpCode)
    requires
        m.ip < m.code.len(),
        m.code[m.ip as int] == VectorType::Code(op),
        distinct(m.strings),
        m.waiting is Idle,
    ensures
        step(m).0.code == m.code,
        step(m).0.constants == m.constants,
        extends(step(m).0.strings, m.strings),
        distinct(step(m).0.strings),
        step(m).1 is None ==> step(m).0.waiting is Idle,
        !(step(m).1 matches Some(Outcome::Finished(Verdict::RuntimeErr(_)))) ==> step(m).0.ip
            == m.ip + width(op),
        step(m).1 matches Some(Outcome::Finished(Verdict::Success(_))) ==> op == OpCode::OpReturn
            && step(m).0.stack == m.stack,
        step(m).1 matches Some(Outcome::Suspended(_)) ==> !(step(m).0.waiting is Idle),
{
    let n = stepped(m);
    if op == OpCode::OpAdd && n.stack.len() >= 2 {
        match (n.stack.drop_last().last(), n.stack.last()) {
            (ValueType::String(x), ValueType::String(y)) => {
                if x.0 < n.strings.len() && y.0 < n.strings.len() {
                    lemma_interned_distinct(
                        n.strings,
                        n.strings[x.0 as int] + n.strings[y.0 as int],
                    );
                }
            },
            _ => {},
        }
    }
}

/// The depth of the stack at the end of a run, read off the program.
///
/// For a machine whose pool names only interned texts, `balance` says
/// what a run does to the depth: when the run reaches `OpReturn`, the
/// depth has changed by the balance of the instructions executed, so the
/// stack is back at its starting depth exactly when that balance is zero.
/// When the run suspends for the value of a power, one push is
/// outstanding: the depth is one below the balance up to there.
pub proof fn lemma_run_balance(origin: Machine, m: Machine)
    requires
        m.code == origin.code,
        m.constants == origin.constants,
        extends(m.strings, origin.strings),
        names_valid(origin.constants, origin.strings),
        distinct(m.strings),
        m.stack.len() <= STACK_MAX,
        m.waiting is Idle,
    ensures
        run_from(m).0.code == m.code,
        run_from(m).0.constants == m.constants,
        extends(run_from(m).0.strings, origin.strings),
        run_from(m).0.stack.len() <= STACK_MAX,
        run_from(m).1 matches Outcome::Finished(Verdict::Success(_)) ==> m.ip < run_from(m).0.ip
            && run_from(m).0.stack.len() == m.stack.len() + balance(
            origin,
            m.ip as int,
            run_from(m).0.ip - 1,
        ),
        run_from(m).1 matches Outcome::Suspended(_) ==> m.ip < run_from(m).0.ip && run_from(
            m,
        ).0.stack.len() + (if run_from(m).0.waiting is Arithmetic {
            1int
        } else {
            0int
        }) == m.stack.len() + balance(origin, m.ip as int, run_from(m).0.ip as int),
    decreases m.code.len() - m.ip,
{
    if m.ip < m.code.len() {
        match m.code[m.ip as int] {
            VectorType::Code(op) => {
                lemma_stack_discipline(m, op);
                lemma_step_frame(m, op);
                lemma_step_advances(m);
                let (s, signal) = step(m);
                let at = m.ip as int;
                let given = operand(stepped(m));
                assert(operand(Machine { ip: (at + 1) as nat, ..origin }) == given);
                assert(yields(op, given, origin.strings) == yields(op, given, m.strings)) by {
                    if op == OpCode::OpCall {
                        match given {
                            Some(ValueType::Identifier(h)) => {
                                let k = choose|k: int|
                                    0 <= k < origin.constants.len() && origin.constants[k]
                                        == ValueType::Identifier(h);
                                assert(origin.constants[k] is Identifier);
                                assert(h.0 < origin.strings.len());
                            },
                            _ => {},
                        }
                    }
                }
                let effect = yields(op, given, origin.strings) - demand(op);
                match signal {
                    None => {
                        lemma_run_balance(origin, s);
                        let end = run_from(s).0.ip;
                        assert(run_from(m) == run_from(s));
                        if run_from(m).1 matches Outcome::Finished(Verdict::Success(_)) {
                            assert(balance(origin, at, end - 1) == effect + balance(
                                origin,
                                at + width(op),
                                end - 1,
                            ));
                        }
                        if run_from(m).1 matches Outcome::Suspended(_) {
                            assert(balance(origin, at, end as int) == effect + balance(
                                origin,
                                at + width(op),
                                end as int,
                            ));
                        }
                    },
                    Some(Outcome::Suspended(_)) => {
                        assert(balance(origin, at + width(op), at + width(op)) == 0);
                        assert(balance(origin, at, at + width(op)) == effect);
                    },
                    Some(Outcome::Finished(_)) => {
                        assert(balance(origin, at, at) == 0);
                    },
                }
            },
            VectorType::Constant(_) => {},
        }
    }
}

/// Number of values that the host owes the stack: one while the machine
/// waits for an arithmetic value, none otherwise.
pub open spec fn outstanding(waiting: Waiting) -> int {
    if waiting is Arithmetic {
        1
    } else {
        0
    }
}

/// Machine `m` runs the program of `origin`: the same code and pool, and
/// every text that `origin` had. The pool of `origin` names only texts
/// that it had.
pub open spec fn since(origin: Machine, m: Machine) -> bool {
    &&& m.code == origin.code
    &&& m.constants == origin.constants
    &&& extends(m.strings, origin.strings)
    &&& names_valid(origin.constants, origin.strings)
}

/// The depth of the stack, with what is outstanding, is at most the net
/// of the instructions executed so far.
pub open spec fn within_net(origin: Machine, m: Machine) -> bool {
    &&& since(origin, m)
    &&& m.ip <= m.code.len()
    &&& m.stack.len() <= STACK_MAX
    &&& m.stack.len() + outstanding(m.waiting) <= net(
        m.code.take(m.ip as int),
        origin.constants,
        origin.strings,
    )
}

/// What holds of a machine when it stops: it runs the program of
/// `origin`; where it is suspended, it waits for something and is within
/// the net; where it has returned, the instruction before the pointer is
/// `OpReturn` and the depth is at most the net of what stands before that
/// instruction.
pub open spec fn stopped_within(origin: Machine, m: Machine, outcome: Outcome) -> bool {
    &&& since(origin, m)
    &&& (outcome is Suspended ==> within_net(origin, m) && !(m.waiting is Idle))
    &&& (outcome matches Outcome::Finished(Verdict::Success(_)) ==> 1 <= m.ip <= m.code.len()
        && m.code[m.ip - 1] == VectorType::Code(OpCode::OpReturn) && m.stack.len() <= net(
        m.code.take(m.ip - 1),
        origin.constants,
        origin.strings,
    ))
}

/// A step keeps the program and the pool, and every text.
#[verifier::rlimit(50)]
pub proof fn lemma_step_keeps(m: Machine)
    requires
        m.waiting is Idle,
    ensures
        step(m).0.code == m.code,
        step(m).0.constants == m.constants,
        extends(step(m).0.strings, m.strings),
{
    let n = stepped(m);
    if m.ip < m.code.len() && m.code[m.ip as int] == VectorType::Code(OpCode::OpAdd)
        && n.stack.len() >= 2 {
        match (n.stack.drop_last().last(), n.stack.last()) {
            (ValueType::String(x), ValueType::String(y)) => {
                if x.0 < n.strings.len() && y.0 < n.strings.len() {
                    crate::interner::lemma_handle_of(
                        n.strings,
                        n.strings[x.0 as int] + n.strings[y.0 as int],
                    );
                }
            },
            _ => {},
        }
    }
}

/// A step keeps a machine within the net: no instruction leaves more on
/// the stack than its effect says.
#[verifier::rlimit(50)]
pub proof fn lemma_step_within(origin: Machine, m: Machine)
    requires
        within_net(origin, m),
        m.waiting is Idle,
    ensures
        step(m).1 is None ==> within_net(origin, step(m).0) && step(m).0.waiting is Idle,
        step(m).1 matches Some(outcome) ==> stopped_within(origin, step(m).0, outcome),
{
    lemma_step_keeps(m);
    let (n, signal) = step(m);
    assert(extends(n.strings, origin.strings));
    if m.ip < m.code.len() {
        match m.code[m.ip as int] {
            VectorType::Code(op) => {
                lemma_stack_discipline(m, op);
                if !(signal matches Some(Outcome::Finished(Verdict::RuntimeErr(_)))) {
                    let given = operand(stepped(m));
                    if crate::chunk::takes_operand(op) {
                        assert(given is Some);
                        assert(given == operand_at(m.code, origin.constants, (m.ip + 1) as int));
                    }
                    lemma_net_step(m.code, origin.constants, origin.strings, m.ip as int, op);
                    assert(n.ip == m.ip + width(op));
                    assert(yields(op, given, m.strings) - demand(op) <= effect(
                        op,
                        given,
                        origin.strings,
                    )) by {
                        if op == OpCode::OpCall {
                            match given {
                                Some(ValueType::Identifier(h)) => {
                                    let k = choose|k: int|
                                        0 <= k < origin.constants.len() && origin.constants[k]
                                            == ValueType::Identifier(h);
                                    assert(origin.constants[k] is Identifier);
                                    assert(h.0 < origin.strings.len());
                                    assert(m.strings[h.0 as int] == origin.strings[h.0 as int]);
                                },
                                _ => {},
                            }
                        }
                    }
                    if signal matches Some(Outcome::Finished(Verdict::Success(_))) {
                        assert(op == OpCode::OpReturn);
                        assert(n.stack == m.stack);
                    }
                }
            },
            VectorType::Constant(_) => {},
        }
    }
}

/// A run keeps a machine within the net.
pub proof fn lemma_run_within(origin: Machine, m: Machine)
    requires
        within_net(origin, m),
        m.waiting is Idle,
    ensures
        stopped_within(origin, run_from(m).0, run_from(m).1),
    decreases m.code.len() - m.ip,
{
    lemma_step_within(origin, m);
    lemma_step_keeps(m);
    lemma_step_advances(m);
    let (n, signal) = step(m);
    if signal is None {
        lemma_run_within(origin, n);
    }
}

/// Resuming keeps a machine within the net: the value that was
/// outstanding is pushed.
pub proof fn lemma_resumed_within(origin: Machine, m: Machine, value: u64)
    requires
        within_net(origin, m),
    ensures
        stopped_within(origin, resumed(m, value).0, resumed(m, value).1),
{
    match m.waiting {
        Waiting::Idle => {},
        Waiting::Arithmetic => {
            let n = Machine { waiting: Waiting::Idle, ..m };
            if n.stack.len() < STACK_MAX {
                lemma_run_within(origin, with_stack(n, n.stack.push(ValueType::Number(value))));
            }
        },
    }
}

/// The machine and its status after the host has answered one request
/// after the other with the values of `replies`, as far as the machine
/// asks.
pub open spec fn driven(m: Machine, outcome: Outcome, replies: Seq<u64>) -> (Machine, Outcome)
    decreases replies.len(),
{
    if replies.len() == 0 || outcome is Finished {
        (m, outcome)
    } else {
        let (n, next) = resumed(m, replies[0]);
        driven(n, next, replies.skip(1))
    }
}

/// Whatever the host replies, the machine stays within the net.
pub proof fn lemma_driven_within(
    origin: Machine,
    m: Machine,
    outcome: Outcome,
    replies: Seq<u64>,
)
    requires
        stopped_within(origin, m, outcome),
    ensures
        stopped_within(origin, driven(m, outcome, replies).0, driven(m, outcome, replies).1),
    decreases replies.len(),
{
    if !(replies.len() == 0 || outcome is Finished) {
        lemma_resumed_within(origin, m, replies[0]);
        let (n, next) = resumed(m, replies[0]);
        lemma_driven_within(origin, n, next, replies.skip(1));
    }
}

/// A compiled program that returns leaves the stack as empty as it found
/// it, whatever values the host supplied on the way: every statement pops
/// what it pushed, and no instruction takes a value that is not there.
pub proof fn lemma_compiled_program_returns_empty(m: Machine, source: Seq<u8>, replies: Seq<u64>)
    requires
        source.len() <= usize::MAX,
        compilation(source, m.strings) is Ok,
        compilation(source, m.strings)->Ok_0.constants.len() <= usize::MAX,
        compilation(source, m.strings)->Ok_0.strings.len() <= usize::MAX,
    ensures
        ({
            let start = loaded(m, compilation(source, m.strings)->Ok_0);
            let (stopped, first) = run_from(start);
            let (end, last) = driven(stopped, first, replies);
            last matches Outcome::Finished(Verdict::Success(_)) ==> end.stack.len() == 0
        }),
{
    let p = compilation(source, m.strings)->Ok_0;
    lemma_compilation(source, m.strings);
    let start = loaded(m, p);
    assert(start.code.take(0) =~= Seq::<VectorType>::empty());
    lemma_run_within(start, start);
    let (stopped, first) = run_from(start);
    lemma_driven_within(start, stopped, first, replies);
    let (end, last) = driven(stopped, first, replies);
    if last matches Outcome::Finished(Verdict::Success(_)) {
        let code = p.code;
        let body = code.drop_last();
        if end.ip - 1 < code.len() - 1 {
            assert(body[end.ip - 1] == code[end.ip - 1]);
        }
        assert(code.take(end.ip - 1) =~= body);
        assert(code.last() == VectorType::Code(OpCode::OpReturn));
        assert(net(code, p.constants, p.strings) == net(body, p.constants, p.strings));
    }
}

/// The machine stands on an instruction of a program in which, from
/// there on, every operand stands behind its instruction and refers into
/// the pool, and which ends with `OpReturn`.
pub open spec fn on_course(m: Machine) -> bool {
    &&& m.ip < m.code.len()
    &&& aligned(m.code, m.constants.len(), m.ip as int)
    &&& m.code.last() == VectorType::Code(OpCode::OpReturn)
}

/// The runtime errors that only a malformed program meets: the code ends
/// without `OpReturn`, a constant stands where an instruction is due, or
/// an operand is missing or refers outside the pool.
pub open spec fn malformed(outcome: Outcome) -> bool {
    outcome matches Outcome::Finished(Verdict::RuntimeErr(message)) && (message
        == "Unexpected end of code"@ || message == "Expected an instruction"@ || message
        == "Invalid constant index"@)
}

/// What holds of a machine on course when it stops: the program and the
/// size of the pool are as before, a suspended machine is still on
/// course, and the machine has not met a malformed program.
pub open spec fn stopped_on_course(
    code: Seq<VectorType>,
    pool: nat,
    m: Machine,
    outcome: Outcome,
) -> bool {
    &&& m.code == code
    &&& m.constants.len() == pool
    &&& (outcome is Suspended ==> on_course(m) && !(m.waiting is Idle))
    &&& !malformed(outcome)
}

/// The messages of the other runtime errors differ from those that tell
/// of a malformed program.
pub proof fn lemma_messages_differ()
    ensures
        !malformed(Outcome::Finished(Verdict::RuntimeErr("Stack overflow"@))),
        !malformed(Outcome::Finished(Verdict::RuntimeErr("Stack underflow"@))),
        !malformed(Outcome::Finished(Verdict::RuntimeErr("Operands must be numbers"@))),
        !malformed(Outcome::Finished(Verdict::RuntimeErr("Operands must be two strings"@))),
        !malformed(Outcome::Finished(Verdict::RuntimeErr("Operand must be a number"@))),
        !malformed(Outcome::Finished(Verdict::RuntimeErr("undefined global variable"@))),
        !malformed(Outcome::Finished(Verdict::RuntimeErr("Invalid global variable"@))),
        !malformed(Outcome::Finished(Verdict::RuntimeErr("Invalid function"@))),
        !malformed(
            Outcome::Finished(
                Verdict::RuntimeErr(
                    "Undefined function. Currently only supports relu, backward and grad"@,
                ),
            ),
        ),
        !malformed(Outcome::Finished(Verdict::RuntimeErr("No operation is pending"@))),
{
    reveal_strlit("Unexpected end of code");
    reveal_strlit("Expected an instruction");
    reveal_strlit("Invalid constant index");
    reveal_strlit("Stack overflow");
    reveal_strlit("Stack underflow");
    reveal_strlit("Operands must be numbers");
    reveal_strlit("Operands must be two strings");
    reveal_strlit("Operand must be a number");
    reveal_strlit("undefined global variable");
    reveal_strlit("Invalid global variable");
    reveal_strlit("Invalid function");
    reveal_strlit("Undefined function. Currently only supports relu, backward and grad");
    reveal_strlit("No operation is pending");
    assert("Unexpected end of code"@.len() == 22);
    assert("Expected an instruction"@.len() == 23);
    assert("Invalid constant index"@.len() == 22);
    assert("Stack overflow"@.len() == 14);
    assert("Stack underflow"@.len() == 15);
    assert("Operands must be numbers"@.len() == 24);
    assert("Operands must be two strings"@.len() == 28);
    assert("Operand must be a number"@.len() == 24);
    assert("undefined global variable"@.len() == 25);
    assert("Invalid global variable"@.len() == 23);
    assert("Invalid function"@.len() == 16);
    assert("Undefined function. Currently only supports relu, backward and grad"@.len() == 67);
    assert("No operation is pending"@.len() == 23);
    assert("Invalid global variable"@[0] != "Expected an instruction"@[0]);
    assert("No operation is pending"@[0] != "Expected an instruction"@[0]);
}

/// A step of a machine on course finds an instruction with its operand,
/// and leaves the machine on course unless the program has returned.
#[verifier::rlimit(50)]
pub proof fn lemma_step_on_course(m: Machine)
    requires
        on_course(m),
        m.waiting is Idle,
    ensures
        step(m).1 is None ==> on_course(step(m).0) && step(m).0.waiting is Idle && step(m).0.code
            == m.code && step(m).0.constants.len() == m.constants.len(),
        step(m).1 matches Some(outcome) ==> stopped_on_course(
            m.code,
            m.constants.len(),
            step(m).0,
            outcome,
        ),
{
    lemma_messages_differ();
    let at = m.ip as int;
    match m.code[at] {
        VectorType::Code(op) => {
            let (n, signal) = step(m);
            if crate::chunk::takes_operand(op) {
                assert(operand(stepped(m)) is Some);
                assert(aligned(m.code, m.constants.len(), at + 2));
            } else {
                assert(aligned(m.code, m.constants.len(), at + 1));
            }
            if signal is None || signal matches Some(Outcome::Suspended(_)) {
                assert(n.ip == at + width(op));
                assert(op != OpCode::OpReturn);
                if n.ip == m.code.len() {
                    assert(m.code.last() == m.code[m.code.len() - 1]);
                }
            }
        },
        VectorType::Constant(_) => {},
    }
}

/// A run of a machine on course never meets a malformed program.
pub proof fn lemma_run_on_course(m: Machine)
    requires
        on_course(m),
        m.waiting is Idle,
    ensures
        stopped_on_course(m.code, m.constants.len(), run_from(m).0, run_from(m).1),
    decreases m.code.len() - m.ip,
{
    lemma_step_on_course(m);
    lemma_step_advances(m);
    let (n, signal) = step(m);
    if signal is None {
        lemma_run_on_course(n);
    }
}

/// Resuming a machine on course keeps it on course.
pub proof fn lemma_resumed_on_course(m: Machine, value: u64)
    requires
        on_course(m),
    ensures
        stopped_on_course(m.code, m.constants.len(), resumed(m, value).0, resumed(m, value).1),
{
    lemma_messages_differ();
    match m.waiting {
        Waiting::Idle => {},
        Waiting::Arithmetic => {
            let n = Machine { waiting: Waiting::Idle, ..m };
            if n.stack.len() < STACK_MAX {
                lemma_run_on_course(with_stack(n, n.stack.push(ValueType::Number(value))));
            }
        },
    }
}

/// Whatever the host replies, a machine on course stays on course.
pub proof fn lemma_driven_on_course(m: Machine, outcome: Outcome, replies: Seq<u64>)
    requires
        stopped_on_course(m.code, m.constants.len(), m, outcome),
    ensures
        stopped_on_course(
            m.code,
            m.constants.len(),
            driven(m, outcome, replies).0,
            driven(m, outcome, replies).1,
        ),
    decreases replies.len(),
{
    if !(replies.len() == 0 || outcome is Finished) {
        lemma_resumed_on_course(m, replies[0]);
        let (n, next) = resumed(m, replies[0]);
        lemma_driven_on_course(n, next, replies.skip(1));
    }
}

/// A compiled program is never found malformed: whatever values the host
/// supplies, the machine always finds an instruction where it looks for
/// one, with its operand inside the pool, and reaches `OpReturn` before
/// the end of the code.
pub proof fn lemma_compiled_program_is_in_order(m: Machine, source: Seq<u8>, replies: Seq<u64>)
    requires
        source.len() <= usize::MAX,
        compilation(source, m.strings) is Ok,
        compilation(source, m.strings)->Ok_0.constants.len() <= usize::MAX,
        compilation(source, m.strings)->Ok_0.strings.len() <= usize::MAX,
    ensures
        ({
            let start = loaded(m, compilation(source, m.strings)->Ok_0);
            let (stopped, first) = run_from(start);
            !malformed(driven(stopped, first, replies).1)
        }),
{
    let p = compilation(source, m.strings)->Ok_0;
    lemma_compilation(source, m.strings);
    let start = loaded(m, p);
    lemma_run_on_course(start);
    let (stopped, first) = run_from(start);
    lemma_driven_on_course(stopped, first, replies);
}

} // verus!
