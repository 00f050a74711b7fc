//! The bytecode container: instruction elements and a constant pool.
use vstd::prelude::*;
use crate::interner::extends;
use crate::value::ValueType;

verus! {

/// The instructions of the stack machine.
#[derive(Clone, Copy, Debug, PartialEq, Eq, Structural)]
pub enum OpCode {
    OpReturn,
    OpConstant,
    OpNil,
    OpTrue,
    OpFalse,
    OpAdd,
    OpSubtract,
    OpMultiply,
    OpDivide,
    OpPower,
    OpNegate,
    OpNot,
    OpEqualEqual,
    OpGreater,
    OpLess,
    OpPrint,
    OpPop,
    OpDefineGlobal,
    OpGetGlobal,
    OpSetGlobal,
    OpCall,
}

/// One element of a program: an instruction, or the operand of the
/// instruction just before it, as an index into the constant pool.
#[derive(Clone, Copy, Debug, PartialEq, Eq, Structural)]
pub enum VectorType {
    Code(OpCode),
    Constant(usize),
}

/// Whether the instruction is followed by one operand element.
pub open spec fn takes_operand(op: OpCode) -> bool {
    op == OpCode::OpConstant || op == OpCode::OpDefineGlobal || op == OpCode::OpGetGlobal
        || op == OpCode::OpSetGlobal || op == OpCode::OpCall
}

/// From element `at` on, the program is a run of instructions, each one
/// that takes an operand directly followed by a constant reference that
/// lies inside a pool of `pool` entries.
pub open spec fn aligned(code: Seq<VectorType>, pool: nat, at: int) -> bool
    decreases code.len() - at,
{
    if at < 0 || at > code.len() {
        false
    } else if at == code.len() {
        true
    } else {
        match code[at] {
            VectorType::Code(op) => if takes_operand(op) {
                at + 1 < code.len() && (code[at + 1] matches VectorType::Constant(k) && k < pool)
                    && aligned(code, pool, at + 2)
            } else {
                aligned(code, pool, at + 1)
            },
            VectorType::Constant(_) => false,
        }
    }
}

/// The name of the method that yields no value: `backward`.
pub open spec fn backward_name() -> Seq<u8> {
    seq![98u8, 97u8, 99u8, 107u8, 119u8, 97u8, 114u8, 100u8]
}

/// Whether the value is an identifier that reads `backward`.
pub open spec fn names_backward(value: ValueType, strings: Seq<Seq<u8>>) -> bool {
    value matches ValueType::Identifier(h) && h.0 < strings.len() && strings[h.0 as int]
        == backward_name()
}

/// What an instruction does to the depth of the stack when nothing goes
/// wrong and a call yields a value: what it pushes less what it pops.
pub open spec fn nominal_effect(op: OpCode) -> int {
    match op {
        OpCode::OpConstant | OpCode::OpNil | OpCode::OpTrue | OpCode::OpFalse
        | OpCode::OpGetGlobal => 1,
        OpCode::OpAdd | OpCode::OpSubtract | OpCode::OpMultiply | OpCode::OpDivide
        | OpCode::OpPower | OpCode::OpEqualEqual | OpCode::OpGreater | OpCode::OpLess
        | OpCode::OpPrint | OpCode::OpPop | OpCode::OpDefineGlobal => -1,
        _ => 0,
    }
}

/// What an instruction with the given operand does to the depth of the
/// stack when nothing goes wrong: its nominal effect, but for a call of
/// `backward`, which takes its receiver and yields nothing.
pub open spec fn effect(op: OpCode, operand: Option<ValueType>, strings: Seq<Seq<u8>>) -> int {
    if op == OpCode::OpCall && (operand matches Some(value) && names_backward(value, strings)) {
        -1
    } else {
        nominal_effect(op)
    }
}

/// The constant that the element at `at` refers to, if it is a reference
/// into the pool.
pub open spec fn operand_at(code: Seq<VectorType>, constants: Seq<ValueType>, at: int) -> Option<
    ValueType,
> {
    if 0 <= at < code.len() {
        match code[at] {
            VectorType::Constant(k) => if k < constants.len() {
                Some(constants[k as int])
            } else {
                None
            },
            VectorType::Code(_) => None,
        }
    } else {
        None
    }
}

/// The sum of the effects of the instructions of a program.
pub open spec fn net(code: Seq<VectorType>, constants: Seq<ValueType>, strings: Seq<Seq<u8>>) -> int
    decreases code.len(),
{
    if code.len() == 0 {
        0
    } else {
        match code.last() {
            VectorType::Code(op) => net(code.drop_last(), constants, strings) + effect(
                op,
                None,
                strings,
            ),
            VectorType::Constant(_) => if code.len() >= 2 {
                match code[code.len() - 2] {
                    VectorType::Code(op) => net(code.take(code.len() - 2), constants, strings)
                        + effect(op, operand_at(code, constants, code.len() - 1), strings),
                    VectorType::Constant(_) => 0,
                }
            } else {
                0
            },
        }
    }
}

/// The program holds no `OpReturn`.
pub open spec fn plain(code: Seq<VectorType>) -> bool {
    forall|i: int| 0 <= i < code.len() ==> code[i] != VectorType::Code(OpCode::OpReturn)
}

/// Every constant reference of the program lies inside a pool of `pool`
/// entries.
pub open spec fn refs_within(code: Seq<VectorType>, pool: nat) -> bool {
    forall|i: int| 0 <= i < code.len() ==> ((#[trigger] code[i]) matches VectorType::Constant(k)
        ==> k < pool)
}

/// An instruction adds its effect to the net of what stands before it.
pub proof fn lemma_net_step(
    code: Seq<VectorType>,
    constants: Seq<ValueType>,
    strings: Seq<Seq<u8>>,
    at: int,
    op: OpCode,
)
    requires
        0 <= at < code.len(),
        code[at] == VectorType::Code(op),
        takes_operand(op) ==> at + 1 < code.len() && code[at + 1] is Constant,
    ensures
        takes_operand(op) ==> net(code.take(at + 2), constants, strings) == net(
            code.take(at),
            constants,
            strings,
        ) + effect(op, operand_at(code, constants, at + 1), strings),
        !takes_operand(op) ==> net(code.take(at + 1), constants, strings) == net(
            code.take(at),
            constants,
            strings,
        ) + nominal_effect(op),
{
    if takes_operand(op) {
        let longer = code.take(at + 2);
        assert(longer.last() == code[at + 1]);
        assert(longer[longer.len() - 2] == code[at]);
        assert(longer.take(longer.len() - 2) =~= code.take(at));
        assert(operand_at(longer, constants, longer.len() - 1) == operand_at(
            code,
            constants,
            at + 1,
        ));
    } else {
        let longer = code.take(at + 1);
        assert(longer.last() == code[at]);
        assert(longer.drop_last() =~= code.take(at));
    }
}

/// The net of a program does not change when the pool and the interner
/// grow, as long as the program refers into the old pool and the old pool
/// names texts of the old interner.
pub proof fn lemma_net_frame(
    code: Seq<VectorType>,
    constants: Seq<ValueType>,
    strings: Seq<Seq<u8>>,
    more_constants: Seq<ValueType>,
    more_strings: Seq<Seq<u8>>,
)
    requires
        refs_within(code, constants.len()),
        names_within(constants, strings.len()),
        constants.len() <= more_constants.len(),
        forall|i: int| 0 <= i < constants.len() ==> more_constants[i] == constants[i],
        extends(more_strings, strings),
    ensures
        net(code, constants, strings) == net(code, more_constants, more_strings),
    decreases code.len(),
{
    if code.len() > 0 {
        match code.last() {
            VectorType::Code(op) => {
                let rest = code.drop_last();
                assert forall|i: int| 0 <= i < rest.len() implies ((#[trigger] rest[i]) matches VectorType::Constant(
                    k,
                ) ==> k < constants.len()) by {
                    assert(rest[i] == code[i]);
                }
                lemma_net_frame(rest, constants, strings, more_constants, more_strings);
            },
            VectorType::Constant(k) => {
                if code.len() >= 2 {
                    let rest = code.take(code.len() - 2);
                    assert forall|i: int| 0 <= i < rest.len() implies ((#[trigger] rest[i]) matches VectorType::Constant(
                        k,
                    ) ==> k < constants.len()) by {
                        assert(rest[i] == code[i]);
                    }
                    lemma_net_frame(rest, constants, strings, more_constants, more_strings);
                    assert(code[code.len() - 1] == code.last());
                    assert(k < constants.len());
                    let value = constants[k as int];
                    assert(more_constants[k as int] == value);
                    if let ValueType::Identifier(h) = value {
                        assert(h.0 < strings.len());
                        assert(more_strings[h.0 as int] == strings[h.0 as int]);
                    }
                    assert(names_backward(value, strings) == names_backward(value, more_strings));
                }
            },
        }
    }
}

/// Every text and identifier in the pool has a handle below `texts`.
pub open spec fn names_within(constants: Seq<ValueType>, texts: nat) -> bool {
    forall|k: int|
        0 <= k < constants.len() ==> match #[trigger] constants[k] {
            ValueType::Identifier(h) => h.0 < texts,
            ValueType::String(h) => h.0 < texts,
            _ => true,
        }
}

/// A compiled program: elements in execution order, and the constants they
/// refer to. Both only grow.
#[derive(Debug)]
pub struct Chunk {
    pub code: Vec<VectorType>,
    pub constants: Vec<ValueType>,
}

impl Chunk {
    /// Every operand stands directly behind its instruction and refers
    /// into the pool; no other constant reference occurs.
    pub open spec fn well_formed(&self) -> bool {
        aligned(self.code@, self.constants@.len(), 0)
    }

    pub fn new() -> (c: Chunk)
        ensures
            c.code@ == Seq::<VectorType>::empty(),
            c.constants@ == Seq::<ValueType>::empty(),
            c.well_formed(),
    {
        Chunk { code: Vec::new(), constants: Vec::new() }
    }

    /// Appends one element to the program.
    pub fn write(&mut self, element: VectorType)
        ensures
            final(self).code@ == old(self).code@.push(element),
            final(self).constants@ == old(self).constants@,
    {
        self.code.push(element);
    }

    /// Appends a value to the constant pool and returns its index.
    pub fn add_constant(&mut self, value: ValueType) -> (index: usize)
        ensures
            final(self).constants@ == old(self).constants@.push(value),
            final(self).code@ == old(self).code@,
            index == old(self).constants@.len(),
    {
        self.constants.push(value);
        self.constants.len() - 1
    }
}

/// A well-aligned program stays so when the pool grows.
pub proof fn lemma_aligned_pool_grows(code: Seq<VectorType>, pool: nat, larger: nat, at: int)
    requires
        aligned(code, pool, at),
        pool <= larger,
    ensures
        aligned(code, larger, at),
    decreases code.len() - at,
{
    if at < code.len() {
        match code[at] {
            VectorType::Code(op) => {
                if takes_operand(op) {
                    lemma_aligned_pool_grows(code, pool, larger, at + 2);
                } else {
                    lemma_aligned_pool_grows(code, pool, larger, at + 1);
                }
            },
            VectorType::Constant(_) => {},
        }
    }
}

/// Appending an instruction without operand keeps a program aligned.
pub proof fn lemma_aligned_push_plain(code: Seq<VectorType>, pool: nat, at: int, op: OpCode)
    requires
        aligned(code, pool, at),
        !takes_operand(op),
    ensures
        aligned(code.push(VectorType::Code(op)), pool, at),
    decreases code.len() - at,
{
    let next = code.push(VectorType::Code(op));
    if at < code.len() {
        match code[at] {
            VectorType::Code(o) => {
                if takes_operand(o) {
                    lemma_aligned_push_plain(code, pool, at + 2, op);
                } else {
                    lemma_aligned_push_plain(code, pool, at + 1, op);
                }
            },
            VectorType::Constant(_) => {},
        }
    } else {
        assert(aligned(next, pool, at + 1));
    }
}

/// Appending an instruction together with its operand keeps a program
/// aligned, provided the operand lies inside the pool.
pub proof fn lemma_aligned_push_operand(
    code: Seq<VectorType>,
    pool: nat,
    at: int,
    op: OpCode,
    index: usize,
)
    requires
        aligned(code, pool, at),
        takes_operand(op),
        index < pool,
    ensures
        aligned(code.push(VectorType::Code(op)).push(VectorType::Constant(index)), pool, at),
    decreases code.len() - at,
{
    let next = code.push(VectorType::Code(op)).push(VectorType::Constant(index));
    if at < code.len() {
        match code[at] {
            VectorType::Code(o) => {
                if takes_operand(o) {
                    lemma_aligned_push_operand(code, pool, at + 2, op, index);
                } else {
                    lemma_aligned_push_operand(code, pool, at + 1, op, index);
                }
            },
            VectorType::Constant(_) => {},
        }
    } else {
        assert(aligned(next, pool, at + 2));
    }
}

} // verus!
