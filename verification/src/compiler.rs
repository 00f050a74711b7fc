//! The compiler: one pass over the tokens, emitting bytecode as it parses.
//!
//! ```text
//! program     -> declaration* EOF
//! declaration -> "var" IDENTIFIER ( "=" expression )? ";" | statement
//! statement   -> "print" expression ";" | expression ";"
//! expression  -> assignment
//! assignment  -> IDENTIFIER "=" assignment | equality
//! equality    -> comparison ( "==" comparison )*
//! comparison  -> term ( ( ">" | "<" ) term )*
//! term        -> factor ( ( "+" | "-" ) factor )*
//! factor      -> power ( ( "*" | "/" ) power )*
//! power       -> unary ( "^" power )?
//! unary       -> ( "-" | "!" ) unary | call
//! call        -> primary ( "." IDENTIFIER "(" ")" )*
//! primary     -> NUMBER | STRING | "nil" | "true" | "false" | IDENTIFIER
//!              | IDENTIFIER "(" ")" | "(" expression ")"
//! ```
//!
//! A call leaves one value in place of its receiver. The machine's
//! `backward` yields none, so the compiler pushes `nil` behind a call of
//! that name. A call without receiver is a call on `nil`.
//!
//! Expressions are parsed by precedence climbing, by recursive descent:
//! the parser descends once for every operand and every pair of
//! parentheses that is open, `MAX_NESTING` times at most. Compilation
//! stops at the first error.
use vstd::prelude::*;
use vstd::string::*;
use crate::chunk::{
    aligned, backward_name, effect, lemma_aligned_pool_grows, lemma_aligned_push_operand,
    lemma_aligned_push_plain, lemma_net_frame, names_within, net, nominal_effect, plain,
    refs_within, Chunk,
    OpCode, VectorType,
};
use crate::interner::{
    extends, handle_of, interned, lemma_handle_of, lemma_interned_distinct, Interner,
};
use crate::literal::{literal_bits, parse_number};
use crate::scanner::{lemma_scan_moves, scan, Scanner, Token, TokenType};
use crate::value::{StringHandle, ValueType};

verus! {

/// Why a source text does not compile.
#[derive(Clone, Copy, Debug, PartialEq, Eq, Structural)]
pub enum ErrorKind {
    UnexpectedCharacter,
    UnterminatedString,
    ExpectExpression,
    ExpectSemicolon,
    ExpectVariableName,
    ExpectMethodName,
    ExpectLeftParen,
    ExpectRightParen,
    NestedTooDeep,
}

/// A compile error: what is wrong, and the offset in the source of the
/// token at which it was found.
#[derive(Clone, Copy, Debug, PartialEq, Eq, Structural)]
pub struct CompileError {
    pub kind: ErrorKind,
    pub position: usize,
}

/// A failed compilation: the error, and the texts interned up to it.
pub struct Failure {
    pub error: CompileError,
    pub strings: Seq<Seq<u8>>,
}

/// The text of an error message.
pub open spec fn message_of(kind: ErrorKind) -> Seq<char> {
    match kind {
        ErrorKind::UnexpectedCharacter => "Unexpected character"@,
        ErrorKind::UnterminatedString => "Unterminated string"@,
        ErrorKind::ExpectExpression => "Expect expression"@,
        ErrorKind::ExpectSemicolon => "Expect ';' after statement"@,
        ErrorKind::ExpectVariableName => "Expect variable name"@,
        ErrorKind::ExpectMethodName => "Expect method name after '.'"@,
        ErrorKind::ExpectLeftParen => "Expect '(' after method name"@,
        ErrorKind::ExpectRightParen => "Expect ')'"@,
        ErrorKind::NestedTooDeep => "Expression nested too deeply"@,
    }
}

/// The digit `d` as a character.
pub open spec fn digit_char(d: nat) -> char {
    if d == 0 {
        '0'
    } else if d == 1 {
        '1'
    } else if d == 2 {
        '2'
    } else if d == 3 {
        '3'
    } else if d == 4 {
        '4'
    } else if d == 5 {
        '5'
    } else if d == 6 {
        '6'
    } else if d == 7 {
        '7'
    } else if d == 8 {
        '8'
    } else {
        '9'
    }
}

/// The decimal digits of `n`, without leading zeros.
pub open spec fn decimal(n: nat) -> Seq<char>
    decreases n,
{
    if n < 10 {
        seq![digit_char(n)]
    } else {
        decimal(n / 10).push(digit_char(n % 10))
    }
}

/// The text of a compile error: its message and the offset of the token.
pub open spec fn error_text(e: CompileError) -> Seq<char> {
    message_of(e.kind) + " at offset "@ + decimal(e.position as nat)
}

/// Appends the decimal digits of `n` to `text`.
pub fn push_decimal(text: &mut String, n: usize)
    ensures
        final(text)@ == old(text)@ + decimal(n as nat),
    decreases n,
{
    if n >= 10 {
        push_decimal(text, n / 10);
    }
    let d = n % 10;
    proof {
        reveal_strlit("0");
        reveal_strlit("1");
        reveal_strlit("2");
        reveal_strlit("3");
        reveal_strlit("4");
        reveal_strlit("5");
        reveal_strlit("6");
        reveal_strlit("7");
        reveal_strlit("8");
        reveal_strlit("9");
    }
    let digit = if d == 0 {
        "0"
    } else if d == 1 {
        "1"
    } else if d == 2 {
        "2"
    } else if d == 3 {
        "3"
    } else if d == 4 {
        "4"
    } else if d == 5 {
        "5"
    } else if d == 6 {
        "6"
    } else if d == 7 {
        "7"
    } else if d == 8 {
        "8"
    } else {
        "9"
    };
    assert(digit@ =~= seq![digit_char(d as nat)]);
    text.append(digit);
    proof {
        if n >= 10 {
            assert(old(text)@ + decimal((n / 10) as nat) + seq![digit_char(d as nat)] =~= old(
                text,
            )@ + decimal(n as nat));
        } else {
            assert(old(text)@ + seq![digit_char(d as nat)] =~= old(text)@ + decimal(n as nat));
        }
    }
}

impl CompileError {
    /// The message of the error with the offset at which it was found.
    pub fn text(&self) -> (r: String)
        ensures
            r@ == error_text(*self),
    {
        let mut r = self.message();
        r.append(" at offset ");
        push_decimal(&mut r, self.position);
        r
    }

    /// The message of the error.
    pub fn message(&self) -> (r: String)
        ensures
            r@ == message_of(self.kind),
    {
        match self.kind {
            ErrorKind::UnexpectedCharacter => "Unexpected character".to_owned(),
            ErrorKind::UnterminatedString => "Unterminated string".to_owned(),
            ErrorKind::ExpectExpression => "Expect expression".to_owned(),
            ErrorKind::ExpectSemicolon => "Expect ';' after statement".to_owned(),
            ErrorKind::ExpectVariableName => "Expect variable name".to_owned(),
            ErrorKind::ExpectMethodName => "Expect method name after '.'".to_owned(),
            ErrorKind::ExpectLeftParen => "Expect '(' after method name".to_owned(),
            ErrorKind::ExpectRightParen => "Expect ')'".to_owned(),
            ErrorKind::NestedTooDeep => "Expression nested too deeply".to_owned(),
        }
    }
}

/// How many expressions may be open at once: operands inside operands,
/// parentheses inside parentheses. The parser descends once for each.
pub const MAX_NESTING: usize = 256;

/// The precedence levels, from loosest to tightest.
pub const ASSIGNMENT: u8 = 1;

pub const EQUALITY: u8 = 2;

pub const COMPARISON: u8 = 3;

pub const TERM: u8 = 4;

pub const FACTOR: u8 = 5;

pub const POWER: u8 = 6;

pub const UNARY: u8 = 7;

pub const CALL: u8 = 8;

/// The state of a compilation: the source, the token under inspection and
/// the position behind it, what has been emitted, the interned texts, and
/// how deep the parser stands in nested expressions.
pub struct Parse {
    pub source: Seq<u8>,
    pub position: int,
    pub current: Token,
    pub code: Seq<VectorType>,
    pub constants: Seq<ValueType>,
    pub strings: Seq<Seq<u8>>,
    /// Number of expressions that are open.
    pub nesting: nat,
}

/// The token under inspection lies in the source, directly before the
/// scanning position, and is not empty unless it is the end of the source.
pub open spec fn parse_wf(p: Parse) -> bool {
    &&& p.source.len() <= usize::MAX
    &&& p.current.start + p.current.length == p.position
    &&& p.position <= p.source.len()
    &&& (p.current.kind != TokenType::Eof ==> p.current.length >= 1)
    &&& (p.current.kind == TokenType::String ==> p.current.length >= 2)
}

/// How much of the source lies at and behind the token under inspection.
pub open spec fn remaining(p: Parse) -> int {
    p.source.len() - p.current.start
}

/// Takes the next token under inspection.
pub open spec fn advance(p: Parse) -> Parse {
    Parse { current: scan(p.source, p.position).0, position: scan(p.source, p.position).1, ..p }
}

/// The bytes that a token spans.
pub open spec fn lexeme(p: Parse, token: Token) -> Seq<u8> {
    p.source.subrange(token.start as int, token.start + token.length)
}

/// The content of a string token: what stands between its quotes.
pub open spec fn string_content(p: Parse, token: Token) -> Seq<u8> {
    p.source.subrange(token.start + 1, token.start + token.length - 1)
}

/// Emits an instruction without operand.
pub open spec fn emit(p: Parse, op: OpCode) -> Parse {
    Parse { code: p.code.push(VectorType::Code(op)), ..p }
}

/// Adds a constant and emits an instruction that refers to it.
pub open spec fn emit_operand(p: Parse, op: OpCode, value: ValueType) -> Parse {
    Parse {
        constants: p.constants.push(value),
        code: p.code.push(VectorType::Code(op)).push(
            VectorType::Constant(p.constants.len() as usize),
        ),
        ..p
    }
}

/// Interns a name, adds it as an identifier constant and emits an
/// instruction that refers to it.
pub open spec fn emit_name(p: Parse, op: OpCode, name: Seq<u8>) -> Parse {
    emit_operand(
        Parse { strings: interned(p.strings, name), ..p },
        op,
        ValueType::Identifier(StringHandle(handle_of(p.strings, name) as usize)),
    )
}

/// Emits the call of a method. A call of `backward` yields no value; so
/// that it is an expression like every other call, `nil` is pushed behind
/// it.
pub open spec fn emit_call(p: Parse, name: Seq<u8>) -> Parse {
    let q = emit_name(p, OpCode::OpCall, name);
    if name == backward_name() {
        emit(q, OpCode::OpNil)
    } else {
        q
    }
}

/// Interns a text, adds it as a string constant and emits `OpConstant`.
pub open spec fn emit_string(p: Parse, text: Seq<u8>) -> Parse {
    emit_operand(
        Parse { strings: interned(p.strings, text), ..p },
        OpCode::OpConstant,
        ValueType::String(StringHandle(handle_of(p.strings, text) as usize)),
    )
}

/// An error at the token under inspection.
pub open spec fn error_at(p: Parse, kind: ErrorKind) -> Result<Parse, Failure> {
    Err(Failure { error: CompileError { kind, position: p.current.start }, strings: p.strings })
}

/// The instruction of a binary operator and the level at which its right
/// operand is parsed: one above its own for the operators that associate
/// to the left, its own for `^`, which associates to the right.
pub open spec fn binary_rule(kind: TokenType) -> Option<(OpCode, u8)> {
    match kind {
        TokenType::EqualEqual => Some((OpCode::OpEqualEqual, COMPARISON)),
        TokenType::Greater => Some((OpCode::OpGreater, TERM)),
        TokenType::Less => Some((OpCode::OpLess, TERM)),
        TokenType::Plus => Some((OpCode::OpAdd, FACTOR)),
        TokenType::Minus => Some((OpCode::OpSubtract, FACTOR)),
        TokenType::Star => Some((OpCode::OpMultiply, POWER)),
        TokenType::Slash => Some((OpCode::OpDivide, POWER)),
        TokenType::Caret => Some((OpCode::OpPower, POWER)),
        _ => None,
    }
}

/// The precedence of a token as an infix operator; 0 where it is none.
pub open spec fn infix_level(kind: TokenType) -> u8 {
    match kind {
        TokenType::EqualEqual => EQUALITY,
        TokenType::Greater => COMPARISON,
        TokenType::Less => COMPARISON,
        TokenType::Plus => TERM,
        TokenType::Minus => TERM,
        TokenType::Star => FACTOR,
        TokenType::Slash => FACTOR,
        TokenType::Caret => POWER,
        TokenType::Dot => CALL,
        _ => 0,
    }
}

/// Taking the next token keeps the state well formed and never moves
/// back; it moves forward unless the source is at its end.
pub proof fn lemma_advance(p: Parse)
    requires
        parse_wf(p),
    ensures
        parse_wf(advance(p)),
        remaining(advance(p)) <= remaining(p),
        p.current.kind != TokenType::Eof ==> remaining(advance(p)) < remaining(p),
        remaining(advance(p)) >= 0,
{
    lemma_scan_moves(p.source, p.position);
}

/// A method call behind a receiver: `.name()`.
pub open spec fn method(p: Parse) -> Result<Parse, Failure> {
    let q = advance(p);
    if q.current.kind != TokenType::Identifier {
        error_at(q, ErrorKind::ExpectMethodName)
    } else {
        let r = advance(q);
        if r.current.kind != TokenType::LeftParen {
            error_at(r, ErrorKind::ExpectLeftParen)
        } else {
            let s = advance(r);
            if s.current.kind != TokenType::RightParen {
                error_at(s, ErrorKind::ExpectRightParen)
            } else {
                Ok(emit_call(advance(s), lexeme(p, q.current)))
            }
        }
    }
}

/// An expression whose operators bind at least as tightly as `level`: a
/// prefix expression, then every infix operator of that strength. The
/// expression is open while it is parsed; no more than `MAX_NESTING`
/// expressions may be open at once.
///
/// Every rule consumes at least one token (`lemma_precedence`).
/// The two tests of `remaining` here and in `infix_loop` therefore always
/// succeed; they are there to make it evident that parsing ends.
pub open spec fn precedence(p: Parse, level: u8) -> Result<Parse, Failure>
    decreases remaining(p), 3nat,
    when parse_wf(p)
{
    if p.nesting >= MAX_NESTING {
        error_at(p, ErrorKind::NestedTooDeep)
    } else {
        match prefix(Parse { nesting: p.nesting + 1, ..p }, level) {
            Err(e) => Err(e),
            Ok(q) => if parse_wf(q) && 0 <= remaining(q) < remaining(p) {
                match infix_loop(q, level) {
                    Err(e) => Err(e),
                    Ok(r) => Ok(Parse { nesting: p.nesting, ..r }),
                }
            } else {
                Ok(q)
            },
        }
    }
}

/// A prefix expression: a literal, a name, a parenthesised expression, or
/// a unary operator with its operand.
pub open spec fn prefix(p: Parse, level: u8) -> Result<Parse, Failure>
    decreases remaining(p), 2nat,
    when parse_wf(p)
{
    match p.current.kind {
        TokenType::LeftParen => {
            proof {
                lemma_advance(p);
            }
            match precedence(advance(p), ASSIGNMENT) {
                Err(e) => Err(e),
                Ok(q) => if q.current.kind == TokenType::RightParen {
                    Ok(advance(q))
                } else {
                    error_at(q, ErrorKind::ExpectRightParen)
                },
            }
        },
        TokenType::Minus => {
            proof {
                lemma_advance(p);
            }
            match precedence(advance(p), UNARY) {
                Err(e) => Err(e),
                Ok(q) => Ok(emit(q, OpCode::OpNegate)),
            }
        },
        TokenType::Bang => {
            proof {
                lemma_advance(p);
            }
            match precedence(advance(p), UNARY) {
                Err(e) => Err(e),
                Ok(q) => Ok(emit(q, OpCode::OpNot)),
            }
        },
        TokenType::Number => Ok(
            emit_operand(
                advance(p),
                OpCode::OpConstant,
                ValueType::Number(literal_bits(lexeme(p, p.current))),
            ),
        ),
        TokenType::String => Ok(emit_string(advance(p), string_content(p, p.current))),
        TokenType::Nil => Ok(emit(advance(p), OpCode::OpNil)),
        TokenType::True => Ok(emit(advance(p), OpCode::OpTrue)),
        TokenType::False => Ok(emit(advance(p), OpCode::OpFalse)),
        TokenType::Identifier => variable(p, level),
        TokenType::UnexpectedCharacter => error_at(p, ErrorKind::UnexpectedCharacter),
        TokenType::UnterminatedString => error_at(p, ErrorKind::UnterminatedString),
        _ => error_at(p, ErrorKind::ExpectExpression),
    }
}

/// A name: a call without receiver when `(` follows, which pushes `nil`
/// for the receiver; an assignment when `=` follows and the context
/// allows one; else a reference.
pub open spec fn variable(p: Parse, level: u8) -> Result<Parse, Failure>
    decreases remaining(p), 1nat,
    when parse_wf(p) && p.current.kind == TokenType::Identifier
{
    let name = lexeme(p, p.current);
    let q = advance(p);
    if q.current.kind == TokenType::LeftParen {
        let r = advance(q);
        if r.current.kind == TokenType::RightParen {
            Ok(emit_call(emit(advance(r), OpCode::OpNil), name))
        } else {
            error_at(r, ErrorKind::ExpectRightParen)
        }
    } else if level <= ASSIGNMENT && q.current.kind == TokenType::Equal {
        proof {
            lemma_advance(p);
            lemma_advance(q);
        }
        match precedence(advance(q), ASSIGNMENT) {
            Err(e) => Err(e),
            Ok(r) => Ok(emit_name(r, OpCode::OpSetGlobal, name)),
        }
    } else {
        Ok(emit_name(q, OpCode::OpGetGlobal, name))
    }
}

/// The infix operators that follow an operand, as long as they bind at
/// least as tightly as `level`.
pub open spec fn infix_loop(p: Parse, level: u8) -> Result<Parse, Failure>
    decreases remaining(p), 1nat,
    when parse_wf(p)
{
    if infix_level(p.current.kind) == 0 || infix_level(p.current.kind) < level {
        Ok(p)
    } else {
        match infix(p) {
            Err(e) => Err(e),
            Ok(q) => if parse_wf(q) && 0 <= remaining(q) < remaining(p) {
                infix_loop(q, level)
            } else {
                Ok(q)
            },
        }
    }
}

/// One infix operator with what follows it: a binary operator with its
/// right operand, or a method call.
pub open spec fn infix(p: Parse) -> Result<Parse, Failure>
    decreases remaining(p), 0nat,
    when parse_wf(p) && infix_level(p.current.kind) != 0
{
    match binary_rule(p.current.kind) {
        Some((op, level)) => {
            proof {
                lemma_advance(p);
            }
            match precedence(advance(p), level) {
                Err(e) => Err(e),
                Ok(q) => Ok(emit(q, op)),
            }
        },
        None => method(p),
    }
}

/// An expression.
pub open spec fn expression(p: Parse) -> Result<Parse, Failure> {
    precedence(p, ASSIGNMENT)
}

/// The `;` that ends a statement, and the instruction that the statement
/// ends with.
pub open spec fn finish(p: Parse, op: OpCode) -> Result<Parse, Failure> {
    if p.current.kind == TokenType::Semicolon {
        Ok(emit(advance(p), op))
    } else {
        error_at(p, ErrorKind::ExpectSemicolon)
    }
}

/// What follows `var`: the name, an optional initialiser (`nil` without
/// one), and `;`.
pub open spec fn var_declaration(p: Parse) -> Result<Parse, Failure> {
    if p.current.kind != TokenType::Identifier {
        error_at(p, ErrorKind::ExpectVariableName)
    } else {
        let name = lexeme(p, p.current);
        let q = advance(p);
        let initial = if q.current.kind == TokenType::Equal {
            expression(advance(q))
        } else {
            Ok(emit(q, OpCode::OpNil))
        };
        match initial {
            Err(e) => Err(e),
            Ok(r) => if r.current.kind == TokenType::Semicolon {
                Ok(emit_name(advance(r), OpCode::OpDefineGlobal, name))
            } else {
                error_at(r, ErrorKind::ExpectSemicolon)
            },
        }
    }
}

/// A declaration or statement.
pub open spec fn declaration(p: Parse) -> Result<Parse, Failure> {
    if p.current.kind == TokenType::Var {
        var_declaration(advance(p))
    } else if p.current.kind == TokenType::Print {
        match expression(advance(p)) {
            Err(e) => Err(e),
            Ok(q) => finish(q, OpCode::OpPrint),
        }
    } else {
        match expression(p) {
            Err(e) => Err(e),
            Ok(q) => finish(q, OpCode::OpPop),
        }
    }
}

/// The declarations up to the end of the source, and `OpReturn`. As in
/// `precedence`, the test of `remaining` always succeeds
/// (`lemma_declaration`).
pub open spec fn program(p: Parse) -> Result<Parse, Failure>
    decreases remaining(p),
    when parse_wf(p)
{
    if p.current.kind == TokenType::Eof {
        Ok(emit(p, OpCode::OpReturn))
    } else {
        match declaration(p) {
            Err(e) => Err(e),
            Ok(q) => if parse_wf(q) && 0 <= remaining(q) < remaining(p) {
                program(q)
            } else {
                Ok(q)
            },
        }
    }
}

/// The state in which compilation starts: nothing emitted, the first
/// token under inspection.
pub open spec fn initial(source: Seq<u8>, strings: Seq<Seq<u8>>) -> Parse {
    advance(
        Parse {
            source,
            position: 0,
            current: Token { kind: TokenType::Eof, start: 0, length: 0 },
            code: Seq::empty(),
            constants: Seq::empty(),
            strings,
            nesting: 0,
        },
    )
}

/// What compiling `source` gives, with `strings` interned before.
pub open spec fn compilation(source: Seq<u8>, strings: Seq<Seq<u8>>) -> Result<Parse, Failure> {
    program(initial(source, strings))
}

/// State `q` continues state `p` after at least one token.
pub open spec fn consumed(p: Parse, q: Parse) -> bool {
    parse_wf(q) && q.source == p.source && 0 <= remaining(q) < remaining(p)
}

/// Pool and interner are small enough for their indices.
pub open spec fn bounded(p: Parse) -> bool {
    p.constants.len() <= usize::MAX && p.strings.len() <= usize::MAX
}

/// Every constant reference lies in the pool, and every name in the pool
/// is a text of the interner.
pub open spec fn tidy(p: Parse) -> bool {
    refs_within(p.code, p.constants.len()) && names_within(p.constants, p.strings.len())
}

/// The sum of the effects of what has been emitted.
pub open spec fn tally(p: Parse) -> int {
    net(p.code, p.constants, p.strings)
}

/// State `q` has emitted, on top of what `p` had, instructions without
/// `OpReturn` whose effects sum up to `effect`, each with its operand
/// where it takes one.
pub open spec fn emitted(p: Parse, q: Parse, effect: int) -> bool {
    &&& (plain(p.code) ==> plain(q.code))
    &&& p.constants.len() <= q.constants.len()
    &&& p.strings.len() <= q.strings.len()
    &&& (aligned(p.code, p.constants.len(), 0) && bounded(q) ==> aligned(
        q.code,
        q.constants.len(),
        0,
    ))
    &&& (tidy(p) && bounded(q) ==> tidy(q) && tally(q) == tally(p) + effect)
}

/// The effect of an instruction whose operand is the given name.
pub open spec fn effect_named(op: OpCode, name: Seq<u8>) -> int {
    if op == OpCode::OpCall && name == backward_name() {
        -1
    } else {
        nominal_effect(op)
    }
}

/// What emitting an instruction without operand adds.
pub proof fn lemma_emit(p: Parse, op: OpCode)
    requires
        !crate::chunk::takes_operand(op),
    ensures
        tally(emit(p, op)) == tally(p) + nominal_effect(op),
        tidy(p) ==> tidy(emit(p, op)),
        aligned(p.code, p.constants.len(), 0) ==> aligned(emit(p, op).code, p.constants.len(), 0),
        op != OpCode::OpReturn ==> emitted(p, emit(p, op), nominal_effect(op)),
{
    let code = emit(p, op).code;
    assert(code.drop_last() =~= p.code);
    if aligned(p.code, p.constants.len(), 0) {
        lemma_aligned_push_plain(p.code, p.constants.len(), 0, op);
    }
}

/// What emitting an instruction with its operand adds.
pub proof fn lemma_emit_operand(p: Parse, op: OpCode, value: ValueType)
    requires
        crate::chunk::takes_operand(op),
        names_within(seq![value], p.strings.len()),
    ensures
        emitted(p, emit_operand(p, op, value), effect(op, Some(value), p.strings)),
{
    let q = emit_operand(p, op, value);
    let code = q.code;
    assert(code.take(code.len() - 2) =~= p.code);
    assert(code[code.len() - 2] == VectorType::Code(op));
    assert(seq![value][0] == value);
    if aligned(p.code, p.constants.len(), 0) && p.constants.len() < usize::MAX {
        lemma_aligned_pool_grows(p.code, p.constants.len(), p.constants.len() + 1, 0);
        lemma_aligned_push_operand(
            p.code,
            p.constants.len() + 1,
            0,
            op,
            p.constants.len() as usize,
        );
    }
    if tidy(p) && bounded(q) {
        lemma_net_frame(p.code, p.constants, p.strings, q.constants, p.strings);
        assert(code.last() == VectorType::Constant(p.constants.len() as usize));
        assert(crate::chunk::operand_at(code, q.constants, code.len() - 1) == Some(value));
        assert forall|i: int| 0 <= i < code.len() implies ((#[trigger] code[i]) matches VectorType::Constant(
            k,
        ) ==> k < q.constants.len()) by {
            if i < p.code.len() {
                assert(code[i] == p.code[i]);
            }
        }
    }
}

/// What emitting an instruction with an interned name adds.
pub proof fn lemma_emit_name(p: Parse, op: OpCode, name: Seq<u8>)
    requires
        crate::chunk::takes_operand(op),
    ensures
        emitted(p, emit_name(p, op, name), effect_named(op, name)),
{
    let inner = Parse { strings: interned(p.strings, name), ..p };
    let q = emit_name(p, op, name);
    lemma_handle_of(p.strings, name);
    if bounded(q) {
        let value = ValueType::Identifier(StringHandle(handle_of(p.strings, name) as usize));
        assert(seq![value][0] == value);
        lemma_emit_operand(inner, op, value);
        if tidy(p) {
            lemma_net_frame(p.code, p.constants, p.strings, p.constants, inner.strings);
        }
    } else {
        let code = q.code;
        assert forall|i: int| 0 <= i < p.code.len() && plain(p.code) implies code[i]
            != VectorType::Code(OpCode::OpReturn) by {
            assert(code[i] == p.code[i]);
        }
    }
}

/// What emitting a string constant adds.
pub proof fn lemma_emit_string(p: Parse, text: Seq<u8>)
    ensures
        emitted(p, emit_string(p, text), 1),
{
    let inner = Parse { strings: interned(p.strings, text), ..p };
    let q = emit_string(p, text);
    lemma_handle_of(p.strings, text);
    if bounded(q) {
        let value = ValueType::String(StringHandle(handle_of(p.strings, text) as usize));
        assert(seq![value][0] == value);
        lemma_emit_operand(inner, OpCode::OpConstant, value);
        if tidy(p) {
            lemma_net_frame(p.code, p.constants, p.strings, p.constants, inner.strings);
        }
    } else {
        let code = q.code;
        assert forall|i: int| 0 <= i < p.code.len() && plain(p.code) implies code[i]
            != VectorType::Code(OpCode::OpReturn) by {
            assert(code[i] == p.code[i]);
        }
    }
}

/// A call leaves one value in place of its receiver, whatever the method.
pub proof fn lemma_emit_call(p: Parse, name: Seq<u8>)
    ensures
        emitted(p, emit_call(p, name), 0),
{
    lemma_emit_name(p, OpCode::OpCall, name);
    lemma_emit(emit_name(p, OpCode::OpCall, name), OpCode::OpNil);
}

/// A method call consumes its tokens and emits the call.
pub proof fn lemma_method(p: Parse)
    requires
        parse_wf(p),
        p.current.kind != TokenType::Eof,
    ensures
        method(p) matches Ok(q) ==> consumed(p, q) && emitted(p, q, 0),
{
    let q = advance(p);
    lemma_advance(p);
    let r = advance(q);
    lemma_advance(q);
    let s = advance(r);
    lemma_advance(r);
    lemma_advance(s);
    let t = advance(s);
    let name = lexeme(p, q.current);
    lemma_emit_call(t, name);
}

/// An expression consumes at least one token, and the state behind it is
/// well formed: the tests of `remaining` in `precedence` and `infix_loop`
/// never fail. What it emits holds no `OpReturn` and nominally leaves one
/// value on the stack.
pub proof fn lemma_precedence(p: Parse, level: u8)
    requires
        parse_wf(p),
    ensures
        precedence(p, level) matches Ok(q) ==> consumed(p, q) && emitted(p, q, 1),
    decreases remaining(p), 3nat,
{
    if p.nesting < MAX_NESTING {
        let inner = Parse { nesting: p.nesting + 1, ..p };
        lemma_prefix(inner, level);
        match prefix(inner, level) {
            Ok(q) => {
                lemma_infix_loop(q, level);
            },
            Err(_) => {},
        }
    }
}

/// A prefix expression consumes at least one token and nominally leaves
/// one value.
pub proof fn lemma_prefix(p: Parse, level: u8)
    requires
        parse_wf(p),
    ensures
        prefix(p, level) matches Ok(q) ==> consumed(p, q) && emitted(p, q, 1),
    decreases remaining(p), 2nat,
{
    lemma_advance(p);
    let a = advance(p);
    match p.current.kind {
        TokenType::LeftParen => {
            lemma_precedence(a, ASSIGNMENT);
            match precedence(a, ASSIGNMENT) {
                Ok(q) => {
                    lemma_advance(q);
                },
                Err(_) => {},
            }
        },
        TokenType::Minus => {
            lemma_precedence(a, UNARY);
            match precedence(a, UNARY) {
                Ok(q) => {
                    lemma_emit(q, OpCode::OpNegate);
                },
                Err(_) => {},
            }
        },
        TokenType::Bang => {
            lemma_precedence(a, UNARY);
            match precedence(a, UNARY) {
                Ok(q) => {
                    lemma_emit(q, OpCode::OpNot);
                },
                Err(_) => {},
            }
        },
        TokenType::Number => {
            lemma_emit_operand(
                a,
                OpCode::OpConstant,
                ValueType::Number(literal_bits(lexeme(p, p.current))),
            );
        },
        TokenType::String => {
            let text = string_content(p, p.current);
            lemma_emit_string(a, text);
        },
        TokenType::Nil => {
            lemma_emit(a, OpCode::OpNil);
        },
        TokenType::True => {
            lemma_emit(a, OpCode::OpTrue);
        },
        TokenType::False => {
            lemma_emit(a, OpCode::OpFalse);
        },
        TokenType::Identifier => {
            lemma_variable(p, level);
        },
        _ => {},
    }
}

/// A name, with what belongs to it, consumes at least one token and
/// nominally leaves one value.
pub proof fn lemma_variable(p: Parse, level: u8)
    requires
        parse_wf(p),
        p.current.kind == TokenType::Identifier,
    ensures
        variable(p, level) matches Ok(q) ==> consumed(p, q) && emitted(p, q, 1),
    decreases remaining(p), 1nat,
{
    lemma_advance(p);
    let name = lexeme(p, p.current);
    let q = advance(p);
    lemma_advance(q);
    if q.current.kind == TokenType::LeftParen {
        let r = advance(q);
        lemma_advance(r);
        let t = emit(advance(r), OpCode::OpNil);
        lemma_emit(advance(r), OpCode::OpNil);
        lemma_emit_call(t, name);
    } else if level <= ASSIGNMENT && q.current.kind == TokenType::Equal {
        lemma_precedence(advance(q), ASSIGNMENT);
        match precedence(advance(q), ASSIGNMENT) {
            Ok(t) => {
                lemma_emit_name(t, OpCode::OpSetGlobal, name);
            },
            Err(_) => {},
        }
    } else {
        lemma_emit_name(q, OpCode::OpGetGlobal, name);
    }
}

/// The infix operators behind an operand never move back, and nominally
/// leave the depth as it is.
pub proof fn lemma_infix_loop(p: Parse, level: u8)
    requires
        parse_wf(p),
    ensures
        infix_loop(p, level) matches Ok(q) ==> parse_wf(q) && q.source == p.source && 0
            <= remaining(q) <= remaining(p) && emitted(p, q, 0),
    decreases remaining(p), 1nat,
{
    lemma_advance(p);
    if !(infix_level(p.current.kind) == 0 || infix_level(p.current.kind) < level) {
        lemma_infix(p);
        match infix(p) {
            Ok(q) => {
                lemma_infix_loop(q, level);
            },
            Err(_) => {},
        }
    }
}

/// An infix operator with what follows it consumes at least one token and
/// nominally leaves the depth as it is.
pub proof fn lemma_infix(p: Parse)
    requires
        parse_wf(p),
        infix_level(p.current.kind) != 0,
    ensures
        infix(p) matches Ok(q) ==> consumed(p, q) && emitted(p, q, 0),
    decreases remaining(p), 0nat,
{
    lemma_advance(p);
    match binary_rule(p.current.kind) {
        Some((op, level)) => {
            lemma_precedence(advance(p), level);
            match precedence(advance(p), level) {
                Ok(q) => {
                    lemma_emit(q, op);
                },
                Err(_) => {},
            }
        },
        None => {
            lemma_method(p);
        },
    }
}

/// The end of a statement consumes the `;` and emits its instruction.
pub proof fn lemma_finish(p: Parse, op: OpCode)
    requires
        parse_wf(p),
        op == OpCode::OpPrint || op == OpCode::OpPop,
    ensures
        finish(p, op) matches Ok(q) ==> consumed(p, q) && emitted(p, q, nominal_effect(op)),
{
    lemma_advance(p);
    lemma_emit(advance(p), op);
}

/// A declaration consumes at least one token, so the test of `remaining`
/// in `program` never fails. What it emits holds no `OpReturn` and
/// nominally leaves the depth as it is.
pub proof fn lemma_declaration(p: Parse)
    requires
        parse_wf(p),
        p.current.kind != TokenType::Eof,
    ensures
        declaration(p) matches Ok(q) ==> consumed(p, q) && emitted(p, q, 0),
{
    lemma_advance(p);
    let q = advance(p);
    if p.current.kind == TokenType::Var {
        if q.current.kind == TokenType::Identifier {
            let name = lexeme(q, q.current);
            lemma_advance(q);
            let r = advance(q);
            lemma_advance(r);
            let initial = if r.current.kind == TokenType::Equal {
                lemma_precedence(advance(r), ASSIGNMENT);
                expression(advance(r))
            } else {
                lemma_emit(r, OpCode::OpNil);
                Ok(emit(r, OpCode::OpNil))
            };
            match initial {
                Ok(t) => {
                    lemma_advance(t);
                    let u = advance(t);
                    lemma_emit_name(u, OpCode::OpDefineGlobal, name);
                },
                Err(_) => {},
            }
        }
    } else if p.current.kind == TokenType::Print {
        lemma_precedence(q, ASSIGNMENT);
        match precedence(q, ASSIGNMENT) {
            Ok(t) => {
                lemma_finish(t, OpCode::OpPrint);
            },
            Err(_) => {},
        }
    } else {
        lemma_precedence(p, ASSIGNMENT);
        match precedence(p, ASSIGNMENT) {
            Ok(t) => {
                lemma_finish(t, OpCode::OpPop);
            },
            Err(_) => {},
        }
    }
}

/// A program ends with its one `OpReturn`, and the effects of its
/// instructions sum up to nothing.
pub proof fn lemma_program(p: Parse)
    requires
        parse_wf(p),
        plain(p.code),
    ensures
        program(p) matches Ok(q) ==> q.code.len() > 0 && q.code.last() == VectorType::Code(
            OpCode::OpReturn,
        ) && plain(q.code.drop_last()) && p.constants.len() <= q.constants.len()
            && p.strings.len() <= q.strings.len() && (aligned(p.code, p.constants.len(), 0)
            && bounded(q) ==> aligned(q.code, q.constants.len(), 0)) && (tidy(p) && bounded(q)
            ==> tidy(q) && tally(q) == tally(p)),
    decreases remaining(p),
{
    if p.current.kind == TokenType::Eof {
        lemma_emit(p, OpCode::OpReturn);
        assert(emit(p, OpCode::OpReturn).code.drop_last() =~= p.code);
    } else {
        lemma_declaration(p);
        match declaration(p) {
            Ok(q) => {
                lemma_program(q);
            },
            Err(_) => {},
        }
    }
}

/// Every compiled program ends with its one `OpReturn`, every operand
/// stands behind its instruction and refers into the pool, every name in
/// the pool is interned, and the effects of the instructions sum up to
/// nothing: what the statements push, they pop.
pub proof fn lemma_compilation(source: Seq<u8>, strings: Seq<Seq<u8>>)
    requires
        source.len() <= usize::MAX,
    ensures
        compilation(source, strings) matches Ok(p) ==> p.code.len() > 0 && p.code.last()
            == VectorType::Code(OpCode::OpReturn) && plain(p.code.drop_last()) && (bounded(p)
            ==> aligned(p.code, p.constants.len(), 0) && tidy(p) && tally(p) == 0),
{
    lemma_scan_moves(source, 0);
    let p = initial(source, strings);
    assert(p.code =~= Seq::<VectorType>::empty());
    lemma_program(p);
}

/// Whether what a parsing function returned is what the grammar says:
/// on success the state after it, on failure the error and the texts
/// interned up to it.
pub open spec fn agrees(
    r: Result<(), CompileError>,
    expected: Result<Parse, Failure>,
    after: Parse,
) -> bool {
    match r {
        Ok(_) => expected == Ok::<Parse, Failure>(after),
        Err(e) => expected == Err::<Parse, Failure>(Failure { error: e, strings: after.strings }),
    }
}

/// A copy of the bytes `from..to` of `source`.
pub fn slice(source: &Vec<u8>, from: usize, to: usize) -> (v: Vec<u8>)
    requires
        from <= to <= source.len(),
    ensures
        v@ == source@.subrange(from as int, to as int),
{
    let mut v: Vec<u8> = Vec::new();
    let mut i: usize = from;
    while i < to
        invariant
            from <= i <= to <= source.len(),
            v@ == source@.subrange(from as int, i as int),
        decreases to - i,
    {
        v.push(source[i]);
        i += 1;
        assert(v@ =~= source@.subrange(from as int, i as int));
    }
    v
}

/// Whether the bytes `from..to` of `source` read `backward`.
pub fn spells_backward(source: &Vec<u8>, from: usize, to: usize) -> (r: bool)
    requires
        from <= to <= source.len(),
    ensures
        r == (source@.subrange(from as int, to as int) == backward_name()),
{
    let ghost word = source@.subrange(from as int, to as int);
    proof {
        let b = backward_name();
        assert(b.len() == 8 && b[0] == 98 && b[1] == 97 && b[2] == 99 && b[3] == 107 && b[4]
            == 119 && b[5] == 97 && b[6] == 114 && b[7] == 100);
        assert(word.len() == to - from);
        assert(forall|i: int| 0 <= i < to - from ==> word[i] == source@[from + i]);
    }
    if to - from == 8 && source[from] == 98 && source[from + 1] == 97 && source[from + 2] == 99
        && source[from + 3] == 107 && source[from + 4] == 119 && source[from + 5] == 97
        && source[from + 6] == 114 && source[from + 7] == 100 {
        assert(word =~= backward_name());
        true
    } else {
        false
    }
}

/// The precedence of a token as an infix operator.
pub fn infix_level_of(kind: TokenType) -> (r: u8)
    ensures
        r == infix_level(kind),
{
    match kind {
        TokenType::EqualEqual => EQUALITY,
        TokenType::Greater => COMPARISON,
        TokenType::Less => COMPARISON,
        TokenType::Plus => TERM,
        TokenType::Minus => TERM,
        TokenType::Star => FACTOR,
        TokenType::Slash => FACTOR,
        TokenType::Caret => POWER,
        TokenType::Dot => CALL,
        _ => 0,
    }
}

/// The instruction of a binary operator and the level of its right
/// operand.
pub fn binary_rule_of(kind: TokenType) -> (r: Option<(OpCode, u8)>)
    ensures
        r == binary_rule(kind),
{
    match kind {
        TokenType::EqualEqual => Some((OpCode::OpEqualEqual, COMPARISON)),
        TokenType::Greater => Some((OpCode::OpGreater, TERM)),
        TokenType::Less => Some((OpCode::OpLess, TERM)),
        TokenType::Plus => Some((OpCode::OpAdd, FACTOR)),
        TokenType::Minus => Some((OpCode::OpSubtract, FACTOR)),
        TokenType::Star => Some((OpCode::OpMultiply, POWER)),
        TokenType::Slash => Some((OpCode::OpDivide, POWER)),
        TokenType::Caret => Some((OpCode::OpPower, POWER)),
        _ => None,
    }
}

/// A compilation in progress.
struct Parser {
    scanner: Scanner,
    current: Token,
    chunk: Chunk,
    interner: Interner,
    nesting: usize,
}

impl View for Parser {
    type V = Parse;

    closed spec fn view(&self) -> Parse {
        Parse {
            source: self.scanner.source(),
            position: self.scanner.position(),
            current: self.current,
            code: self.chunk.code@,
            constants: self.chunk.constants@,
            strings: self.interner@,
            nesting: self.nesting as nat,
        }
    }
}

impl Parser {
    /// The invariant: scanner and interner are well formed, the token
    /// under inspection is the last one scanned, and what has been
    /// emitted is a well-formed program.
    closed spec fn wf(&self) -> bool {
        &&& self.scanner.wf()
        &&& self.interner.wf()
        &&& parse_wf(self@)
        &&& self.chunk.well_formed()
        &&& names_within(self.chunk.constants@, self.interner@.len())
        &&& self.nesting <= MAX_NESTING
    }

    fn advance(&mut self)
        requires
            old(self).wf(),
        ensures
            final(self).wf(),
            final(self)@ == advance(old(self)@),
    {
        proof {
            lemma_advance(self@);
        }
        self.current = self.scanner.next_token();
    }

    fn fail(&self, kind: ErrorKind) -> (r: Result<(), CompileError>)
        ensures
            r == Err::<(), CompileError>(CompileError { kind, position: self@.current.start }),
    {
        Err(CompileError { kind, position: self.current.start })
    }

    fn emit(&mut self, op: OpCode)
        requires
            old(self).wf(),
            !crate::chunk::takes_operand(op),
        ensures
            final(self).wf(),
            final(self)@ == emit(old(self)@, op),
    {
        proof {
            lemma_aligned_push_plain(self.chunk.code@, self.chunk.constants@.len(), 0, op);
        }
        self.chunk.write(VectorType::Code(op));
    }

    fn emit_operand(&mut self, op: OpCode, value: ValueType)
        requires
            old(self).wf(),
            crate::chunk::takes_operand(op),
            names_within(seq![value], old(self)@.strings.len()),
        ensures
            final(self).wf(),
            final(self)@ == emit_operand(old(self)@, op, value),
    {
        assert(seq![value][0] == value);
        let index = self.chunk.add_constant(value);
        proof {
            lemma_aligned_pool_grows(
                self.chunk.code@,
                (self.chunk.constants@.len() - 1) as nat,
                self.chunk.constants@.len(),
                0,
            );
            lemma_aligned_push_operand(
                self.chunk.code@,
                self.chunk.constants@.len(),
                0,
                op,
                index,
            );
        }
        self.chunk.write(VectorType::Code(op));
        self.chunk.write(VectorType::Constant(index));
    }

    fn emit_name(&mut self, op: OpCode, name: Token)
        requires
            old(self).wf(),
            crate::chunk::takes_operand(op),
            name.start + name.length <= old(self)@.source.len(),
        ensures
            final(self).wf(),
            final(self)@ == emit_name(old(self)@, op, lexeme(old(self)@, name)),
    {
        let text = slice(self.scanner.bytes(), name.start, name.start + name.length);
        proof {
            lemma_interned_distinct(self.interner@, text@);
        }
        let handle = self.interner.intern_string(text);
        assert(seq![ValueType::Identifier(handle)][0] == ValueType::Identifier(handle));
        self.emit_operand(op, ValueType::Identifier(handle));
    }

    fn emit_call(&mut self, name: Token)
        requires
            old(self).wf(),
            name.start + name.length <= old(self)@.source.len(),
        ensures
            final(self).wf(),
            final(self)@ == emit_call(old(self)@, lexeme(old(self)@, name)),
    {
        let yields_nothing = spells_backward(
            self.scanner.bytes(),
            name.start,
            name.start + name.length,
        );
        self.emit_name(OpCode::OpCall, name);
        if yields_nothing {
            self.emit(OpCode::OpNil);
        }
    }

    fn emit_string(&mut self, token: Token)
        requires
            old(self).wf(),
            token.length >= 2,
            token.start + token.length <= old(self)@.source.len(),
        ensures
            final(self).wf(),
            final(self)@ == emit_string(old(self)@, string_content(old(self)@, token)),
    {
        let text = slice(self.scanner.bytes(), token.start + 1, token.start + token.length - 1);
        proof {
            lemma_interned_distinct(self.interner@, text@);
        }
        let handle = self.interner.intern_string(text);
        assert(seq![ValueType::String(handle)][0] == ValueType::String(handle));
        self.emit_operand(OpCode::OpConstant, ValueType::String(handle));
    }

    fn precedence(&mut self, level: u8) -> (r: Result<(), CompileError>)
        requires
            old(self).wf(),
        ensures
            final(self).wf(),
            final(self)@.source == old(self)@.source,
            final(self)@.nesting == old(self)@.nesting,
            extends(final(self)@.strings, old(self)@.strings),
            agrees(r, precedence(old(self)@, level), final(self)@),
            r is Ok ==> 0 <= remaining(final(self)@) < remaining(old(self)@),
        decreases remaining(old(self)@), 3nat,
    {
        if self.nesting >= MAX_NESTING {
            return self.fail(ErrorKind::NestedTooDeep);
        }
        self.nesting += 1;
        let r = match self.prefix(level) {
            Err(e) => Err(e),
            Ok(()) => self.infix_loop(level),
        };
        self.nesting -= 1;
        r
    }

    fn prefix(&mut self, level: u8) -> (r: Result<(), CompileError>)
        requires
            old(self).wf(),
        ensures
            final(self).wf(),
            final(self)@.source == old(self)@.source,
            final(self)@.nesting == old(self)@.nesting,
            extends(final(self)@.strings, old(self)@.strings),
            agrees(r, prefix(old(self)@, level), final(self)@),
            r is Ok ==> 0 <= remaining(final(self)@) < remaining(old(self)@),
        decreases remaining(old(self)@), 2nat,
    {
        let token = self.current;
        proof {
            lemma_advance(self@);
        }
        match token.kind {
            TokenType::LeftParen => {
                self.advance();
                match self.precedence(ASSIGNMENT) {
                    Err(e) => Err(e),
                    Ok(()) => {
                        if self.current.kind == TokenType::RightParen {
                            proof {
                                lemma_advance(self@);
                            }
                            self.advance();
                            Ok(())
                        } else {
                            self.fail(ErrorKind::ExpectRightParen)
                        }
                    },
                }
            },
            TokenType::Minus => {
                self.advance();
                match self.precedence(UNARY) {
                    Err(e) => Err(e),
                    Ok(()) => {
                        self.emit(OpCode::OpNegate);
                        Ok(())
                    },
                }
            },
            TokenType::Bang => {
                self.advance();
                match self.precedence(UNARY) {
                    Err(e) => Err(e),
                    Ok(()) => {
                        self.emit(OpCode::OpNot);
                        Ok(())
                    },
                }
            },
            TokenType::Number => {
                let bits = parse_number(
                    self.scanner.bytes(),
                    token.start,
                    token.start + token.length,
                );
                self.advance();
                assert(seq![ValueType::Number(bits)][0] == ValueType::Number(bits));
                self.emit_operand(OpCode::OpConstant, ValueType::Number(bits));
                Ok(())
            },
            TokenType::String => {
                self.advance();
                self.emit_string(token);
                Ok(())
            },
            TokenType::Nil => {
                self.advance();
                self.emit(OpCode::OpNil);
                Ok(())
            },
            TokenType::True => {
                self.advance();
                self.emit(OpCode::OpTrue);
                Ok(())
            },
            TokenType::False => {
                self.advance();
                self.emit(OpCode::OpFalse);
                Ok(())
            },
            TokenType::Identifier => self.variable(level),
            TokenType::UnexpectedCharacter => self.fail(ErrorKind::UnexpectedCharacter),
            TokenType::UnterminatedString => self.fail(ErrorKind::UnterminatedString),
            _ => self.fail(ErrorKind::ExpectExpression),
        }
    }

    fn variable(&mut self, level: u8) -> (r: Result<(), CompileError>)
        requires
            old(self).wf(),
            old(self)@.current.kind == TokenType::Identifier,
        ensures
            final(self).wf(),
            final(self)@.source == old(self)@.source,
            final(self)@.nesting == old(self)@.nesting,
            extends(final(self)@.strings, old(self)@.strings),
            agrees(r, variable(old(self)@, level), final(self)@),
            r is Ok ==> 0 <= remaining(final(self)@) < remaining(old(self)@),
        decreases remaining(old(self)@), 1nat,
    {
        let name = self.current;
        proof {
            lemma_advance(self@);
        }
        self.advance();
        proof {
            lemma_advance(self@);
        }
        if self.current.kind == TokenType::LeftParen {
            self.advance();
            if self.current.kind == TokenType::RightParen {
                proof {
                    lemma_advance(self@);
                }
                self.advance();
                self.emit(OpCode::OpNil);
                self.emit_call(name);
                Ok(())
            } else {
                self.fail(ErrorKind::ExpectRightParen)
            }
        } else if level <= ASSIGNMENT && self.current.kind == TokenType::Equal {
            self.advance();
            match self.precedence(ASSIGNMENT) {
                Err(e) => Err(e),
                Ok(()) => {
                    self.emit_name(OpCode::OpSetGlobal, name);
                    Ok(())
                },
            }
        } else {
            self.emit_name(OpCode::OpGetGlobal, name);
            Ok(())
        }
    }

    fn infix_loop(&mut self, level: u8) -> (r: Result<(), CompileError>)
        requires
            old(self).wf(),
        ensures
            final(self).wf(),
            final(self)@.source == old(self)@.source,
            final(self)@.nesting == old(self)@.nesting,
            extends(final(self)@.strings, old(self)@.strings),
            agrees(r, infix_loop(old(self)@, level), final(self)@),
            r is Ok ==> 0 <= remaining(final(self)@) <= remaining(old(self)@),
        decreases remaining(old(self)@), 1nat,
    {
        loop
            invariant
                self.wf(),
                self@.source == old(self)@.source,
                self@.nesting == old(self)@.nesting,
                extends(self@.strings, old(self)@.strings),
                infix_loop(self@, level) == infix_loop(old(self)@, level),
                0 <= remaining(self@) <= remaining(old(self)@),
            decreases remaining(self@),
        {
            let strength = infix_level_of(self.current.kind);
            if strength == 0 || strength < level {
                return Ok(());
            }
            match self.infix() {
                Err(e) => {
                    return Err(e);
                },
                Ok(()) => {},
            }
        }
    }

    fn infix(&mut self) -> (r: Result<(), CompileError>)
        requires
            old(self).wf(),
            infix_level(old(self)@.current.kind) != 0,
        ensures
            final(self).wf(),
            final(self)@.source == old(self)@.source,
            final(self)@.nesting == old(self)@.nesting,
            extends(final(self)@.strings, old(self)@.strings),
            agrees(r, infix(old(self)@), final(self)@),
            r is Ok ==> 0 <= remaining(final(self)@) < remaining(old(self)@),
        decreases remaining(old(self)@), 0nat,
    {
        proof {
            lemma_advance(self@);
        }
        match binary_rule_of(self.current.kind) {
            Some((op, level)) => {
                self.advance();
                match self.precedence(level) {
                    Err(e) => Err(e),
                    Ok(()) => {
                        self.emit(op);
                        Ok(())
                    },
                }
            },
            None => self.method(),
        }
    }

    fn method(&mut self) -> (r: Result<(), CompileError>)
        requires
            old(self).wf(),
            old(self)@.current.kind != TokenType::Eof,
        ensures
            final(self).wf(),
            final(self)@.source == old(self)@.source,
            final(self)@.nesting == old(self)@.nesting,
            extends(final(self)@.strings, old(self)@.strings),
            agrees(r, method(old(self)@), final(self)@),
            r is Ok ==> 0 <= remaining(final(self)@) < remaining(old(self)@),
    {
        proof {
            lemma_advance(self@);
        }
        self.advance();
        if self.current.kind != TokenType::Identifier {
            return self.fail(ErrorKind::ExpectMethodName);
        }
        let name = self.current;
        proof {
            lemma_advance(self@);
        }
        self.advance();
        if self.current.kind != TokenType::LeftParen {
            return self.fail(ErrorKind::ExpectLeftParen);
        }
        proof {
            lemma_advance(self@);
        }
        self.advance();
        if self.current.kind != TokenType::RightParen {
            return self.fail(ErrorKind::ExpectRightParen);
        }
        proof {
            lemma_advance(self@);
        }
        self.advance();
        self.emit_call(name);
        Ok(())
    }

    fn finish(&mut self, op: OpCode) -> (r: Result<(), CompileError>)
        requires
            old(self).wf(),
            op == OpCode::OpPrint || op == OpCode::OpPop,
        ensures
            final(self).wf(),
            final(self)@.source == old(self)@.source,
            final(self)@.nesting == old(self)@.nesting,
            extends(final(self)@.strings, old(self)@.strings),
            agrees(r, finish(old(self)@, op), final(self)@),
            r is Ok ==> 0 <= remaining(final(self)@) < remaining(old(self)@),
    {
        if self.current.kind == TokenType::Semicolon {
            proof {
                lemma_advance(self@);
            }
            self.advance();
            self.emit(op);
            Ok(())
        } else {
            self.fail(ErrorKind::ExpectSemicolon)
        }
    }

    fn var_declaration(&mut self) -> (r: Result<(), CompileError>)
        requires
            old(self).wf(),
        ensures
            final(self).wf(),
            final(self)@.source == old(self)@.source,
            final(self)@.nesting == old(self)@.nesting,
            extends(final(self)@.strings, old(self)@.strings),
            agrees(r, var_declaration(old(self)@), final(self)@),
            r is Ok ==> 0 <= remaining(final(self)@) < remaining(old(self)@),
    {
        if self.current.kind != TokenType::Identifier {
            return self.fail(ErrorKind::ExpectVariableName);
        }
        let name = self.current;
        proof {
            lemma_advance(self@);
        }
        self.advance();
        if self.current.kind == TokenType::Equal {
            proof {
                lemma_advance(self@);
            }
            self.advance();
            match self.precedence(ASSIGNMENT) {
                Err(e) => {
                    return Err(e);
                },
                Ok(()) => {},
            }
        } else {
            self.emit(OpCode::OpNil);
        }
        if self.current.kind == TokenType::Semicolon {
            proof {
                lemma_advance(self@);
            }
            self.advance();
            self.emit_name(OpCode::OpDefineGlobal, name);
            Ok(())
        } else {
            self.fail(ErrorKind::ExpectSemicolon)
        }
    }

    fn declaration(&mut self) -> (r: Result<(), CompileError>)
        requires
            old(self).wf(),
            old(self)@.current.kind != TokenType::Eof,
        ensures
            final(self).wf(),
            final(self)@.source == old(self)@.source,
            final(self)@.nesting == old(self)@.nesting,
            extends(final(self)@.strings, old(self)@.strings),
            agrees(r, declaration(old(self)@), final(self)@),
            r is Ok ==> 0 <= remaining(final(self)@) < remaining(old(self)@),
    {
        proof {
            lemma_advance(self@);
        }
        if self.current.kind == TokenType::Var {
            self.advance();
            self.var_declaration()
        } else if self.current.kind == TokenType::Print {
            self.advance();
            match self.precedence(ASSIGNMENT) {
                Err(e) => Err(e),
                Ok(()) => self.finish(OpCode::OpPrint),
            }
        } else {
            match self.precedence(ASSIGNMENT) {
                Err(e) => Err(e),
                Ok(()) => self.finish(OpCode::OpPop),
            }
        }
    }

    fn program(&mut self) -> (r: Result<(), CompileError>)
        requires
            old(self).wf(),
        ensures
            final(self).wf(),
            final(self)@.nesting == old(self)@.nesting,
            extends(final(self)@.strings, old(self)@.strings),
            agrees(r, program(old(self)@), final(self)@),
    {
        loop
            invariant
                self.wf(),
                program(self@) == program(old(self)@),
                self@.nesting == old(self)@.nesting,
                extends(self@.strings, old(self)@.strings),
                0 <= remaining(self@),
            decreases remaining(self@),
        {
            if self.current.kind == TokenType::Eof {
                self.emit(OpCode::OpReturn);
                return Ok(());
            }
            match self.declaration() {
                Err(e) => {
                    return Err(e);
                },
                Ok(()) => {},
            }
        }
    }
}

/// Compiles a source text given as bytes. Texts are interned in
/// `interner` as they are met, also where compilation fails later on.
pub fn compile_bytes(source: Vec<u8>, interner: &mut Interner) -> (r: Result<Chunk, CompileError>)
    requires
        old(interner).wf(),
    ensures
        final(interner).wf(),
        extends(final(interner)@, old(interner)@),
        match r {
            Ok(chunk) => compilation(source@, old(interner)@) matches Ok(p) && p.code
                == chunk.code@ && p.constants == chunk.constants@ && p.strings == final(interner)@
                && chunk.well_formed() && names_within(chunk.constants@, final(interner)@.len()),
            Err(e) => compilation(source@, old(interner)@) == Err::<Parse, Failure>(
                Failure { error: e, strings: final(interner)@ },
            ),
        },
{
    proof {
        assert(source@.len() == source.len());
        lemma_scan_moves(source@, 0);
    }
    let mut taken = Interner::new();
    core::mem::swap(interner, &mut taken);
    let mut parser = Parser {
        scanner: Scanner::new(source),
        current: Token { kind: TokenType::Eof, start: 0, length: 0 },
        chunk: Chunk::new(),
        interner: taken,
        nesting: 0,
    };
    parser.current = parser.scanner.next_token();
    let outcome = parser.program();
    let Parser { scanner, current, chunk, interner: grown, nesting } = parser;
    *interner = grown;
    match outcome {
        Ok(()) => Ok(chunk),
        Err(e) => Err(e),
    }
}

/// Compiles a source text to a chunk: recursive descent over the
/// statements, precedence climbing inside expressions, bytecode emitted
/// on the way. The first error ends the compilation.
pub fn compile(source: &str, interner: &mut Interner) -> (r: Result<Chunk, CompileError>)
    requires
        old(interner).wf(),
    ensures
        final(interner).wf(),
        extends(final(interner)@, old(interner)@),
        match r {
            Ok(chunk) => compilation(source.spec_bytes(), old(interner)@) matches Ok(p) && p.code
                == chunk.code@ && p.constants == chunk.constants@ && p.strings == final(interner)@
                && chunk.well_formed() && names_within(chunk.constants@, final(interner)@.len()),
            Err(e) => compilation(source.spec_bytes(), old(interner)@) == Err::<Parse, Failure>(
                Failure { error: e, strings: final(interner)@ },
            ),
        },
{
    compile_bytes(source.as_bytes_vec(), interner)
}

} // verus!
