use tensor_vm::chunk::{Chunk, OpCode, VectorType};
use tensor_vm::compiler::{compile, CompileError, ErrorKind};
use tensor_vm::interner::Interner;
use tensor_vm::number::{NumericOp, Request};
use tensor_vm::value::{StringHandle, ValueType};
use tensor_vm::vm::{run_source, Result, Status, VM};

fn evaluate(request: Request) -> u64 {
    assert_eq!(request.op, NumericOp::Power);
    f64::from_bits(request.lhs).powf(f64::from_bits(request.rhs)).to_bits()
}

fn drive(vm: &mut VM, first: Status) -> Result {
    let mut status = first;
    loop {
        match status {
            Status::Suspended(request) => status = vm.resume(evaluate(request)),
            Status::Finished(result) => return result,
        }
    }
}

fn run(source: &str) -> (VM, Result) {
    let (mut vm, status) = run_source(source);
    let result = drive(&mut vm, status);
    (vm, result)
}

fn number(value: f64) -> ValueType {
    ValueType::Number(value.to_bits())
}

fn render(vm: &VM, value: &ValueType) -> String {
    match value {
        ValueType::Number(bits) => format!("{}", f64::from_bits(*bits)),
        ValueType::Tensor(t) => format!("tensor#{}", t.0),
        other => String::from_utf8(vm.render(*other).expect("a text")).expect("valid text"),
    }
}

fn printed(source: &str) -> Vec<String> {
    let (vm, result) = run(source);
    match result {
        Result::Success(values) => values.iter().map(|v| render(&vm, v)).collect(),
        other => panic!("unexpected result {:?}", other),
    }
}

fn runtime_error(source: &str) -> String {
    match run(source).1 {
        Result::RuntimeErr(message) => message,
        other => panic!("unexpected result {:?}", other),
    }
}

fn refusal(source: &str) -> CompileError {
    let mut interner = Interner::new();
    match compile(source, &mut interner) {
        Err(e) => e,
        Ok(chunk) => panic!("compiled to {:?}", chunk),
    }
}

#[test]
fn prints_the_sum_of_one_and_two() {
    let (_, result) = run("print 1 + 2;");
    assert_eq!(result, Result::Success(vec![number(3.0)]));
    assert_eq!(printed("print 1 + 2;"), vec!["3".to_string()]);
}

#[test]
fn addition_prints_five() {
    assert_eq!(printed("print 2 + 3;"), vec!["5".to_string()]);
}

#[test]
fn multiplication_binds_tighter_than_addition() {
    assert_eq!(printed("print 2 * 3 + 1;"), vec!["7".to_string()]);
    assert_eq!(printed("print 1 + 2 * 3;"), vec!["7".to_string()]);
}

#[test]
fn power_of_two_to_the_tenth() {
    assert_eq!(printed("print 2 ^ 10;"), vec!["1024".to_string()]);
}

#[test]
fn power_associates_to_the_right() {
    assert_eq!(printed("print 2 ^ 3 ^ 2;"), vec!["512".to_string()]);
}

#[test]
fn unary_minus_binds_tighter_than_power() {
    assert_eq!(printed("print -2 ^ 2;"), vec!["4".to_string()]);
}

#[test]
fn subtraction_and_division_associate_to_the_left() {
    assert_eq!(printed("print 10 - 4 - 3;"), vec!["3".to_string()]);
    assert_eq!(printed("print 64 / 4 / 2;"), vec!["8".to_string()]);
}

#[test]
fn parentheses_group() {
    assert_eq!(printed("print (1 + 2) * 3;"), vec!["9".to_string()]);
}

#[test]
fn fractions_are_rounded_as_binary64() {
    assert_eq!(printed("print 0.1 + 0.2;"), vec!["0.30000000000000004".to_string()]);
    assert_eq!(printed("print 1.5 * 2;"), vec!["3".to_string()]);
}

#[test]
fn literals_of_any_length() {
    assert_eq!(
        printed("print 3.14159265358979323846264338327950288;"),
        vec!["3.141592653589793".to_string()]
    );
    assert_eq!(
        printed("print 99999999999999999999;"),
        vec!["100000000000000000000".to_string()]
    );
    assert_eq!(printed("print 0.30000000000000004;"), vec!["0.30000000000000004".to_string()]);
}

#[test]
fn negation_flips_the_sign() {
    assert_eq!(printed("print -3;"), vec!["-3".to_string()]);
    assert_eq!(printed("print --3;"), vec!["3".to_string()]);
}

#[test]
fn strings_concatenate() {
    let (vm, result) = run("print \"foo\" + \"bar\";");
    match result {
        Result::Success(values) => {
            assert_eq!(values.len(), 1);
            match values[0] {
                ValueType::String(h) => {
                    assert_eq!(vm.interner().lookup(h).as_slice(), "foobar".as_bytes())
                }
                other => panic!("not a string: {:?}", other),
            }
        }
        other => panic!("unexpected result {:?}", other),
    }
}

#[test]
fn concatenation_gives_a_new_handle_unless_the_text_is_known() {
    let (vm, result) = run("var a = \"foo\"; var b = \"bar\"; print a + b; print a; print b;");
    let values = match result {
        Result::Success(values) => values,
        other => panic!("unexpected result {:?}", other),
    };
    assert_ne!(values[0], values[1]);
    assert_ne!(values[0], values[2]);
    assert_eq!(render(&vm, &values[0]), "foobar");

    let (_, result) = run("var known = \"foobar\"; print \"foo\" + \"bar\"; print known;");
    let values = match result {
        Result::Success(values) => values,
        other => panic!("unexpected result {:?}", other),
    };
    assert_eq!(values[0], values[1]);
}

#[test]
fn string_plus_number_is_an_error() {
    assert_eq!(runtime_error("print \"a\" + 1;"), "Operands must be numbers");
    assert_eq!(runtime_error("print 1 + \"a\";"), "Operands must be two strings");
}

#[test]
fn globals_round_trip() {
    assert_eq!(printed("var x = 10; print x;"), vec!["10".to_string()]);
    assert_eq!(
        printed("var x = 10; print x; x = 20; print x;"),
        vec!["10".to_string(), "20".to_string()]
    );
}

#[test]
fn globals_persist_across_interpretations() {
    let (mut vm, status) = run_source("var x = 10;");
    assert_eq!(drive(&mut vm, status), Result::Success(vec![]));
    let status = vm.interpret("x = x + 1; print x;");
    assert_eq!(drive(&mut vm, status), Result::Success(vec![number(11.0)]));
}

#[test]
fn declaration_without_initialiser_binds_nil() {
    assert_eq!(printed("var x; print x;"), vec!["nil".to_string()]);
}

#[test]
fn assignment_is_an_expression_and_defines_when_unbound() {
    assert_eq!(printed("print y = 4;"), vec!["4".to_string()]);
    assert_eq!(printed("z = 5; print z;"), vec!["5".to_string()]);
}

#[test]
fn reading_an_unset_identifier_fails() {
    let message = runtime_error("print y;");
    assert_eq!(message, "undefined global variable");
    assert!(message.contains("undefined global variable"));
}

#[test]
fn an_unbound_read_in_hand_made_bytecode() {
    let mut interner = Interner::new();
    let y = interner.intern_string("y".as_bytes().to_vec());
    let mut chunk = Chunk::new();
    let index = chunk.add_constant(ValueType::Identifier(y));
    chunk.write(VectorType::Code(OpCode::OpGetGlobal));
    chunk.write(VectorType::Constant(index));
    chunk.write(VectorType::Code(OpCode::OpPrint));
    chunk.write(VectorType::Code(OpCode::OpReturn));
    let mut vm = VM::init(chunk, interner);
    match vm.run() {
        Status::Finished(Result::RuntimeErr(message)) => {
            assert!(message.contains("undefined global variable"))
        }
        other => panic!("unexpected status {:?}", other),
    }
    assert!(vm.outputs().is_empty());
    assert_eq!(vm.global(y), None);
}

#[test]
fn results_read_as_text() {
    assert_eq!(Result::Success(vec![ValueType::Nil]).text(), "Ok");
    assert_eq!(
        Result::CompileErr("Expect expression at offset 6".to_string()).text(),
        "Compile error : Expect expression at offset 6"
    );
    assert_eq!(
        Result::RuntimeErr("undefined global variable".to_string()).text(),
        "Runtime error : undefined global variable"
    );
    assert_eq!(run("print y;").1.text(), "Runtime error : undefined global variable");
}

#[test]
fn output_before_a_fault_is_kept() {
    let (vm, result) = run("print 1; print y;");
    assert_eq!(result, Result::RuntimeErr("undefined global variable".to_string()));
    assert_eq!(vm.outputs(), &vec![number(1.0)]);
}

#[test]
fn negation_of_nil_and_false_is_true() {
    assert_eq!(printed("print !nil;"), vec!["true".to_string()]);
    assert_eq!(printed("print !false;"), vec!["true".to_string()]);
}

#[test]
fn numbers_and_strings_are_truthy() {
    assert_eq!(printed("print !0;"), vec!["false".to_string()]);
    assert_eq!(printed("print !\"\";"), vec!["false".to_string()]);
    assert_eq!(printed("print !true;"), vec!["false".to_string()]);
    assert_eq!(printed("print !!nil;"), vec!["false".to_string()]);
}

#[test]
fn equality_across_variants() {
    assert_eq!(printed("print 1 == 1;"), vec!["true".to_string()]);
    assert_eq!(printed("print 1 == 2;"), vec!["false".to_string()]);
    assert_eq!(printed("print nil == nil;"), vec!["true".to_string()]);
    assert_eq!(printed("print nil == false;"), vec!["false".to_string()]);
    assert_eq!(printed("print \"a\" == \"a\";"), vec!["true".to_string()]);
    assert_eq!(printed("print \"a\" == \"b\";"), vec!["false".to_string()]);
    assert_eq!(printed("print 1 == \"1\";"), vec!["false".to_string()]);
    assert_eq!(printed("print 0 == -0;"), vec!["true".to_string()]);
}

#[test]
fn comparison_of_numbers() {
    assert_eq!(printed("print 1 < 2;"), vec!["true".to_string()]);
    assert_eq!(printed("print 2 < 1;"), vec!["false".to_string()]);
    assert_eq!(printed("print 2 > 1;"), vec!["true".to_string()]);
    assert_eq!(printed("print -1 > 1;"), vec!["false".to_string()]);
    assert_eq!(printed("print 1 + 1 < 3 == true;"), vec!["true".to_string()]);
}

#[test]
fn comparison_of_other_values_is_an_error() {
    assert_eq!(runtime_error("print nil < 1;"), "Operands must be numbers");
    assert_eq!(runtime_error("print true > false;"), "Operands must be numbers");
    assert_eq!(runtime_error("print -nil;"), "Operand must be a number");
    assert_eq!(runtime_error("print true * 2;"), "Operands must be numbers");
}

#[test]
fn calling_an_undefined_function_fails() {
    let message = runtime_error("foo();");
    assert_eq!(message, "Invalid function");
}

#[test]
fn calling_a_method_on_a_number_fails() {
    assert_eq!(runtime_error("var x = 1; x.relu();"), "Invalid function");
}

#[test]
fn comments_and_blank_lines_are_skipped() {
    assert_eq!(
        printed("// a comment\nprint 1; // another\n\n\tprint 2;\r\n// the end"),
        vec!["1".to_string(), "2".to_string()]
    );
}

#[test]
fn empty_source_prints_nothing() {
    assert_eq!(run("").1, Result::Success(vec![]));
    assert_eq!(run("   // nothing\n").1, Result::Success(vec![]));
}

#[test]
fn errors_of_the_compiler_carry_the_position() {
    assert_eq!(
        refusal("print 1 +;"),
        CompileError { kind: ErrorKind::ExpectExpression, position: 9 }
    );
    assert_eq!(
        refusal("print 1"),
        CompileError { kind: ErrorKind::ExpectSemicolon, position: 7 }
    );
    assert_eq!(
        refusal("var 1 = 2;"),
        CompileError { kind: ErrorKind::ExpectVariableName, position: 4 }
    );
    assert_eq!(
        refusal("print \"abc;"),
        CompileError { kind: ErrorKind::UnterminatedString, position: 6 }
    );
    assert_eq!(
        refusal("print \"abc\ndef\";"),
        CompileError { kind: ErrorKind::UnterminatedString, position: 6 }
    );
    assert_eq!(
        refusal("print @;"),
        CompileError { kind: ErrorKind::UnexpectedCharacter, position: 6 }
    );
    assert_eq!(
        refusal("print (1 + 2;"),
        CompileError { kind: ErrorKind::ExpectRightParen, position: 12 }
    );
    assert_eq!(
        refusal("x.;"),
        CompileError { kind: ErrorKind::ExpectMethodName, position: 2 }
    );
    assert_eq!(
        refusal("x.relu;"),
        CompileError { kind: ErrorKind::ExpectLeftParen, position: 6 }
    );
    assert_eq!(
        refusal("x.relu(1);"),
        CompileError { kind: ErrorKind::ExpectRightParen, position: 7 }
    );
    assert_eq!(
        refusal("1 = 2;"),
        CompileError { kind: ErrorKind::ExpectSemicolon, position: 2 }
    );
}

#[test]
fn error_texts_name_the_offset() {
    let e = CompileError { kind: ErrorKind::ExpectSemicolon, position: 0 };
    assert_eq!(e.message(), "Expect ';' after statement");
    assert_eq!(e.text(), "Expect ';' after statement at offset 0");
    let e = CompileError { kind: ErrorKind::UnterminatedString, position: 1234567890 };
    assert_eq!(e.text(), "Unterminated string at offset 1234567890");
    let e = CompileError { kind: ErrorKind::NestedTooDeep, position: 10 };
    assert_eq!(e.text(), "Expression nested too deeply at offset 10");
    let (_, status) = run_source("print (1;");
    assert_eq!(
        status,
        Status::Finished(Result::CompileErr("Expect ')' at offset 8".to_string()))
    );
}

#[test]
fn a_source_that_does_not_compile_runs_nothing() {
    let (mut vm, status) = run_source("var x = 1;");
    assert_eq!(drive(&mut vm, status), Result::Success(vec![]));
    let status = vm.interpret("x = 2; print ;");
    assert_eq!(status, Status::Finished(Result::CompileErr("Expect expression at offset 13".to_string())));
    let status = vm.interpret("print x;");
    assert_eq!(drive(&mut vm, status), Result::Success(vec![number(1.0)]));
}

#[test]
fn bytecode_of_a_print_statement() {
    let mut interner = Interner::new();
    let chunk = compile("print 1 + 2;", &mut interner).unwrap();
    assert_eq!(
        chunk.code,
        vec![
            VectorType::Code(OpCode::OpConstant),
            VectorType::Constant(0),
            VectorType::Code(OpCode::OpConstant),
            VectorType::Constant(1),
            VectorType::Code(OpCode::OpAdd),
            VectorType::Code(OpCode::OpPrint),
            VectorType::Code(OpCode::OpReturn),
        ]
    );
    assert_eq!(chunk.constants, vec![number(1.0), number(2.0)]);
}

#[test]
fn bytecode_of_declaration_assignment_and_call() {
    let mut interner = Interner::new();
    let chunk = compile("var x = nil; x = true; x.relu(); f();", &mut interner).unwrap();
    let x = StringHandle(0);
    let relu = StringHandle(1);
    let f = StringHandle(2);
    assert_eq!(interner.lookup(x).as_slice(), "x".as_bytes());
    assert_eq!(interner.lookup(relu).as_slice(), "relu".as_bytes());
    assert_eq!(interner.lookup(f).as_slice(), "f".as_bytes());
    assert_eq!(
        chunk.code,
        vec![
            VectorType::Code(OpCode::OpNil),
            VectorType::Code(OpCode::OpDefineGlobal),
            VectorType::Constant(0),
            VectorType::Code(OpCode::OpTrue),
            VectorType::Code(OpCode::OpSetGlobal),
            VectorType::Constant(1),
            VectorType::Code(OpCode::OpPop),
            VectorType::Code(OpCode::OpGetGlobal),
            VectorType::Constant(2),
            VectorType::Code(OpCode::OpCall),
            VectorType::Constant(3),
            VectorType::Code(OpCode::OpPop),
            VectorType::Code(OpCode::OpNil),
            VectorType::Code(OpCode::OpCall),
            VectorType::Constant(4),
            VectorType::Code(OpCode::OpPop),
            VectorType::Code(OpCode::OpReturn),
        ]
    );
    assert_eq!(
        chunk.constants,
        vec![
            ValueType::Identifier(x),
            ValueType::Identifier(x),
            ValueType::Identifier(x),
            ValueType::Identifier(relu),
            ValueType::Identifier(f),
        ]
    );
}

#[test]
fn bytecode_of_a_backward_call() {
    let mut interner = Interner::new();
    let chunk = compile("r.backward(); backward();", &mut interner).unwrap();
    assert_eq!(
        chunk.code,
        vec![
            VectorType::Code(OpCode::OpGetGlobal),
            VectorType::Constant(0),
            VectorType::Code(OpCode::OpCall),
            VectorType::Constant(1),
            VectorType::Code(OpCode::OpNil),
            VectorType::Code(OpCode::OpPop),
            VectorType::Code(OpCode::OpNil),
            VectorType::Code(OpCode::OpCall),
            VectorType::Constant(2),
            VectorType::Code(OpCode::OpNil),
            VectorType::Code(OpCode::OpPop),
            VectorType::Code(OpCode::OpReturn),
        ]
    );
    assert_eq!(runtime_error("backward();"), "Invalid function");
}

#[test]
fn every_constant_reference_of_a_compiled_chunk_is_valid() {
    let mut interner = Interner::new();
    let chunk = compile(
        "var a = 1.25; var b = \"s\"; print a + 2 * (3 - a) ^ 2 / 4; print b + b; a.grad();",
        &mut interner,
    )
    .unwrap();
    let mut at = 0;
    while at < chunk.code.len() {
        match chunk.code[at] {
            VectorType::Code(
                OpCode::OpConstant
                | OpCode::OpDefineGlobal
                | OpCode::OpGetGlobal
                | OpCode::OpSetGlobal
                | OpCode::OpCall,
            ) => {
                match chunk.code[at + 1] {
                    VectorType::Constant(k) => assert!(k < chunk.constants.len()),
                    other => panic!("no operand: {:?}", other),
                }
                at += 2;
            }
            VectorType::Code(_) => at += 1,
            VectorType::Constant(_) => panic!("constant in instruction position"),
        }
    }
    assert_eq!(chunk.code[chunk.code.len() - 1], VectorType::Code(OpCode::OpReturn));
}

#[test]
fn stack_returns_to_zero_after_a_program() {
    let (vm, result) = run("var x = 1; x = x + 1; print x * (2 + 3); x;");
    assert_eq!(result, Result::Success(vec![number(10.0)]));
    assert_eq!(vm.depth(), 0);
}

#[test]
fn stack_overflow_is_a_runtime_error() {
    let mut chunk = Chunk::new();
    for _ in 0..257 {
        chunk.write(VectorType::Code(OpCode::OpNil));
    }
    chunk.write(VectorType::Code(OpCode::OpReturn));
    let mut vm = VM::init(chunk, Interner::new());
    let status = vm.run();
    assert_eq!(status, Status::Finished(Result::RuntimeErr("Stack overflow".to_string())));
    assert_eq!(vm.depth(), 256);
}

#[test]
fn stack_underflow_is_a_runtime_error() {
    for op in [
        OpCode::OpPop,
        OpCode::OpPrint,
        OpCode::OpNegate,
        OpCode::OpNot,
        OpCode::OpAdd,
        OpCode::OpSubtract,
        OpCode::OpEqualEqual,
        OpCode::OpLess,
    ] {
        let mut chunk = Chunk::new();
        chunk.write(VectorType::Code(op));
        chunk.write(VectorType::Code(OpCode::OpReturn));
        let mut vm = VM::init(chunk, Interner::new());
        assert_eq!(
            vm.run(),
            Status::Finished(Result::RuntimeErr("Stack underflow".to_string()))
        );
        assert_eq!(vm.depth(), 0);
    }
}

#[test]
fn malformed_chunks_are_runtime_errors() {
    let mut chunk = Chunk::new();
    chunk.write(VectorType::Code(OpCode::OpConstant));
    chunk.write(VectorType::Constant(3));
    let mut vm = VM::init(chunk, Interner::new());
    assert_eq!(
        vm.run(),
        Status::Finished(Result::RuntimeErr("Invalid constant index".to_string()))
    );

    let mut chunk = Chunk::new();
    chunk.write(VectorType::Code(OpCode::OpConstant));
    chunk.write(VectorType::Code(OpCode::OpReturn));
    let mut vm = VM::init(chunk, Interner::new());
    assert_eq!(
        vm.run(),
        Status::Finished(Result::RuntimeErr("Invalid constant index".to_string()))
    );

    let mut chunk = Chunk::new();
    chunk.write(VectorType::Constant(0));
    let mut vm = VM::init(chunk, Interner::new());
    assert_eq!(
        vm.run(),
        Status::Finished(Result::RuntimeErr("Expected an instruction".to_string()))
    );

    let mut chunk = Chunk::new();
    chunk.write(VectorType::Code(OpCode::OpNil));
    let mut vm = VM::init(chunk, Interner::new());
    assert_eq!(
        vm.run(),
        Status::Finished(Result::RuntimeErr("Unexpected end of code".to_string()))
    );

    let mut chunk = Chunk::new();
    let index = chunk.add_constant(ValueType::Nil);
    chunk.write(VectorType::Code(OpCode::OpGetGlobal));
    chunk.write(VectorType::Constant(index));
    let mut vm = VM::init(chunk, Interner::new());
    assert_eq!(
        vm.run(),
        Status::Finished(Result::RuntimeErr("Invalid global variable".to_string()))
    );
}

#[test]
fn the_machine_suspends_for_a_power_only() {
    let (mut vm, status) = run_source("print 1 + 2 * 3 - 8 / 4;");
    assert_eq!(status, Status::Finished(Result::Success(vec![number(5.0)])));
    assert!(!vm.is_suspended());

    let status = vm.interpret("print 1 + 2 ^ 10;");
    assert_eq!(
        status,
        Status::Suspended(Request {
            op: NumericOp::Power,
            lhs: 2.0f64.to_bits(),
            rhs: 10.0f64.to_bits()
        })
    );
    assert!(vm.is_suspended());
    assert_eq!(vm.depth(), 1);
    let status = vm.resume(1024.0f64.to_bits());
    assert_eq!(status, Status::Finished(Result::Success(vec![number(1025.0)])));
    assert!(!vm.is_suspended());
    assert_eq!(vm.depth(), 0);
}

#[test]
fn arithmetic_on_special_values() {
    assert_eq!(printed("print 1 / 0;"), vec!["inf".to_string()]);
    assert_eq!(printed("print -1 / 0;"), vec!["-inf".to_string()]);
    assert_eq!(printed("print 0 / 0;"), vec!["NaN".to_string()]);
    assert_eq!(printed("print 0 / 0 == 0 / 0;"), vec!["false".to_string()]);
    assert_eq!(printed("print 1 / 0 - 1 / 0;"), vec!["NaN".to_string()]);
    assert_eq!(printed("print 1 / 3;"), vec!["0.3333333333333333".to_string()]);
    assert_eq!(printed("print 0.1 * 3;"), vec!["0.30000000000000004".to_string()]);
    assert_eq!(printed("print 1 - 0.9;"), vec!["0.09999999999999998".to_string()]);
}

#[test]
fn resuming_an_idle_machine_is_an_error() {
    let (mut vm, status) = run_source("print 1;");
    assert_eq!(status, Status::Finished(Result::Success(vec![number(1.0)])));
    assert_eq!(
        vm.resume(0),
        Status::Finished(Result::RuntimeErr("No operation is pending".to_string()))
    );
}

#[test]
fn stack_primitives() {
    let mut chunk = Chunk::new();
    let index = chunk.add_constant(number(2.5));
    chunk.write(VectorType::Code(OpCode::OpConstant));
    chunk.write(VectorType::Constant(index));
    let mut vm = VM::init(chunk, Interner::new());
    assert_eq!(vm.read_byte(), VectorType::Code(OpCode::OpConstant));
    assert_eq!(vm.read_byte(), VectorType::Constant(0));
    assert_eq!(vm.read_constant(0), number(2.5));
    vm.push(ValueType::Nil);
    vm.push(ValueType::Boolean(true));
    vm.push(number(1.0));
    assert_eq!(vm.depth(), 3);
    assert_eq!(vm.peek(0), number(1.0));
    assert_eq!(vm.peek(2), ValueType::Nil);
    assert_eq!(vm.pop(), number(1.0));
    assert_eq!(vm.pop(), ValueType::Boolean(true));
    assert_eq!(vm.depth(), 1);
}

#[test]
fn concatenate_on_the_stack() {
    let mut interner = Interner::new();
    let foo = interner.intern_string("foo".as_bytes().to_vec());
    let bar = interner.intern_string("bar".as_bytes().to_vec());
    let mut vm = VM::init(Chunk::new(), interner);
    vm.push(ValueType::String(foo));
    vm.push(ValueType::String(bar));
    assert!(vm.concatenate());
    assert_eq!(vm.depth(), 1);
    match vm.pop() {
        ValueType::String(h) => {
            assert_ne!(h, foo);
            assert_ne!(h, bar);
            assert_eq!(vm.interner().lookup(h).as_slice(), "foobar".as_bytes());
        }
        other => panic!("not a string: {:?}", other),
    }
    vm.push(ValueType::String(foo));
    vm.push(number(1.0));
    assert!(!vm.concatenate());
    assert_eq!(vm.depth(), 0);
}

#[test]
fn values_render_as_text() {
    let mut interner = Interner::new();
    let text = interner.intern_string("h\u{e9}llo".as_bytes().to_vec());
    let vm = VM::init(Chunk::new(), interner);
    assert_eq!(vm.render(ValueType::Nil), Some("nil".as_bytes().to_vec()));
    assert_eq!(vm.render(ValueType::Boolean(true)), Some("true".as_bytes().to_vec()));
    assert_eq!(vm.render(ValueType::Boolean(false)), Some("false".as_bytes().to_vec()));
    assert_eq!(vm.render(ValueType::String(text)), Some("h\u{e9}llo".as_bytes().to_vec()));
    assert_eq!(vm.render(ValueType::Identifier(text)), Some("h\u{e9}llo".as_bytes().to_vec()));
    assert_eq!(vm.render(ValueType::String(StringHandle(7))), None);
    assert_eq!(vm.render(number(1.0)), None);
}

#[test]
fn string_literals_keep_their_bytes() {
    assert_eq!(printed("print \"\";"), vec!["".to_string()]);
    assert_eq!(printed("print \"a // b\";"), vec!["a // b".to_string()]);
    assert_eq!(printed("print \"h\u{e9}\" + \"!\";"), vec!["h\u{e9}!".to_string()]);
    assert_eq!(printed("print \"a\\\"b\";"), vec!["a\\\"b".to_string()]);
}

#[test]
fn host_bindings() {
    let mut vm = VM::init(Chunk::new(), Interner::new());
    vm.define("answer".as_bytes().to_vec(), number(42.0));
    assert_eq!(vm.interner().len(), 1);
    assert_eq!(vm.global(StringHandle(0)), Some(number(42.0)));
    assert_eq!(vm.global(StringHandle(1)), None);
    let status = vm.interpret("print answer; answer = nil; print answer;");
    assert_eq!(drive(&mut vm, status), Result::Success(vec![number(42.0), ValueType::Nil]));
    assert_eq!(vm.global(StringHandle(0)), Some(ValueType::Nil));
    assert_eq!(vm.chunk().code.len(), 11);
}

#[test]
fn define_global_with_another_operand_binds_nothing() {
    let mut chunk = Chunk::new();
    let index = chunk.add_constant(number(1.0));
    chunk.write(VectorType::Code(OpCode::OpTrue));
    chunk.write(VectorType::Code(OpCode::OpDefineGlobal));
    chunk.write(VectorType::Constant(index));
    chunk.write(VectorType::Code(OpCode::OpReturn));
    let mut vm = VM::init(chunk, Interner::new());
    assert_eq!(vm.run(), Status::Finished(Result::Success(vec![])));
    assert_eq!(vm.depth(), 0);
    assert_eq!(vm.global(StringHandle(0)), None);
}

#[test]
fn set_global_keeps_the_value_on_the_stack() {
    let mut interner = Interner::new();
    let name = interner.intern_string("x".as_bytes().to_vec());
    let mut chunk = Chunk::new();
    let index = chunk.add_constant(ValueType::Identifier(name));
    chunk.write(VectorType::Code(OpCode::OpTrue));
    chunk.write(VectorType::Code(OpCode::OpSetGlobal));
    chunk.write(VectorType::Constant(index));
    chunk.write(VectorType::Code(OpCode::OpReturn));
    let mut vm = VM::init(chunk, interner);
    assert_eq!(vm.run(), Status::Finished(Result::Success(vec![])));
    assert_eq!(vm.depth(), 1);
    assert_eq!(vm.peek(0), ValueType::Boolean(true));
    assert_eq!(vm.global(name), Some(ValueType::Boolean(true)));
}

#[test]
fn running_again_forgets_what_was_printed() {
    let mut chunk = Chunk::new();
    chunk.write(VectorType::Code(OpCode::OpNil));
    chunk.write(VectorType::Code(OpCode::OpPrint));
    chunk.write(VectorType::Code(OpCode::OpReturn));
    chunk.write(VectorType::Code(OpCode::OpTrue));
    chunk.write(VectorType::Code(OpCode::OpPrint));
    chunk.write(VectorType::Code(OpCode::OpReturn));
    let mut vm = VM::init(chunk, Interner::new());
    assert_eq!(vm.run(), Status::Finished(Result::Success(vec![ValueType::Nil])));
    assert_eq!(vm.run(), Status::Finished(Result::Success(vec![ValueType::Boolean(true)])));
    assert_eq!(
        vm.run(),
        Status::Finished(Result::RuntimeErr("Unexpected end of code".to_string()))
    );
}

#[test]
fn depth_follows_the_balance_of_the_program() {
    // Three pushes, one binary instruction, one pop: two values remain.
    let mut chunk = Chunk::new();
    let one = chunk.add_constant(number(1.0));
    chunk.write(VectorType::Code(OpCode::OpNil));
    chunk.write(VectorType::Code(OpCode::OpConstant));
    chunk.write(VectorType::Constant(one));
    chunk.write(VectorType::Code(OpCode::OpConstant));
    chunk.write(VectorType::Constant(one));
    chunk.write(VectorType::Code(OpCode::OpEqualEqual));
    chunk.write(VectorType::Code(OpCode::OpTrue));
    chunk.write(VectorType::Code(OpCode::OpPop));
    chunk.write(VectorType::Code(OpCode::OpReturn));
    let mut vm = VM::init(chunk, Interner::new());
    assert_eq!(vm.run(), Status::Finished(Result::Success(vec![])));
    assert_eq!(vm.depth(), 2);
    assert_eq!(vm.peek(0), ValueType::Boolean(true));
    assert_eq!(vm.peek(1), ValueType::Nil);
}

#[test]
fn nesting_is_limited() {
    let deep = format!("print {}1{};", "(".repeat(255), ")".repeat(255));
    assert_eq!(printed(&deep), vec!["1".to_string()]);
    let deeper = format!("print {}1{};", "(".repeat(256), ")".repeat(256));
    assert_eq!(
        refusal(&deeper),
        CompileError { kind: ErrorKind::NestedTooDeep, position: 6 + 256 }
    );
    let signs = format!("print {}1;", "-".repeat(256));
    assert_eq!(
        refusal(&signs),
        CompileError { kind: ErrorKind::NestedTooDeep, position: 6 + 256 }
    );
    let powers = format!("print 1{};", " ^ 1".repeat(300));
    assert_eq!(refusal(&powers).kind, ErrorKind::NestedTooDeep);
    let abyss = format!("print {}1;", "(".repeat(200_000));
    assert_eq!(refusal(&abyss).kind, ErrorKind::NestedTooDeep);
}

#[test]
fn long_chains_of_operators_need_no_nesting() {
    let sum = format!("print 1{};", " + 1".repeat(5_000));
    assert_eq!(printed(&sum), vec!["5001".to_string()]);
    let calls = format!("x{};", ".relu()".repeat(5_000));
    let mut interner = Interner::new();
    assert!(compile(&calls, &mut interner).is_ok());
}
