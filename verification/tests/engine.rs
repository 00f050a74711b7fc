use tensor_vm::interner::Interner;
use tensor_vm::decimal::{at_most, power_of_ten, reversed, times};
use tensor_vm::literal::{convert, parse_number};
use tensor_vm::number::{
    number_equal, number_greater, number_is_nan, number_less, number_negate, number_relu,
    number_relu_slope, NumericOp, Request,
};
use tensor_vm::scanner::{Scanner, Token, TokenType};
use tensor_vm::tensor::{shape_matches, Graph, Operation};
use tensor_vm::value::{StringHandle, TensorRef, ValueType};
use tensor_vm::vm::{method_of, run_source, Method, Result, Status, VM};

fn compute(request: Request) -> u64 {
    assert_eq!(request.op, NumericOp::Power);
    f64::from_bits(request.lhs).powf(f64::from_bits(request.rhs)).to_bits()
}

fn finish(vm: &mut VM, first: Status) -> Result {
    let mut status = first;
    loop {
        match status {
            Status::Suspended(request) => status = vm.resume(compute(request)),
            Status::Finished(result) => return result,
        }
    }
}

fn bits(values: &[f64]) -> Vec<u64> {
    values.iter().map(|v| v.to_bits()).collect()
}

fn floats(values: &[u64]) -> Vec<f64> {
    values.iter().map(|v| f64::from_bits(*v)).collect()
}

fn backward(graph: &mut Graph, root: TensorRef) {
    assert!(graph.backward(root));
}

fn tokens(source: &str) -> Vec<(TokenType, usize, usize)> {
    let mut scanner = Scanner::new(source.as_bytes().to_vec());
    let mut all = Vec::new();
    loop {
        let token = scanner.next_token();
        all.push((token.kind, token.start, token.length));
        if token.kind == TokenType::Eof {
            return all;
        }
    }
}

fn literal(text: &str) -> u64 {
    let source = text.as_bytes().to_vec();
    parse_number(&source, 0, source.len())
}

fn decimal(text: &str) -> Vec<u8> {
    text.bytes().rev().map(|c| c - 48).collect()
}

#[test]
fn interning_twice_gives_the_same_handle() {
    let mut interner = Interner::new();
    let a = interner.intern_string("alpha".as_bytes().to_vec());
    let b = interner.intern_string("alpha".as_bytes().to_vec());
    assert_eq!(a, b);
    assert_eq!(interner.len(), 1);
}

#[test]
fn interning_distinct_texts_gives_distinct_handles() {
    let mut interner = Interner::new();
    let a = interner.intern_string("alpha".as_bytes().to_vec());
    let b = interner.intern_string("beta".as_bytes().to_vec());
    let e = interner.intern_string(Vec::new());
    assert_ne!(a, b);
    assert_ne!(a, e);
    assert_ne!(b, e);
    assert_eq!(a, StringHandle(0));
    assert_eq!(b, StringHandle(1));
    assert_eq!(interner.lookup(a).as_slice(), "alpha".as_bytes());
    assert_eq!(interner.lookup(b).as_slice(), "beta".as_bytes());
    assert_eq!(interner.lookup(e).len(), 0);
    assert_eq!(interner.intern_string("alpha".as_bytes().to_vec()), a);
    assert_eq!(interner.len(), 3);
}

#[test]
fn scanner_classifies_tokens() {
    assert_eq!(
        tokens("var x1 = (1.5 + _y) * 2 ^ 3 / 4 - 5; print !x == nil; a.b() < true > false"),
        vec![
            (TokenType::Var, 0, 3),
            (TokenType::Identifier, 4, 2),
            (TokenType::Equal, 7, 1),
            (TokenType::LeftParen, 9, 1),
            (TokenType::Number, 10, 3),
            (TokenType::Plus, 14, 1),
            (TokenType::Identifier, 16, 2),
            (TokenType::RightParen, 18, 1),
            (TokenType::Star, 20, 1),
            (TokenType::Number, 22, 1),
            (TokenType::Caret, 24, 1),
            (TokenType::Number, 26, 1),
            (TokenType::Slash, 28, 1),
            (TokenType::Number, 30, 1),
            (TokenType::Minus, 32, 1),
            (TokenType::Number, 34, 1),
            (TokenType::Semicolon, 35, 1),
            (TokenType::Print, 37, 5),
            (TokenType::Bang, 43, 1),
            (TokenType::Identifier, 44, 1),
            (TokenType::EqualEqual, 46, 2),
            (TokenType::Nil, 49, 3),
            (TokenType::Semicolon, 52, 1),
            (TokenType::Identifier, 54, 1),
            (TokenType::Dot, 55, 1),
            (TokenType::Identifier, 56, 1),
            (TokenType::LeftParen, 57, 1),
            (TokenType::RightParen, 58, 1),
            (TokenType::Less, 60, 1),
            (TokenType::True, 62, 4),
            (TokenType::Greater, 67, 1),
            (TokenType::False, 69, 5),
            (TokenType::Eof, 74, 0),
        ]
    );
}

#[test]
fn scanner_keeps_returning_eof() {
    let mut scanner = Scanner::new("x".as_bytes().to_vec());
    assert_eq!(scanner.next_token().kind, TokenType::Identifier);
    let end = Token { kind: TokenType::Eof, start: 1, length: 0 };
    assert_eq!(scanner.next_token(), end);
    assert_eq!(scanner.next_token(), end);
    assert_eq!(scanner.next_token(), end);
}

#[test]
fn scanner_numbers_take_one_point() {
    assert_eq!(tokens("12.5"), vec![(TokenType::Number, 0, 4), (TokenType::Eof, 4, 0)]);
    assert_eq!(tokens("12."), vec![(TokenType::Number, 0, 2), (TokenType::Dot, 2, 1), (TokenType::Eof, 3, 0)]);
    assert_eq!(
        tokens("1.2.3"),
        vec![(TokenType::Number, 0, 3), (TokenType::Dot, 3, 1), (TokenType::Number, 4, 1), (TokenType::Eof, 5, 0)]
    );
    assert_eq!(tokens(".5"), vec![(TokenType::Dot, 0, 1), (TokenType::Number, 1, 1), (TokenType::Eof, 2, 0)]);
}

#[test]
fn scanner_strings_and_their_ends() {
    assert_eq!(tokens("\"\""), vec![(TokenType::String, 0, 2), (TokenType::Eof, 2, 0)]);
    assert_eq!(tokens("\"a b\" x"), vec![(TokenType::String, 0, 5), (TokenType::Identifier, 6, 1), (TokenType::Eof, 7, 0)]);
    assert_eq!(tokens("\"a\\\"b\""), vec![(TokenType::String, 0, 6), (TokenType::Eof, 6, 0)]);
    assert_eq!(tokens("\"a\\\nb\""), vec![(TokenType::String, 0, 6), (TokenType::Eof, 6, 0)]);
    assert_eq!(tokens("\"abc"), vec![(TokenType::UnterminatedString, 0, 4), (TokenType::Eof, 4, 0)]);
    assert_eq!(tokens("\"a\nb\""), vec![(TokenType::UnterminatedString, 0, 5), (TokenType::Eof, 5, 0)]);
    assert_eq!(tokens("\"a\\"), vec![(TokenType::UnterminatedString, 0, 3), (TokenType::Eof, 3, 0)]);
}

#[test]
fn scanner_skips_comments_and_reports_strangers() {
    assert_eq!(tokens("// only a comment"), vec![(TokenType::Eof, 17, 0)]);
    assert_eq!(tokens("a // b\nc"), vec![(TokenType::Identifier, 0, 1), (TokenType::Identifier, 7, 1), (TokenType::Eof, 8, 0)]);
    assert_eq!(tokens("a / b"), vec![(TokenType::Identifier, 0, 1), (TokenType::Slash, 2, 1), (TokenType::Identifier, 4, 1), (TokenType::Eof, 5, 0)]);
    assert_eq!(tokens("#"), vec![(TokenType::UnexpectedCharacter, 0, 1), (TokenType::Eof, 1, 0)]);
    assert_eq!(tokens("varx nill"), vec![(TokenType::Identifier, 0, 4), (TokenType::Identifier, 5, 4), (TokenType::Eof, 9, 0)]);
}

#[test]
fn literals_convert_like_the_standard_parser() {
    let long_fraction = format!("0.{}1", "0".repeat(330));
    let smallest = format!("0.{}49406564584124654", "0".repeat(323));
    let below_smallest = format!("0.{}2", "0".repeat(324));
    let half_smallest = format!("0.{}24703282292062327", "0".repeat(323));
    let huge = format!("1{}", "0".repeat(308));
    let beyond = format!("1{}", "0".repeat(309));
    let largest = format!("17976931348623157{}", "0".repeat(292));
    let past_largest = format!("17976931348623159{}", "0".repeat(292));
    let min_normal = format!("0.{}22250738585072014", "0".repeat(307));
    let below_min_normal = format!("0.{}22250738585072011", "0".repeat(307));
    for text in [
        "0", "1", "2", "3", "10", "1024", "0.5", "1.5", "0.1", "0.2", "0.3", "3.14159",
        "123456789.123456789", "9007199254740992", "9007199254740993", "9007199254740995",
        "18446744073709551615", "18446744073709551616", "0.0000000000000000001",
        "1.0000000000000000001", "4.9", "2.2250738585072014", "17976931348623157", "0.000",
        "000123", "1.10", "0.3333333333333333333", "8.5", "255.255", "1844674407370955.1615",
        "3.14159265358979323846264338327950288419716939937510",
        "2.71828182845904523536028747135266249775724709369995",
        "0.1000000000000000055511151231257827021181583404541015625",
        "0.10000000000000000555111512312578270211815834045410156250000000001",
        "0.1000000000000000124900090270330610871315002441406250",
        "0.10000000000000001249000902703306108713150024414062500000001",
        "9007199254740993.0000000000000000000000000000000000000001",
        "9007199254740992.9999999999999999999999999999999999999999",
        "100000000000000000000000000000",
        "123456789012345678901234567890.123456789012345678901234567890",
        long_fraction.as_str(),
        smallest.as_str(),
        below_smallest.as_str(),
        half_smallest.as_str(),
        huge.as_str(),
        beyond.as_str(),
        largest.as_str(),
        past_largest.as_str(),
        min_normal.as_str(),
        below_min_normal.as_str(),
    ] {
        let expected: f64 = text.parse().unwrap();
        assert_eq!(literal(text), expected.to_bits(), "literal {}", text);
    }
}

#[test]
fn literals_have_exact_patterns() {
    assert_eq!(literal("1"), 0x3ff0_0000_0000_0000);
    assert_eq!(literal("2"), 0x4000_0000_0000_0000);
    assert_eq!(literal("0.5"), 0x3fe0_0000_0000_0000);
    assert_eq!(literal("0.1"), 0x3fb9_9999_9999_999a);
    assert_eq!(literal("0"), 0);
    assert_eq!(literal("0.0"), 0);
    assert_eq!(literal("9007199254740993"), 0x4340_0000_0000_0000);
    assert_eq!(literal(&format!("2{}", "0".repeat(308))), 0x7ff0_0000_0000_0000);
    assert_eq!(literal(&format!("0.{}5", "0".repeat(323))), 1);
    assert_eq!(literal(&format!("0.{}1", "0".repeat(400))), 0);
}

#[test]
fn decimal_products_and_comparisons() {
    assert_eq!(times(&decimal("123"), 45), decimal("5535"));
    assert_eq!(times(&decimal("999"), u64::MAX), decimal("18428297329635842063385"));
    assert_eq!(times(&decimal("0120"), 0), vec![0, 0, 0, 0]);
    assert_eq!(times(&decimal("5"), 1), decimal("5"));
    assert_eq!(power_of_ten(0), decimal("1"));
    assert_eq!(power_of_ten(3), decimal("1000"));
    assert_eq!(reversed(&vec![1, 2, 3]), decimal("123"));
    assert!(at_most(&decimal("99"), &decimal("100")));
    assert!(!at_most(&decimal("100"), &decimal("99")));
    assert!(at_most(&decimal("100"), &decimal("100")));
    assert!(at_most(&decimal("0099"), &decimal("100")));
    assert!(at_most(&decimal("100"), &decimal("000100")));
    assert!(!at_most(&decimal("000101"), &decimal("100")));
    assert!(at_most(&Vec::new(), &decimal("0")));
    assert!(at_most(&decimal("0"), &Vec::new()));
    assert!(!at_most(&decimal("1"), &Vec::new()));
}

#[test]
fn ratios_round_to_nearest_even() {
    assert_eq!(convert(&decimal("1"), &decimal("3")), (1.0f64 / 3.0).to_bits());
    assert_eq!(convert(&decimal("2"), &decimal("3")), (2.0f64 / 3.0).to_bits());
    assert_eq!(convert(&decimal("1"), &decimal("10")), 0.1f64.to_bits());
    assert_eq!(convert(&decimal("7"), &decimal("7")), 1.0f64.to_bits());
    assert_eq!(convert(&decimal("0"), &decimal("7")), 0);
    assert_eq!(
        convert(&decimal("9007199254740993"), &decimal("1")),
        9007199254740992.0f64.to_bits()
    );
    assert_eq!(
        convert(&decimal("9007199254740995"), &decimal("1")),
        9007199254740996.0f64.to_bits()
    );
    assert_eq!(
        convert(&decimal("1"), &decimal("18446744073709551615")),
        (1.0f64 / 18446744073709551615.0).to_bits()
    );
}

#[test]
fn number_relations_agree_with_the_hardware() {
    let samples = [
        0.0f64, -0.0, 1.0, -1.0, 2.5, -2.5, f64::MIN_POSITIVE, 5e-324, -5e-324, f64::MAX,
        f64::MIN, f64::INFINITY, f64::NEG_INFINITY, f64::NAN, -f64::NAN,
    ];
    for a in samples {
        assert_eq!(number_is_nan(a.to_bits()), a.is_nan());
        assert_eq!(number_negate(a.to_bits()), (-a).to_bits());
        let rectified = if a > 0.0 { a } else { 0.0 };
        assert_eq!(number_relu(a.to_bits()), rectified.to_bits());
        let slope: f64 = if a > 0.0 { 1.0 } else { 0.0 };
        assert_eq!(number_relu_slope(a.to_bits()), slope.to_bits());
        for b in samples {
            assert_eq!(number_equal(a.to_bits(), b.to_bits()), a == b, "{} == {}", a, b);
            assert_eq!(number_less(a.to_bits(), b.to_bits()), a < b, "{} < {}", a, b);
            assert_eq!(number_greater(a.to_bits(), b.to_bits()), a > b, "{} > {}", a, b);
        }
    }
}

#[test]
fn values_compare_by_variant_and_payload() {
    let one = ValueType::Number(1.0f64.to_bits());
    let nan = ValueType::Number(f64::NAN.to_bits());
    assert!(one.equals(&one));
    assert!(!nan.equals(&nan));
    assert!(ValueType::Number(0.0f64.to_bits()).equals(&ValueType::Number((-0.0f64).to_bits())));
    assert!(!ValueType::String(StringHandle(1)).equals(&ValueType::Identifier(StringHandle(1))));
    assert!(ValueType::Tensor(TensorRef(2)).equals(&ValueType::Tensor(TensorRef(2))));
    assert!(!ValueType::Tensor(TensorRef(2)).equals(&ValueType::Tensor(TensorRef(3))));
    assert!(!ValueType::Nil.equals(&ValueType::Boolean(false)));
    assert_eq!(ValueType::Nil.not(), ValueType::Boolean(true));
    assert_eq!(ValueType::Boolean(false).not(), ValueType::Boolean(true));
    assert_eq!(one.not(), ValueType::Boolean(false));
    assert!(!ValueType::Nil.is_truthy());
    assert!(ValueType::String(StringHandle(0)).is_truthy());
}

#[test]
fn shapes_must_fit_the_data() {
    assert!(shape_matches(&vec![2, 3], 6));
    assert!(!shape_matches(&vec![2, 3], 5));
    assert!(shape_matches(&vec![], 1));
    assert!(!shape_matches(&vec![], 0));
    assert!(shape_matches(&vec![4, 0, 7], 0));
    assert!(shape_matches(&vec![usize::MAX, usize::MAX, 0], 0));
    assert!(!shape_matches(&vec![usize::MAX, usize::MAX], 1));
    let mut graph = Graph::new();
    assert_eq!(graph.tensor(bits(&[1.0, 2.0]), vec![3]), None);
    assert_eq!(graph.len(), 0);
    assert_eq!(graph.tensor(bits(&[1.0, 2.0]), vec![2]), Some(TensorRef(0)));
    assert_eq!(graph.tensor(bits(&[1.0, 2.0, 3.0, 4.0]), vec![2, 2]), Some(TensorRef(1)));
}

#[test]
fn relu_and_its_gradient() {
    let mut graph = Graph::new();
    let t = graph.tensor(bits(&[-1.0, 2.0]), vec![2]).unwrap();
    let r = graph.relu(t).unwrap();
    assert_eq!(floats(&graph.get(r).unwrap().data), vec![0.0, 2.0]);
    assert_eq!(graph.get(r).unwrap().shape, vec![2]);
    assert_eq!(graph.get(r).unwrap().parents, vec![t.0]);
    assert_eq!(graph.get(r).unwrap().op, Operation::Relu);
    backward(&mut graph, r);
    let g = graph.gradient(t).unwrap();
    assert_eq!(floats(&graph.get(g).unwrap().data), vec![0.0, 1.0]);
    assert_eq!(graph.get(g).unwrap().shape, vec![2]);
    let root = graph.gradient(r).unwrap();
    assert_eq!(floats(&graph.get(root).unwrap().data), vec![1.0, 1.0]);
}

#[test]
fn gradient_before_any_backward_pass_is_zero() {
    let mut graph = Graph::new();
    let t = graph.tensor(bits(&[3.0, -4.0, 5.0]), vec![3]).unwrap();
    let g = graph.gradient(t).unwrap();
    assert_eq!(graph.get(g).unwrap().data, bits(&[0.0, 0.0, 0.0]));
    assert_eq!(graph.get(g).unwrap().op, Operation::Leaf);
}

#[test]
fn children_that_share_a_parent_contribute_once_each() {
    let mut graph = Graph::new();
    let t = graph.tensor(bits(&[-1.0, 2.0, 3.0]), vec![3]).unwrap();
    let a = graph.relu(t).unwrap();
    let b = graph.relu(t).unwrap();
    backward(&mut graph, a);
    assert_eq!(floats(&graph.get(t).unwrap().grad), vec![0.0, 1.0, 1.0]);
    backward(&mut graph, b);
    assert_eq!(floats(&graph.get(t).unwrap().grad), vec![0.0, 2.0, 2.0]);
    assert_eq!(floats(&graph.get(a).unwrap().grad), vec![1.0, 1.0, 1.0]);
    assert_eq!(floats(&graph.get(b).unwrap().grad), vec![1.0, 1.0, 1.0]);
}

#[test]
fn backward_through_a_chain() {
    let mut graph = Graph::new();
    let t = graph.tensor(bits(&[-1.0, 2.0]), vec![2]).unwrap();
    let a = graph.relu(t).unwrap();
    let b = graph.relu(a).unwrap();
    let other = graph.tensor(bits(&[7.0]), vec![1]).unwrap();
    assert_eq!(graph.visit_order(b), vec![b.0, a.0, t.0]);
    assert_eq!(graph.visit_order(a), vec![a.0, t.0]);
    assert_eq!(graph.visit_order(other), vec![other.0]);
    backward(&mut graph, b);
    assert_eq!(floats(&graph.get(b).unwrap().grad), vec![1.0, 1.0]);
    assert_eq!(floats(&graph.get(a).unwrap().grad), vec![0.0, 1.0]);
    assert_eq!(floats(&graph.get(t).unwrap().grad), vec![0.0, 1.0]);
    assert_eq!(floats(&graph.get(other).unwrap().grad), vec![0.0]);
}

#[test]
fn backward_of_a_foreign_tensor_changes_nothing() {
    let mut graph = Graph::new();
    let t = graph.tensor(bits(&[2.0]), vec![1]).unwrap();
    assert!(!graph.backward(TensorRef(1)));
    assert_eq!(floats(&graph.get(t).unwrap().grad), vec![0.0]);
    assert!(graph.backward(t));
    assert_eq!(floats(&graph.get(t).unwrap().grad), vec![1.0]);
}

#[test]
fn gradients_of_larger_tensors() {
    let mut graph = Graph::new();
    let t = graph
        .tensor(bits(&[-3.0, -0.0, 0.0, 0.5, 7.0, f64::NAN, f64::INFINITY, -1e-300]), vec![2, 4])
        .unwrap();
    let a = graph.relu(t).unwrap();
    let b = graph.relu(a).unwrap();
    assert_eq!(
        graph.get(b).unwrap().data,
        bits(&[0.0, 0.0, 0.0, 0.5, 7.0, 0.0, f64::INFINITY, 0.0])
    );
    assert!(graph.backward(b));
    assert_eq!(
        floats(&graph.get(t).unwrap().grad),
        vec![0.0, 0.0, 0.0, 1.0, 1.0, 0.0, 1.0, 0.0]
    );
    assert!(graph.backward(b));
    assert_eq!(
        floats(&graph.get(a).unwrap().grad),
        vec![0.0, 0.0, 0.0, 2.0, 2.0, 0.0, 2.0, 0.0]
    );
    assert_eq!(
        floats(&graph.get(t).unwrap().grad),
        vec![0.0, 0.0, 0.0, 3.0, 3.0, 0.0, 3.0, 0.0]
    );
}

#[test]
fn backward_on_a_leaf_or_an_empty_tensor() {
    let mut graph = Graph::new();
    let t = graph.tensor(bits(&[2.0, 3.0]), vec![2]).unwrap();
    assert!(graph.backward(t));
    assert_eq!(floats(&graph.get(t).unwrap().grad), vec![1.0, 1.0]);
    let e = graph.tensor(Vec::new(), vec![0]).unwrap();
    let r = graph.relu(e).unwrap();
    assert!(graph.backward(r));
    assert_eq!(graph.get(e).unwrap().grad.len(), 0);
    assert_eq!(floats(&graph.get(t).unwrap().grad), vec![1.0, 1.0]);
}

#[test]
fn a_pass_leaves_what_it_does_not_reach() {
    let mut graph = Graph::new();
    let t = graph.tensor(bits(&[1.0, -1.0]), vec![2]).unwrap();
    let a = graph.relu(t).unwrap();
    let b = graph.relu(a).unwrap();
    let side = graph.relu(t).unwrap();
    let later = graph.relu(b).unwrap();
    assert!(graph.backward(b));
    assert_eq!(floats(&graph.get(b).unwrap().grad), vec![1.0, 1.0]);
    assert_eq!(floats(&graph.get(a).unwrap().grad), vec![1.0, 0.0]);
    assert_eq!(floats(&graph.get(t).unwrap().grad), vec![1.0, 0.0]);
    assert_eq!(floats(&graph.get(side).unwrap().grad), vec![0.0, 0.0]);
    assert_eq!(floats(&graph.get(later).unwrap().grad), vec![0.0, 0.0]);
    assert_eq!(graph.get(a).unwrap().data, bits(&[1.0, 0.0]));
    assert_eq!(graph.get(a).unwrap().parents, vec![t.0]);
}

#[test]
fn foreign_tensor_references_are_refused() {
    let mut graph = Graph::new();
    assert_eq!(graph.relu(TensorRef(0)), None);
    assert_eq!(graph.gradient(TensorRef(5)), None);
    assert!(!graph.backward(TensorRef(1)));
    assert!(graph.get(TensorRef(0)).is_none());
    assert_eq!(graph.len(), 0);
}

#[test]
fn method_names() {
    assert_eq!(method_of(&"relu".as_bytes().to_vec()), Some(Method::Relu));
    assert_eq!(method_of(&"backward".as_bytes().to_vec()), Some(Method::Backward));
    assert_eq!(method_of(&"grad".as_bytes().to_vec()), Some(Method::Grad));
    assert_eq!(method_of(&"gradient".as_bytes().to_vec()), None);
    assert_eq!(method_of(&"Relu".as_bytes().to_vec()), None);
    assert_eq!(method_of(&Vec::new()), None);
}

#[test]
fn tensors_in_the_language() {
    let (mut vm, status) = run_source("");
    assert_eq!(finish(&mut vm, status), Result::Success(vec![]));
    let t = vm.tensor(bits(&[-1.0, 2.0]), vec![2]).unwrap();
    vm.define("t".as_bytes().to_vec(), t);

    let status = vm.interpret("var r = t.relu(); print r;");
    let r = match finish(&mut vm, status) {
        Result::Success(values) => match values[0] {
            ValueType::Tensor(r) => r,
            other => panic!("not a tensor: {:?}", other),
        },
        other => panic!("unexpected result {:?}", other),
    };
    assert_eq!(floats(&vm.graph().get(r).unwrap().data), vec![0.0, 2.0]);

    let status = vm.interpret("r.backward();");
    assert_eq!(finish(&mut vm, status), Result::Success(vec![]));
    assert_eq!(vm.depth(), 0);

    let status = vm.interpret("print t.grad();");
    let g = match finish(&mut vm, status) {
        Result::Success(values) => match values[0] {
            ValueType::Tensor(g) => g,
            other => panic!("not a tensor: {:?}", other),
        },
        other => panic!("unexpected result {:?}", other),
    };
    assert_eq!(floats(&vm.graph().get(g).unwrap().data), vec![0.0, 1.0]);

    let status = vm.interpret("print t == t; print t == r; t.sum();");
    assert_eq!(
        finish(&mut vm, status),
        Result::RuntimeErr(
            "Undefined function. Currently only supports relu, backward and grad".to_string()
        )
    );
    assert_eq!(vm.outputs(), &vec![ValueType::Boolean(true), ValueType::Boolean(false)]);
}

#[test]
fn calls_on_what_the_machine_does_not_hold_are_refused() {
    use_chunk_with_receiver(ValueType::Tensor(TensorRef(9)), StringHandle(0), "Invalid function");
    use_chunk_with_receiver(ValueType::Nil, StringHandle(0), "Invalid function");
    use_chunk_with_receiver(ValueType::Boolean(true), StringHandle(3), "Invalid function");
}

fn use_chunk_with_receiver(receiver: ValueType, name: StringHandle, expected: &str) {
    let mut interner = Interner::new();
    interner.intern_string("relu".as_bytes().to_vec());
    let mut chunk = tensor_vm::chunk::Chunk::new();
    let r = chunk.add_constant(receiver);
    let n = chunk.add_constant(ValueType::Identifier(name));
    chunk.write(tensor_vm::chunk::VectorType::Code(tensor_vm::chunk::OpCode::OpConstant));
    chunk.write(tensor_vm::chunk::VectorType::Constant(r));
    chunk.write(tensor_vm::chunk::VectorType::Code(tensor_vm::chunk::OpCode::OpCall));
    chunk.write(tensor_vm::chunk::VectorType::Constant(n));
    chunk.write(tensor_vm::chunk::VectorType::Code(tensor_vm::chunk::OpCode::OpReturn));
    let mut vm = VM::init(chunk, interner);
    assert_eq!(vm.run(), Status::Finished(Result::RuntimeErr(expected.to_string())));
    assert_eq!(vm.depth(), 0);
}

#[test]
fn a_call_whose_operand_is_no_identifier_is_refused() {
    let mut graph_owner = VM::init(tensor_vm::chunk::Chunk::new(), Interner::new());
    let t = graph_owner.tensor(bits(&[1.0]), vec![1]).unwrap();
    graph_owner.define("t".as_bytes().to_vec(), t);
    let status = graph_owner.interpret("print t.relu();");
    match finish(&mut graph_owner, status) {
        Result::Success(values) => assert_eq!(values, vec![ValueType::Tensor(TensorRef(1))]),
        other => panic!("unexpected result {:?}", other),
    }
    let mut chunk = tensor_vm::chunk::Chunk::new();
    let n = chunk.add_constant(ValueType::Nil);
    chunk.write(tensor_vm::chunk::VectorType::Code(tensor_vm::chunk::OpCode::OpNil));
    chunk.write(tensor_vm::chunk::VectorType::Code(tensor_vm::chunk::OpCode::OpCall));
    chunk.write(tensor_vm::chunk::VectorType::Constant(n));
    let mut vm = VM::init(chunk, Interner::new());
    assert_eq!(vm.run(), Status::Finished(Result::RuntimeErr("Invalid function".to_string())));
}

#[test]
fn a_backward_pass_in_the_language() {
    let (mut vm, status) = run_source("");
    assert_eq!(finish(&mut vm, status), Result::Success(vec![]));
    let t = vm.tensor(bits(&[-1.0, 2.0]), vec![2]).unwrap();
    vm.define("t".as_bytes().to_vec(), t);
    let status = vm.interpret("var r = t.relu(); r.backward(); print t.grad();");
    let g = match finish(&mut vm, status) {
        Result::Success(values) => match values[0] {
            ValueType::Tensor(g) => g,
            other => panic!("not a tensor: {:?}", other),
        },
        other => panic!("unexpected result {:?}", other),
    };
    assert_eq!(floats(&vm.graph().get(g).unwrap().data), vec![0.0, 1.0]);
    assert_eq!(vm.depth(), 0);
    assert!(!vm.is_suspended());

    // In a source text the call is an expression; its value is nil.
    let status = vm.interpret("print r.backward(); var n = r.backward(); print n == nil;");
    assert_eq!(
        finish(&mut vm, status),
        Result::Success(vec![ValueType::Nil, ValueType::Boolean(true)])
    );
    // Three passes have added to the gradient of `t`.
    assert_eq!(floats(&vm.graph().get(TensorRef(0)).unwrap().grad), vec![0.0, 3.0]);
}

#[test]
fn backward_in_hand_made_bytecode_pushes_nothing() {
    let mut interner = Interner::new();
    let name = interner.intern_string("backward".as_bytes().to_vec());
    let mut chunk = tensor_vm::chunk::Chunk::new();
    let receiver = chunk.add_constant(ValueType::Tensor(TensorRef(0)));
    let method = chunk.add_constant(ValueType::Identifier(name));
    chunk.write(tensor_vm::chunk::VectorType::Code(tensor_vm::chunk::OpCode::OpConstant));
    chunk.write(tensor_vm::chunk::VectorType::Constant(receiver));
    chunk.write(tensor_vm::chunk::VectorType::Code(tensor_vm::chunk::OpCode::OpCall));
    chunk.write(tensor_vm::chunk::VectorType::Constant(method));
    chunk.write(tensor_vm::chunk::VectorType::Code(tensor_vm::chunk::OpCode::OpReturn));
    let mut vm = VM::init(chunk, interner);
    vm.tensor(bits(&[4.0]), vec![1]).unwrap();
    assert_eq!(vm.run(), Status::Finished(Result::Success(vec![])));
    assert_eq!(vm.depth(), 0);
    assert_eq!(floats(&vm.graph().get(TensorRef(0)).unwrap().grad), vec![1.0]);
}
