use csp_solver::algrebra::Expression;

struct TestData {
    expr: Expression,
    written: String,
    depth: u64,
    size: u64,
    simplified_written: String,
    simplified_depth: u64,
    simplified_size: u64,
}

fn generate_test_data() -> Vec<TestData> {
    vec![
        TestData {
            expr: Expression::Product(vec![
                Expression::Sum(vec![
                    Expression::Variable(1, "a".to_string()),
                    Expression::Variable(1, "b".to_string()),
                ]),
                Expression::Sum(vec![
                    Expression::Variable(1, "c".to_string()),
                    Expression::Variable(1, "d".to_string()),
                ]),
                Expression::Variable(1, "e".to_string()),
            ]),
            written: "(a + b) * (c + d) * e".to_string(),
            depth: 2,
            size: 5,
            simplified_written: "(a * c + a * d + b * c + b * d) * e".to_string(),
            simplified_depth: 3,
            simplified_size: 9,
        },
        TestData {
            expr: Expression::Product(vec![
                Expression::Sum(vec![
                    Expression::Integer(1),
                    Expression::Variable(1, "a".to_string()),
                    Expression::Integer(10),
                ]),
                Expression::Product(vec![
                    Expression::Integer(10),
                    Expression::Variable(2, "b".to_string()),
                ]),
            ]),
            written: "(1 + a + 10) * 10 * 2b".to_string(),
            depth: 2,
            size: 5,
            simplified_written: "(1 + a + 10) * 10 * 2b".to_string(),
            simplified_depth: 2,
            simplified_size: 5,
        },
        TestData {
            expr: Expression::Sum(vec![
                Expression::Sum(vec![
                    Expression::Variable(1, "a".to_string()),
                    Expression::Variable(1, "b".to_string()),
                ]),
                Expression::Variable(1, "c".to_string()),
                Expression::Sum(vec![
                    Expression::Variable(2, "d".to_string()),
                    Expression::Integer(25),
                ]),
            ]),
            written: "a + b + c + 2d + 25".to_string(),
            depth: 2,
            size: 5,
            simplified_written: "a + b + c + 2d + 25".to_string(),
            simplified_depth: 1,
            simplified_size: 5,
        },
    ]
}

#[test]
fn expression_write() {
    for data in generate_test_data() {
        let written = data.expr.to_text();

        assert_eq!(data.written, written);
    }
}

#[test]
fn expression_size() {
    for data in generate_test_data() {
        assert_eq!(data.size, data.expr.size());
    }
}

#[test]
fn expression_depth() {
    for data in generate_test_data() {
        assert_eq!(data.depth, data.expr.depth());
    }
}

#[test]
fn expression_simplify() {
    for data in generate_test_data() {
        let new_expr = data.expr.simplify();

        let written = new_expr.to_text();

        assert_eq!(data.simplified_size, new_expr.size());
        assert_eq!(data.simplified_depth, new_expr.depth());
        assert_eq!(data.simplified_written, written);
    }
}

#[test]
fn notation_of_integers_and_coefficients() {
    assert_eq!(Expression::Integer(-42).to_text(), "-42");
    assert_eq!(Expression::Integer(0).to_text(), "0");
    assert_eq!(Expression::Integer(i64::MIN).to_text(), "-9223372036854775808");
    assert_eq!(Expression::Variable(-3, "x".to_string()).to_text(), "-3x");
    assert_eq!(Expression::Variable(1, "x".to_string()).to_text(), "x");
}

#[test]
fn depth_and_size_of_empty_sum_are_zero() {
    let empty = Expression::Sum(vec![]);
    assert_eq!(empty.depth(), 0);
    assert_eq!(empty.size(), 0);
    assert_eq!(empty.to_text(), "");
}

#[test]
fn product_with_one_term_simplifies_to_the_term() {
    let single = Expression::Product(vec![Expression::Integer(7)]);
    let simple = single.simplify();
    assert_eq!(simple.to_text(), "7");
    assert_eq!(simple.depth(), 0);
}

#[test]
fn sum_inside_sum_is_merged_without_simplifying_its_terms() {
    // The inner sum gives its terms as they are: the product of one term stays.
    let nested = Expression::Sum(vec![
        Expression::Sum(vec![Expression::Product(vec![Expression::Integer(3)])]),
        Expression::Product(vec![Expression::Integer(4)]),
    ]);
    let simple = nested.simplify();
    assert_eq!(simple.size(), 2);
    assert_eq!(simple.depth(), 2);
    assert_eq!(simple.to_text(), "3 + 4");
}

#[test]
fn clone_keeps_the_expression() {
    for data in generate_test_data() {
        let copy = data.expr.clone();
        assert_eq!(copy.to_text(), data.written);
    }
}
