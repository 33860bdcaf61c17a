use single_variable_algebra_compiler::math_trick::{abs, floor1, ge0, get_nan, is0, left, right};
use single_variable_algebra_compiler::{
    apply_algebra_to_tree_node, create_expression, level_order_to_array, parse_expression,
    decimals_setting, parse_function, parse_function_call, pow, run_lines, trim2, trim_zeros,
    BinaryAlgebraicExpressionTree, Config, Dec, EvalError, TreeNode, MAX_DECIMAL_PLACES,
};

const DEPTH: u64 = 10_000;

fn dec(s: &str) -> Dec {
    Dec::parse(s).unwrap()
}

fn tablet(name: &str, expr: &str) -> BinaryAlgebraicExpressionTree {
    BinaryAlgebraicExpressionTree {
        name: name.to_string(),
        root_node: parse_expression(expr),
    }
}

fn eval_with(expr: &str, x: &str, tablets: &Vec<BinaryAlgebraicExpressionTree>) -> Result<Option<String>, EvalError> {
    let cfg = Config::new(MAX_DECIMAL_PLACES);
    let tree = parse_expression(expr);
    apply_algebra_to_tree_node(&tree, &dec(x), tablets, false, &cfg, DEPTH)
        .map(|v| v.map(|d| trim2(&d)))
}

fn eval_text(expr: &str) -> Result<Option<String>, EvalError> {
    eval_with(expr, "0", &Vec::new())
}

fn some(s: &str) -> Result<Option<String>, EvalError> {
    Ok(Some(s.to_string()))
}

#[test]
fn precedence_of_operators() {
    assert_eq!(eval_text("1+2*3"), some("7"));
    assert_eq!(eval_text("(1+2)*3"), some("9"));
    assert_eq!(eval_text("2^(2^3)"), some("256"));
    assert_eq!(eval_text("10-4-3"), some("3"));
    assert_eq!(eval_text("16/4/2"), some("2"));
}

#[test]
fn chained_power_is_folded_left_by_the_parser() {
    // The parser folds `^` to the left; only the printer reads it the other way.
    assert_eq!(eval_text("2^2^3"), some("64"));
}

#[test]
fn unary_minus_and_plus() {
    assert_eq!(eval_text("-3+5"), some("2"));
    assert_eq!(eval_text("-(2+3)"), some("-5"));
    assert_eq!(eval_text("+4"), some("4"));
    assert_eq!(eval_text("--2"), some("2"));
}

#[test]
fn variable_and_whitespace() {
    assert_eq!(eval_with(" 3 * x + 5 ", "2", &Vec::new()), some("11"));
}

#[test]
fn domain_failures() {
    assert_eq!(eval_text("1/0"), Ok(None));
    assert_eq!(eval_text("0^0"), Ok(None));
    assert_eq!(eval_text("(-1)^0.5"), Ok(None));
    assert_eq!(eval_text("(-1)^2"), some("1"));
    assert_eq!(eval_text("0^(-1)"), Ok(None));
    assert_eq!(eval_text("(1/0)+2"), Ok(None));
}

#[test]
fn repeated_application() {
    let tablets = vec![tablet("f", "x+1")];
    assert_eq!(eval_with("f^[3](x)", "5", &tablets), some("8"));
    assert_eq!(eval_with("f^[0](x)", "5", &tablets), some("5"));
}

#[test]
fn arithmetic_through_bigdecimal() {
    assert_eq!(eval_text("2.5+0.25"), some("2.75"));
    assert_eq!(eval_text("5-7.5"), some("-2.5"));
    assert_eq!(eval_text("1.5*4"), some("6"));
    assert_eq!(eval_text("1/4"), some("0.25"));
    assert_eq!(eval_text("1.5^2"), some("2.25"));
    assert_eq!(eval_text("2^(-2)"), some("0.25"));
    assert_eq!(eval_text("2.25^0.5"), some("1.5"));
}

#[test]
fn power_shortcuts_and_unsupported_exponents() {
    assert_eq!(pow(&dec("1"), &dec("99999999999999999999")).unwrap().unwrap().to_plain_string(), "1");
    assert_eq!(pow(&dec("2"), &dec("1.5")).err(), Some(EvalError::UnsupportedPower));
    assert_eq!(pow(&dec("2"), &dec("99999999999999999999")).err(), Some(EvalError::UnsupportedPower));
    assert_eq!(pow(&dec("3"), &dec("2")).unwrap().unwrap().to_plain_string(), "9");
    let long_scale = "1.".to_string() + &"0".repeat(100) + "1";
    assert_eq!(pow(&dec(&long_scale), &dec("100000000000000000")).err(), Some(EvalError::UnsupportedPower));
    assert_eq!(pow(&dec("1.5"), &dec("1000000001")).err(), Some(EvalError::UnsupportedPower));
    assert_eq!(pow(&dec("1.5"), &dec("-1000000001")).err(), Some(EvalError::UnsupportedPower));
    assert_eq!(pow(&dec("2.00"), &dec("0")).unwrap().unwrap().to_plain_string(), "1");
    assert_eq!(trim2(&pow(&dec("4"), &dec("-1")).unwrap().unwrap()), "0.25");
}

#[test]
fn evaluation_errors() {
    let cfg = Config::new(MAX_DECIMAL_PLACES);
    let none: Vec<BinaryAlgebraicExpressionTree> = Vec::new();
    let x = dec("1");
    assert_eq!(eval_text("g(2)"), Err(EvalError::UnknownFunction));
    let var = TreeNode::Var("y".to_string());
    assert_eq!(apply_algebra_to_tree_node(&var, &x, &none, false, &cfg, DEPTH).err(), Some(EvalError::UnexpectedVariable));
    let var_num = TreeNode::Var("2.5".to_string());
    assert_eq!(apply_algebra_to_tree_node(&var_num, &x, &none, false, &cfg, DEPTH).unwrap().unwrap().to_plain_string(), "2.5");
    let bad = TreeNode::Num("abc".to_string());
    assert_eq!(apply_algebra_to_tree_node(&bad, &x, &none, false, &cfg, DEPTH).err(), Some(EvalError::InvalidLiteral));
    let op = TreeNode::Op('%', Box::new(TreeNode::Num("1".to_string())), Box::new(TreeNode::Num("2".to_string())));
    assert_eq!(apply_algebra_to_tree_node(&op, &x, &none, false, &cfg, DEPTH).err(), Some(EvalError::UnknownOperator));
    let looping = vec![tablet("f", "f(x)")];
    let call_f = parse_expression("f(x)");
    assert_eq!(apply_algebra_to_tree_node(&call_f, &x, &looping, false, &cfg, 50).err(), Some(EvalError::DepthExceeded));
    let nan_input = Dec::parse(&get_nan(&cfg)).unwrap();
    let call = parse_expression("ge0(x)");
    assert_eq!(apply_algebra_to_tree_node(&call, &nan_input, &none, true, &cfg, DEPTH).err(), Some(EvalError::NotANumber));
}

#[test]
fn empty_tree_is_zero() {
    assert_eq!(eval_text(""), some("0"));
    assert_eq!(parse_expression(""), TreeNode::Empty);
    assert_eq!(parse_expression("y"), TreeNode::Var("y".to_string()));
    assert_eq!(parse_expression("y^[2]"), TreeNode::Var("y".to_string()));
    assert_eq!(eval_text("y"), Err(EvalError::UnexpectedVariable));
    assert_eq!(eval_text("2*y"), Err(EvalError::UnexpectedVariable));
    assert_eq!(parse_expression("x"), TreeNode::Var("x".to_string()));
}

#[test]
fn boundary_classification_at_27_places() {
    let cfg = Config::new(27);
    let boundary = "-0.".to_string() + &"0".repeat(27) + "1";
    assert_eq!(get_nan(&cfg), boundary);
    assert_eq!(ge0(&dec(&boundary), &cfg), "NaN");
    let above = "0.".to_string() + &"9".repeat(28);
    assert_eq!(ge0(&dec(&above), &cfg), "1");
    let below = "-1.".to_string() + &"0".repeat(27) + "1";
    assert_eq!(ge0(&dec(&below), &cfg), "0");
    assert_eq!(is0(&dec(&boundary), &cfg), "NaN");
    assert_eq!(is0(&dec("0.5"), &cfg), "1");
    assert_eq!(is0(&dec("1.5"), &cfg), "0");
    assert_eq!(is0(&dec("-0.5"), &cfg), "0");
}

#[test]
fn floor_of_one_digit() {
    let cfg = Config::new(MAX_DECIMAL_PLACES);
    assert_eq!(floor1(&dec("3.7"), &cfg), "3");
    assert_eq!(floor1(&dec("9.9999"), &cfg), "9");
    assert_eq!(floor1(&dec("0"), &cfg), "0");
    assert_eq!(floor1(&dec("-2.5"), &cfg), "0");
    assert_eq!(floor1(&dec("10.5"), &cfg), "0");
    assert_eq!(floor1(&dec("123"), &cfg), "0");
}

#[test]
fn absolute_value() {
    assert_eq!(abs(&dec("-2.50")), "2.50");
    assert_eq!(abs(&dec("7")), "7");
}

#[test]
fn left_rotates_fraction() {
    let cfg = Config::new(10);
    assert_eq!(left(&dec("0.1234567891"), &cfg), "0.1123456789");
    assert_eq!(left(&dec("0.5"), &cfg), "0.05");
    assert_eq!(left(&dec("3"), &cfg), "3");
}

#[test]
fn left_undoes_right() {
    // `right` built from the primitives, then the native `left`.
    let cfg = Config::new(10);
    let tablets = vec![
        tablet("tiny", "10^(-10)"),
        tablet("right", "x*10-floor1(x*10)+floor1(x*10)*tiny(x)"),
    ];
    let tree = parse_expression("right(x)");
    let r = apply_algebra_to_tree_node(&tree, &dec("0.123"), &tablets, true, &cfg, DEPTH).unwrap().unwrap();
    assert_eq!(trim2(&r), "0.2300000001");
    assert_eq!(left(&r, &cfg), "0.123");
    let r = apply_algebra_to_tree_node(&tree, &dec("0.1234567891"), &tablets, true, &cfg, DEPTH).unwrap().unwrap();
    assert_eq!(trim2(&r), "0.2345678911");
    assert_eq!(left(&r, &cfg), "0.1234567891");
}

#[test]
fn printing_trees() {
    assert_eq!(create_expression(parse_expression("(1+2)*3")), "(1+2)*3");
    assert_eq!(create_expression(parse_expression("1+2*3")), "1+2*3");
    assert_eq!(create_expression(parse_expression("f^[3](x)")), "f^[3](x)");
    assert_eq!(create_expression(parse_expression("g^[1](x-1)")), "g(x-1)");
    assert_eq!(create_expression(parse_expression("2^(3^2)")), "2^(3^2)");
    assert_eq!(create_expression(parse_expression("-x")), "0-x");
    assert_eq!(create_expression(parse_expression("-1.5")), "-1.5");
}

#[test]
fn level_order_layout() {
    let a = level_order_to_array(parse_expression("1+2*x"));
    assert_eq!(a[0], "+");
    assert_eq!(a[1], "1");
    assert_eq!(a[2], "*");
    assert_eq!(a[3], "");
    assert_eq!(a[5], "2");
    assert_eq!(a[6], "x");
    let b = level_order_to_array(parse_expression("f((x))"));
    assert_eq!(b[0], "f");
    assert_eq!(b[2], "()");
    assert_eq!(b[5], "x");
}

#[test]
fn function_lines() {
    assert_eq!(parse_function(" F(x) = 4+4 "), Some(("F".to_string(), "4+4".to_string())));
    assert_eq!(parse_function("F(x) 4"), None);
    assert_eq!(parse_function("F = 4"), None);
    assert_eq!(parse_function_call("G(1.5)"), Some(("G".to_string(), "1.5".to_string())));
    assert_eq!(parse_function_call("G1.5"), None);
    assert_eq!(parse_function_call("G(1.5"), None);
}

fn lines(v: &[&str]) -> Vec<String> {
    v.iter().map(|s| s.to_string()).collect()
}

#[test]
fn session_reports() {
    let cfg = Config::new(MAX_DECIMAL_PLACES);
    let run = |v: &[&str]| run_lines(&lines(v), false, &cfg, DEPTH);
    assert_eq!(run(&["F(x)=4+4", "G(x)=F(x)*2", "G(1)"]), Ok("16".to_string()));
    assert_eq!(run(&["F(x)=1/x", "F(0)"]), Ok("Undefined".to_string()));
    assert_eq!(run(&["F(x)=x", "H(2)"]), Ok("Function H not defined".to_string()));
    assert_eq!(run(&["nonsense", "F(2)"]), Ok("Invalid function definition: nonsense".to_string()));
    assert_eq!(run(&["F(x)=x", "F2"]), Ok("Invalid function call: F2".to_string()));
    assert_eq!(run(&["F(x)=x", "F(abc)"]), Ok("Invalid input value: abc".to_string()));
    assert_eq!(run(&["F(x)=g(x)", "F(1)"]), Err(EvalError::UnknownFunction));
}

#[test]
fn session_end_to_end() {
    // bigdecimal divides and takes roots at 100 digits: 27 places keep every step exact.
    let cfg = Config::new(27);
    let mut defs = vec![
        "decimal_places(x)=27".to_string(),
        "abs(x)=(x^2)^0.5".to_string(),
        "H(x)=(x+abs(x))/(2*x)".to_string(),
        "tiny(x)=10^(-decimal_places(x))".to_string(),
        "ge0(x)=H(x+tiny(x)/10)".to_string(),
        "lt1(x)=1-ge0(x-1)".to_string(),
        "is0(x)=ge0(x)*lt1(x)".to_string(),
    ];
    for k in 1..10 {
        defs.push(format!("is{k}(x)=is0(x-{k})"));
    }
    defs.push("floor1(x)=is1(x)+2*is2(x)+3*is3(x)+4*is4(x)+5*is5(x)+6*is6(x)+7*is7(x)+8*is8(x)+9*is9(x)".to_string());
    defs.push("right(x)=x*10-floor1(x*10)+floor1(x*10)*tiny(x)".to_string());
    let mut floor_call = defs.clone();
    floor_call.push("floor1(4.2)".to_string());
    assert_eq!(run_lines(&floor_call, false, &cfg, DEPTH), Ok("4".to_string()));
    let mut right_call = defs.clone();
    right_call.push("right(0.06)".to_string());
    assert_eq!(run_lines(&right_call, false, &cfg, DEPTH), Ok("0.6".to_string()));
}

#[test]
fn decimal_text() {
    assert_eq!(dec("007.50").to_plain_string(), "7.50");
    assert_eq!(dec("-0.050").to_plain_string(), "-0.050");
    assert_eq!(dec("12.30").to_plain_string(), "12.30");
    assert_eq!(trim2(&dec("007.50")), "7.5");
    assert_eq!(trim2(&dec("-0")), "0");
    assert_eq!(trim2(&dec("-0.000")), "0");
    assert_eq!(trim2(&dec("100")), "100");
    assert!(Dec::parse("x1").is_none());
    assert_eq!(trim_zeros("1.500"), "1.5");
    assert_eq!(trim_zeros("2.000"), "2");
    assert_eq!(trim_zeros("100"), "100");
}

#[test]
fn default_tablet() {
    let t = BinaryAlgebraicExpressionTree::default();
    assert_eq!(t.name, "NEW");
    assert_eq!(create_expression(t.root_node), "1");
}

#[test]
fn right_rotates_fraction() {
    let cfg = Config::new(MAX_DECIMAL_PLACES);
    let expected = "0.2345678".to_string() + &"0".repeat(MAX_DECIMAL_PLACES - 8) + "1";
    assert_eq!(right(&dec("0.12345678"), &cfg), expected);
    assert_eq!(right(&dec("0.06"), &cfg), "0.6");
    let small = Config::new(4);
    assert_eq!(right(&dec("2.5"), &small), "2.0005");
    assert_eq!(right(&dec("7"), &small), "7");
}

#[test]
fn left_after_right_gives_back_the_number() {
    let cfg = Config::new(6);
    for v in ["0.123", "0.5", "-0.25", "3.000100", "0.000001", "42"] {
        let once = dec(&right(&dec(v), &cfg));
        assert_eq!(left(&once, &cfg), trim_zeros(v), "left(right({v}))");
    }
    let no_places = Config::new(0);
    assert_eq!(right(&dec("42"), &no_places), "42");
    assert_eq!(left(&dec(&right(&dec("42"), &no_places)), &no_places), "42");
}

#[test]
fn rotation_on_a_boundary_is_undecided() {
    let cfg = Config::new(3);
    // ten times 0.09999 is 0.9999: the boundary just below one at three places.
    assert_eq!(right(&dec("0.09999"), &cfg), "NaN");
    assert_eq!(left(&dec("0.09999"), &cfg), "NaN");
}

#[test]
fn decimals_first_line() {
    assert_eq!(decimals_setting("decimals(x) = 27"), Some(Some(27)));
    assert_eq!(decimals_setting("  decimals(x) =   8  more"), Some(Some(8)));
    assert_eq!(decimals_setting("decimals(x) = +5"), Some(Some(5)));
    assert_eq!(decimals_setting("decimals(x) = many"), Some(None));
    assert_eq!(decimals_setting("decimals(x) ="), Some(None));
    assert_eq!(decimals_setting("decimals(x) = 99999999999999999999999"), Some(None));
    assert_eq!(decimals_setting("F(x) = 2"), None);
}

fn num(s: &str) -> Box<TreeNode> {
    Box::new(TreeNode::Num(s.to_string()))
}

fn var_x() -> Box<TreeNode> {
    Box::new(TreeNode::Var("x".to_string()))
}

#[test]
fn print_then_parse_gives_the_tree_back() {
    // 1.5-(2-x)*3/x+7
    let grouped = TreeNode::Op(
        '+',
        Box::new(TreeNode::Op(
            '-',
            num("1.5"),
            Box::new(TreeNode::Op(
                '/',
                Box::new(TreeNode::Op(
                    '*',
                    Box::new(TreeNode::Paren(Box::new(TreeNode::Op('-', num("2"), var_x())))),
                    num("3"),
                )),
                var_x(),
            )),
        )),
        num("7"),
    );
    let text = create_expression(grouped.clone());
    assert_eq!(text, "1.5-(2-x)*3/x+7");
    assert_eq!(parse_expression(&text), grouped);
    let tablets = Vec::new();
    assert_eq!(eval_with(&text, "2", &tablets), some("8.5"));
}

#[test]
fn ungrouped_right_difference_does_not_round_trip() {
    // 5-(3-1) without a group node prints as 5-3-1, which reads as (5-3)-1.
    let tree = TreeNode::Op('-', num("5"), Box::new(TreeNode::Op('-', num("3"), num("1"))));
    let text = create_expression(tree.clone());
    assert_eq!(text, "5-3-1");
    assert_ne!(parse_expression(&text), tree);
    assert_eq!(eval_text(&text), some("1"));
}

#[test]
fn negative_literal_round_trips() {
    let tree = TreeNode::Op('*', num("2"), num("-3.5"));
    let text = create_expression(tree.clone());
    assert_eq!(text, "2*-3.5");
    assert_eq!(parse_expression(&text), tree);
    assert_eq!(eval_text(&text), some("-7"));
    let diff = TreeNode::Op('-', num("1"), num("-2"));
    assert_eq!(parse_expression(&create_expression(diff.clone())), diff);
}
