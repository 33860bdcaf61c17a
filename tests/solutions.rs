use single_variable_algebra_compiler::math_trick;
use single_variable_algebra_compiler::math_trick::get_decimal_places;
use single_variable_algebra_compiler::{
    apply_algebra_to_tree_node, parse_expression, trim2, BinaryAlgebraicExpressionTree, Config,
    Dec, TestCase, MAX_DECIMAL_PLACES,
};

const DEPTH: u64 = 1_000_000;

fn config() -> Config {
    Config::new(MAX_DECIMAL_PLACES)
}

fn tablet(name: &str, expr: &str) -> BinaryAlgebraicExpressionTree {
    BinaryAlgebraicExpressionTree {
        name: name.to_string(),
        root_node: parse_expression(expr),
    }
}

fn case(examples: Vec<[String; 2]>, name: &str, expr: &str) -> TestCase {
    TestCase {
        description: None,
        examples,
        solution: vec![tablet(name, expr)],
    }
}

fn ex(a: &str, b: &str) -> [String; 2] {
    [a.to_string(), b.to_string()]
}

fn get_test_cases() -> Vec<TestCase> {
    let cfg = config();
    let d = get_decimal_places(&cfg);
    let mut cases = vec![
        case(
            vec![ex("2", &d.to_string()), ex("-0.2424", &d.to_string()), ex("100", &d.to_string())],
            "decimal_places",
            &d.to_string(),
        ),
        case(
            vec![ex("-1", "1"), ex("11.2", "11.2"), ex("0", "0"), ex("-0.0025", "0.0025"), ex("1", "1")],
            "abs",
            "(x^2)^0.5",
        ),
        case(
            vec![ex("0.3", "1"), ex("-0.3", "0"), ex("1.0", "1"), ex("400.0", "1")],
            "H",
            "(x+abs(x))/(2*x)",
        ),
    ];
    let tiny = "0.".to_string() + &"0".repeat(d - 1) + "1";
    cases.push(case(
        vec![ex("55", &tiny), ex("-11.9", &tiny), ex("0.0", &tiny), ex("-0.95", &tiny)],
        "tiny",
        "10^(-decimal_places(x)))",
    ));
    cases.push(case(
        vec![
            ex(&("0.".to_string() + &"9".repeat(d)), "1"),
            ex("0.3", "1"),
            ex("-0.3", "0"),
            ex("1.0", "1"),
            ex("400.0", "1"),
        ],
        "ge0",
        "H(x+tiny(x)/10)",
    ));
    cases.push(case(
        vec![ex("0", "1"), ex("-6.4", "1"), ex("1.0", "0"), ex("0.999", "1"), ex("50", "0")],
        "lt1",
        "1-ge0(x-1)",
    ));
    cases.push(case(vec![ex("0", "1"), ex("0.5", "1"), ex("1", "0")], "is0", "ge0(x)*lt1(x)"));
    for k in 1..10 {
        let k_s = k.to_string();
        let next = (k + 1).to_string();
        let half = format!("{k}.5");
        cases.push(case(
            vec![ex(&k_s, "1"), ex(&half, "1"), ex(&next, "0")],
            &format!("is{k}"),
            &format!("is0(x-{k})"),
        ));
    }
    let mut floor_examples = Vec::new();
    for k in 0..10 {
        floor_examples.push(ex(&k.to_string(), &k.to_string()));
        floor_examples.push(ex(&format!("{k}.2"), &k.to_string()));
    }
    cases.push(case(
        floor_examples,
        "floor1",
        "is1(x)+2*is2(x)+3*is3(x)+4*is4(x)+5*is5(x)+6*is6(x)+7*is7(x)+8*is8(x)+9*is9(x)",
    ));
    let rotated = "0.2345678".to_string() + &"0".repeat(d - 8) + "1";
    let seven = "0.".to_string() + &"0".repeat(d - 1) + "7";
    cases.push(case(
        vec![ex("0.06", "0.6"), ex("0.12345678", &rotated), ex("0.7", &seven)],
        "right",
        "x*10-floor1(x*10)+floor1(x*10)*tiny(x)",
    ));
    cases.push(case(
        vec![ex(&rotated, "0.12345678"), ex(&seven, "0.7")],
        "left",
        &("right(".repeat(d - 1) + "(x)" + &")".repeat(d - 1)),
    ));
    cases
}

#[test]
fn test_solutions() {
    let cfg = config();
    let tasks = get_test_cases();
    let trees: Vec<BinaryAlgebraicExpressionTree> =
        tasks.iter().flat_map(|task| &task.solution).cloned().collect();
    for task in &tasks {
        for [input, output] in &task.examples {
            let solution = task.solution.last().unwrap();
            let x = Dec::parse(input).unwrap();
            let value =
                apply_algebra_to_tree_node(&solution.root_node, &x, &trees, true, &cfg, DEPTH);
            let result = trim2(&value.unwrap().unwrap());
            assert_eq!(
                format!("{}({}) = {}", solution.name, input, output),
                format!("{}({}) = {}", solution.name, input, result)
            );
        }
    }
}

#[test]
fn test_math_tricks() {
    let cfg = config();
    let tasks = get_test_cases();
    for task in &tasks {
        for [input, output] in &task.examples {
            let name_function = &task.solution.last().unwrap().name;
            let x = Dec::parse(input).unwrap();
            let result = match name_function.as_str() {
                "abs" => math_trick::abs(&x),
                "ge0" => math_trick::ge0(&x, &cfg),
                "is0" => math_trick::is0(&x, &cfg),
                "floor1" => math_trick::floor1(&x, &cfg),
                "left" => math_trick::left(&x, &cfg),
                _ => continue,
            };
            assert_eq!(
                format!("{}({}) = {}", name_function, input, output),
                format!("{}({}) = {}", name_function, input, result)
            );
        }
    }
}
