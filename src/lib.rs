//! A single-variable algebraic expression compiler and interpreter.
//!
//! Expressions over the variable `x` are parsed into a binary expression
//! tree, rendered back to text, and evaluated against arbitrary-precision
//! decimal inputs. A small library of arithmetic-only primitives
//! (comparison, floor, digit rotation) sits beside the evaluator.
pub mod text;
pub mod tree;
pub mod parser;
pub mod render;
pub mod decimal;
pub mod math_trick;
pub mod eval;
pub mod session;
pub mod rotation;
pub mod round_trip;

pub use decimal::{dec_to_string, zero, Config, Dec, MAX_DECIMAL_PLACES, MAX_EXPONENT, MAX_POWER_BASE_LEN};
pub use eval::{apply_algebra_to_tree_node, pow, trim2, EvalError};
pub use parser::parse_expression;
pub use render::{create_expression, level_order_to_array};
pub use text::trim_zeros;
pub use tree::{BinaryAlgebraicExpressionTree, TestCase, TreeNode};
pub use session::{decimals_setting, parse_function, parse_function_call, run_lines};
