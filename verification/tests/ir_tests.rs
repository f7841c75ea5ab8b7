use toylang::compile;
use toylang::ir::{emit, EmitError, IrOp};
use toylang::parser::{BinOp, Expr, Function};

fn ops_of(input: &str) -> Vec<IrOp> {
    compile(input).unwrap().1
}

#[test]
fn emits_add_of_two_params() {
    let ops = ops_of("fn add(a,b) { a + b }");
    let expected = vec![
        IrOp::LoadParam(0, 0),
        IrOp::LoadParam(1, 1),
        IrOp::BinOp(2, BinOp::Add, 0, 1),
        IrOp::Return(2),
    ];
    assert_eq!(ops, expected);
}

#[test]
fn emits_constant_only_body_without_load_param() {
    let ops = ops_of("fn z() { 42 }");
    let expected = vec![IrOp::LoadConst(0, 42), IrOp::Return(0)];
    assert_eq!(ops, expected);
}

#[test]
fn each_operator_maps_to_its_own_operation() {
    assert_eq!(
        ops_of("fn f(a,b) { a - b }")[2],
        IrOp::BinOp(2, BinOp::Sub, 0, 1)
    );
    assert_eq!(
        ops_of("fn f(a,b) { a * b }")[2],
        IrOp::BinOp(2, BinOp::Mul, 0, 1)
    );
    assert_eq!(
        ops_of("fn f(a,b) { a / b }")[2],
        IrOp::BinOp(2, BinOp::Div, 0, 1)
    );
}

#[test]
fn emits_post_order_left_before_right() {
    let ops = ops_of("fn f(a) { 2 + 3 * a }");
    let expected = vec![
        IrOp::LoadParam(0, 0),
        IrOp::LoadConst(1, 2),
        IrOp::LoadConst(2, 3),
        IrOp::BinOp(3, BinOp::Mul, 2, 0),
        IrOp::BinOp(4, BinOp::Add, 1, 3),
        IrOp::Return(4),
    ];
    assert_eq!(ops, expected);
}

#[test]
fn identifier_reuses_the_param_id() {
    let ops = ops_of("fn f(a) { a + a }");
    let expected = vec![
        IrOp::LoadParam(0, 0),
        IrOp::BinOp(1, BinOp::Add, 0, 0),
        IrOp::Return(1),
    ];
    assert_eq!(ops, expected);
}

#[test]
fn ids_are_defined_before_use_and_one_return_ends_the_sequence() {
    let ops = ops_of("fn f(a,b) { (a + 2) * (b - 3) / a }");
    for (k, op) in ops.iter().enumerate() {
        match *op {
            IrOp::LoadConst(d, _) => assert_eq!(d, k),
            IrOp::LoadParam(d, ix) => {
                assert_eq!(d, k);
                assert_eq!(ix, k);
            }
            IrOp::BinOp(d, _, l, r) => {
                assert_eq!(d, k);
                assert!(l < k && r < k);
            }
            IrOp::Return(v) => {
                assert_eq!(k, ops.len() - 1);
                assert!(v < k);
            }
        }
    }
}

#[test]
fn unresolved_identifier_at_emission_is_an_internal_violation() {
    let f = Function {
        name: "f".to_string(),
        params: Vec::new(),
        body: Expr::Identifier("q".to_string()),
    };
    match emit(&f) {
        Err(EmitError::InternalInvariantViolation(name)) => assert_eq!(name, "q"),
        Ok(ops) => panic!("expected an internal invariant violation, got {:?}", ops),
    }
}
