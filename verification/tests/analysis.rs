//! What the analysis requires of small modules.
use naga_prune::context::RequiredContext;
use naga_prune::ir::{
    AtomicFunction, Block, EntryPoint, Expression, Function, FunctionArgument, GlobalVariable,
    ImageQuery, LocalVariable, Module, Range, SampleLevel, Statement, StructMember, SwitchCase,
    SwitchValue, SwizzleComponent, Type, TypeInner, VectorSize,
};
use naga_prune::live::Pruner;
use naga_prune::need::{FunctionReq, StatementReq};
use naga_prune::part::PartReq;
use std::collections::{BTreeMap, HashMap};

fn part(list: Vec<(usize, PartReq)>) -> PartReq {
    let mut map = BTreeMap::new();
    for (i, req) in list {
        map.insert(i, req);
    }
    PartReq::Part(map)
}

/// A function of two arguments and one local variable.
fn function(expressions: Vec<Expression>, body: Vec<Statement>) -> Function {
    let arguments = (0..2)
        .map(|_| FunctionArgument { name: None, ty: 0, binding: None })
        .collect();
    Function {
        name: None,
        arguments,
        result: None,
        local_variables: vec![LocalVariable { name: None, ty: 1, init: Some(3) }],
        expressions,
        named_expressions: HashMap::new(),
        body: Block { body },
    }
}

/// A scalar type and a vector type, and two global variables.
fn module(functions: Vec<Function>) -> Module {
    let kind = naga::ScalarKind::Float;
    let global = |ty| GlobalVariable {
        name: None,
        space: naga::AddressSpace::Private,
        binding: None,
        ty,
        init: None,
    };
    Module {
        types: vec![
            Type { name: None, inner: TypeInner::Scalar { kind, width: 4 } },
            Type { name: None, inner: TypeInner::Vector { size: VectorSize::Quad, kind, width: 4 } },
        ],
        constants: vec![],
        global_variables: vec![global(1), global(0)],
        functions,
        entry_points: vec![],
    }
}

fn analyse(
    pruner: &mut Pruner,
    module: &Module,
    function: usize,
    retval: Option<PartReq>,
) -> Option<(bool, RequiredContext)> {
    pruner.try_add_function(module, function, HashMap::new(), retval, 50)
}

/// What is required of the expressions of a function that returns expression
/// `h`, where `part` is required of its result.
fn required(expressions: Vec<Expression>, h: usize, part: PartReq) -> Option<FunctionReq> {
    let body = vec![Statement::Return { value: Some(h) }];
    let mut pruner = Pruner::default();
    analyse(&mut pruner, &module(vec![function(expressions, body)]), 0, Some(part))?;
    pruner.functions.remove(&0)
}

fn exprs(expressions: Vec<Expression>, h: usize, part: PartReq) -> Option<Vec<(usize, PartReq)>> {
    let mut list: Vec<(usize, PartReq)> =
        required(expressions, h, part)?.exprs_required.into_iter().collect();
    list.sort();
    Some(list)
}

fn arg(i: u32) -> Expression {
    Expression::FunctionArgument(i)
}

#[test]
fn a_returned_argument_is_required() {
    let m = module(vec![function(vec![arg(1)], vec![Statement::Return { value: Some(0) }])]);
    let mut pruner = Pruner::default();
    let (needed, context) = analyse(&mut pruner, &m, 0, Some(PartReq::All)).unwrap();
    assert!(needed);
    assert_eq!(context.args, vec![None, Some(PartReq::All)]);
    assert_eq!(context.retval, Some(PartReq::All));
}

#[test]
fn nothing_is_required_without_a_result() {
    let m = module(vec![function(vec![arg(1)], vec![Statement::Return { value: Some(0) }])]);
    let mut pruner = Pruner::default();
    let (needed, context) = analyse(&mut pruner, &m, 0, None).unwrap();
    assert!(!needed);
    assert_eq!(context.args, vec![None, None]);
    assert!(pruner.functions[&0].exprs_required.is_empty());
    assert!(matches!(
        pruner.functions[&0].body_required.required_statements[0],
        StatementReq::Return(false)
    ));
}

#[test]
fn components_are_required_one_by_one() {
    let list = vec![arg(0), arg(1), Expression::Compose { ty: 1, components: vec![0, 1, 0] }];
    assert_eq!(
        exprs(list, 2, part(vec![(1, PartReq::Exist)])),
        Some(vec![(1, PartReq::Exist), (2, part(vec![(1, PartReq::Exist)]))])
    );
}

#[test]
fn components_of_a_whole_value() {
    let list = || vec![arg(0), arg(1), Expression::Compose { ty: 1, components: vec![0, 1] }];
    assert_eq!(
        exprs(list(), 2, PartReq::All),
        Some(vec![(0, PartReq::All), (1, PartReq::All), (2, PartReq::All)])
    );
    assert_eq!(exprs(list(), 2, PartReq::Exist), Some(vec![(2, PartReq::Exist)]));
}

#[test]
fn a_component_that_is_missing() {
    let list = vec![arg(0), Expression::Compose { ty: 1, components: vec![0] }];
    assert_eq!(exprs(list, 1, part(vec![(1, PartReq::All)])), None);
}

fn swizzle(pattern: [SwizzleComponent; 4]) -> Vec<Expression> {
    vec![arg(0), Expression::Swizzle { size: VectorSize::Bi, vector: 0, pattern }]
}

#[test]
fn swizzled_parts_are_those_of_the_vector() {
    let pattern =
        [SwizzleComponent::Z, SwizzleComponent::X, SwizzleComponent::X, SwizzleComponent::X];
    let wanted = part(vec![(0, PartReq::All), (1, PartReq::Exist)]);
    assert_eq!(
        exprs(swizzle(pattern), 1, wanted.clone()),
        Some(vec![(0, part(vec![(0, PartReq::Exist), (2, PartReq::All)])), (1, wanted)])
    );
}

#[test]
fn the_last_position_of_a_component_decides() {
    let pattern =
        [SwizzleComponent::Y, SwizzleComponent::Y, SwizzleComponent::X, SwizzleComponent::W];
    let wanted = part(vec![(0, PartReq::All), (1, PartReq::Exist), (3, PartReq::All)]);
    assert_eq!(
        exprs(swizzle(pattern), 1, wanted.clone()),
        Some(vec![(0, part(vec![(1, PartReq::Exist), (3, PartReq::All)])), (1, wanted)])
    );
}

#[test]
fn swizzles_have_four_plain_parts() {
    let pattern = [SwizzleComponent::X; 4];
    assert_eq!(exprs(swizzle(pattern), 1, part(vec![(4, PartReq::All)])), None);
    assert_eq!(exprs(swizzle(pattern), 1, part(vec![(0, part(vec![]))])), None);
    assert_eq!(
        exprs(swizzle(pattern), 1, PartReq::All),
        Some(vec![(0, PartReq::All), (1, PartReq::All)])
    );
}

#[test]
fn an_index_requires_that_part() {
    let list = vec![arg(0), Expression::AccessIndex { base: 0, index: 2 }];
    assert_eq!(
        exprs(list, 1, PartReq::All),
        Some(vec![(0, part(vec![(2, PartReq::All)])), (1, PartReq::All)])
    );
}

#[test]
fn a_dynamic_index_requires_all() {
    let list = vec![arg(0), arg(1), Expression::Access { base: 0, index: 1 }];
    assert_eq!(
        exprs(list, 2, PartReq::Exist),
        Some(vec![(0, PartReq::All), (1, PartReq::All), (2, PartReq::Exist)])
    );
}

#[test]
fn arithmetic_requires_the_same_parts() {
    let wanted = part(vec![(1, PartReq::All)]);
    let list = vec![
        arg(0),
        arg(1),
        Expression::Unary { op: naga::UnaryOperator::Negate, expr: 0 },
        Expression::Binary { op: naga::BinaryOperator::Add, left: 2, right: 1 },
    ];
    assert_eq!(
        exprs(list, 3, wanted.clone()),
        Some(vec![(0, wanted.clone()), (1, wanted.clone()), (2, wanted.clone()), (3, wanted)])
    );
}

#[test]
fn a_selection_requires_its_whole_condition() {
    let wanted = part(vec![(0, PartReq::All)]);
    let list = vec![
        arg(0),
        arg(1),
        Expression::Splat { size: VectorSize::Bi, value: 1 },
        Expression::Select { condition: 0, accept: 1, reject: 2 },
    ];
    assert_eq!(
        exprs(list, 3, wanted.clone()),
        Some(vec![(0, PartReq::All), (1, PartReq::All), (2, wanted.clone()), (3, wanted)])
    );
}

#[test]
fn demands_on_one_expression_add_up() {
    let list = vec![
        arg(0),
        Expression::AccessIndex { base: 0, index: 1 },
        Expression::AccessIndex { base: 0, index: 2 },
        Expression::Binary { op: naga::BinaryOperator::Add, left: 1, right: 2 },
    ];
    let req = required(list, 3, PartReq::All).unwrap();
    assert_eq!(req.exprs_required[&0], part(vec![(1, PartReq::All), (2, PartReq::All)]));
    assert_eq!(
        req.body_required.context.args[0],
        Some(part(vec![(1, PartReq::All), (2, PartReq::All)]))
    );
}

#[test]
fn constants_are_whole() {
    let list = || vec![Expression::Constant(5)];
    let m = module(vec![function(list(), vec![Statement::Return { value: Some(0) }])]);
    let mut pruner = Pruner::default();
    analyse(&mut pruner, &m, 0, Some(PartReq::All)).unwrap();
    assert!(pruner.constants.contains(&5));
    assert_eq!(exprs(list(), 0, part(vec![(0, PartReq::All)])), None);
}

#[test]
fn images_are_required_with_all_their_operands() {
    let list = vec![
        arg(0),
        arg(1),
        Expression::As { expr: 0, kind: naga::ScalarKind::Float, convert: None },
        Expression::ImageSample {
            image: 0,
            sampler: 1,
            gather: None,
            coordinate: 2,
            array_index: None,
            offset: Some(9),
            level: SampleLevel::Gradient { x: 1, y: 2 },
            depth_ref: Some(0),
        },
    ];
    let m = module(vec![function(list, vec![Statement::Return { value: Some(3) }])]);
    let mut pruner = Pruner::default();
    analyse(&mut pruner, &m, 0, Some(PartReq::Exist)).unwrap();
    let req = &pruner.functions[&0].exprs_required;
    assert_eq!(req.len(), 4);
    assert_eq!(req[&2], PartReq::All);
    assert!(pruner.constants.contains(&9));
}

#[test]
fn image_loads_queries_and_functions() {
    let list = vec![
        arg(0),
        arg(1),
        Expression::ImageLoad {
            image: 0,
            coordinate: 1,
            array_index: Some(1),
            sample: None,
            level: Some(1),
        },
        Expression::ImageQuery { image: 0, query: ImageQuery::Size { level: Some(2) } },
        Expression::Math {
            fun: naga::MathFunction::Clamp,
            arg: 3,
            arg1: Some(1),
            arg2: Some(0),
            arg3: None,
        },
        Expression::Relational { fun: naga::RelationalFunction::All, argument: 4 },
        Expression::Derivative { axis: naga::DerivativeAxis::X, expr: 5 },
    ];
    let req = exprs(list, 6, PartReq::Exist).unwrap();
    assert_eq!(req.len(), 7);
    assert_eq!(req[6], (6, PartReq::Exist));
    assert_eq!(req[5], (5, PartReq::All));
}

#[test]
fn the_length_of_an_array_requires_that_it_exists() {
    let list = vec![Expression::GlobalVariable(0), Expression::ArrayLength(0)];
    assert_eq!(
        exprs(list, 1, PartReq::All),
        Some(vec![(0, PartReq::Exist), (1, PartReq::All)])
    );
}

#[test]
fn atomics_are_not_supported() {
    let list = vec![Expression::AtomicResult {
        kind: naga::ScalarKind::Uint,
        width: 4,
        comparison: false,
    }];
    assert_eq!(exprs(list, 0, PartReq::All), None);
    let atomic = Statement::Atomic {
        pointer: 0,
        fun: AtomicFunction::Add,
        value: 0,
        result: 0,
    };
    let m = module(vec![function(vec![arg(0)], vec![atomic])]);
    assert!(analyse(&mut Pruner::default(), &m, 0, None).is_none());
}

#[test]
fn handles_have_to_lead_somewhere() {
    assert_eq!(exprs(vec![arg(2)], 0, PartReq::All), None);
    assert_eq!(exprs(vec![arg(0)], 1, PartReq::All), None);
    assert_eq!(exprs(vec![Expression::GlobalVariable(2)], 0, PartReq::All), None);
    assert_eq!(exprs(vec![Expression::LocalVariable(1)], 0, PartReq::All), None);
    assert!(analyse(&mut Pruner::default(), &module(vec![]), 0, None).is_none());
}

#[test]
fn circles_of_expressions_exceed_any_depth() {
    let list = vec![Expression::Load { pointer: 1 }, Expression::Load { pointer: 0 }];
    assert_eq!(exprs(list, 0, PartReq::All), None);
}

#[test]
fn depth_does_not_change_the_result() {
    let list = || {
        vec![
            arg(0),
            Expression::Unary { op: naga::UnaryOperator::Negate, expr: 0 },
            Expression::Unary { op: naga::UnaryOperator::Negate, expr: 1 },
        ]
    };
    let m = module(vec![function(list(), vec![Statement::Return { value: Some(2) }])]);
    let run = |depth| {
        Pruner::default().try_add_function(&m, 0, HashMap::new(), Some(PartReq::All), depth)
    };
    assert_eq!(run(2), None);
    assert!(run(3).is_some());
    assert_eq!(run(3), run(4));
    let whole =
        Pruner::default().add_function(&m, 0, HashMap::new(), Some(PartReq::All));
    assert_eq!(Some(whole), run(3));
}

#[test]
fn local_variables_are_required_with_their_type_and_initial_value() {
    let list = vec![Expression::LocalVariable(0), Expression::Load { pointer: 0 }];
    let m = module(vec![function(list, vec![Statement::Return { value: Some(1) }])]);
    let mut pruner = Pruner::default();
    let (_, context) = analyse(&mut pruner, &m, 0, Some(part(vec![(3, PartReq::All)]))).unwrap();
    assert_eq!(context.locals[&0], part(vec![(3, PartReq::All)]));
    assert!(pruner.types.contains(&1));
    assert!(pruner.constants.contains(&3));
}

#[test]
fn a_known_global_variable_is_not_asked_for_again() {
    let list = vec![Expression::GlobalVariable(0), Expression::Load { pointer: 0 }];
    let m = module(vec![function(list, vec![Statement::Return { value: Some(1) }])]);
    let mut pruner = Pruner::default();
    let first = part(vec![(0, PartReq::All)]);
    let second = part(vec![(1, PartReq::All)]);
    let (_, context) = analyse(&mut pruner, &m, 0, Some(first.clone())).unwrap();
    assert_eq!(context.globals[&0], first);
    let (_, context) = analyse(&mut pruner, &m, 0, Some(second)).unwrap();
    assert!(context.globals.is_empty());
    assert_eq!(pruner.globals[&0], part(vec![(0, PartReq::All), (1, PartReq::All)]));
}

#[test]
fn a_smaller_part_of_a_global_variable_takes_nothing_away() {
    let list = vec![Expression::GlobalVariable(0), Expression::Load { pointer: 0 }];
    let m = module(vec![function(list, vec![Statement::Return { value: Some(1) }])]);
    let mut pruner = Pruner::default();
    let mut globals = HashMap::new();
    globals.insert(0, PartReq::All);
    let first = part(vec![(0, PartReq::All)]);
    let (_, context) =
        pruner.try_add_function(&m, 0, globals, Some(first.clone()), 50).unwrap();
    assert_eq!(context.globals[&0], PartReq::All);
    assert_eq!(pruner.globals[&0], first);
}

/// Stores argument 0 to a component of the local variable, and returns the
/// variable.
fn store_to_component(index: u32) -> Function {
    let list = vec![
        arg(0),
        Expression::LocalVariable(0),
        Expression::AccessIndex { base: 1, index },
        Expression::Load { pointer: 1 },
    ];
    let body = vec![
        Statement::Store { pointer: 2, value: 0 },
        Statement::Emit(Range { start: 3, end: 4 }),
        Statement::Return { value: Some(3) },
    ];
    function(list, body)
}

#[test]
fn a_store_to_a_required_part_is_required() {
    let m = module(vec![store_to_component(2)]);
    let mut pruner = Pruner::default();
    let (_, context) = analyse(&mut pruner, &m, 0, Some(PartReq::All)).unwrap();
    assert_eq!(
        context.locals[&0],
        part(vec![
            (0, PartReq::All),
            (1, PartReq::All),
            (2, PartReq::Exist),
            (3, PartReq::All),
        ])
    );
    assert_eq!(context.args[0], Some(PartReq::All));
    let req = &pruner.functions[&0];
    assert!(matches!(req.body_required.required_statements[0], StatementReq::Store(true)));
    assert_eq!(req.exprs_required[&2], PartReq::Exist);
}

#[test]
fn a_written_component_only_has_to_exist() {
    let mut m = module(vec![store_to_component(0)]);
    let kind = naga::ScalarKind::Float;
    m.types[1].inner = TypeInner::Vector { size: VectorSize::Tri, kind, width: 4 };
    let mut pruner = Pruner::default();
    let (_, context) = analyse(&mut pruner, &m, 0, Some(PartReq::All)).unwrap();
    assert_eq!(
        context.locals[&0],
        part(vec![(0, PartReq::Exist), (1, PartReq::All), (2, PartReq::All)])
    );
    assert_eq!(context.args, vec![Some(PartReq::All), None]);
    let stmts = &pruner.functions[&0].body_required.required_statements;
    assert!(matches!(stmts[0], StatementReq::Store(true)));
}

#[test]
fn only_the_last_store_to_a_component_is_required() {
    let list = vec![
        arg(0),
        arg(1),
        Expression::LocalVariable(0),
        Expression::AccessIndex { base: 2, index: 1 },
        Expression::Load { pointer: 2 },
    ];
    let body = vec![
        Statement::Store { pointer: 3, value: 0 },
        Statement::Store { pointer: 3, value: 1 },
        Statement::Return { value: Some(4) },
    ];
    let m = module(vec![function(list, body)]);
    let mut pruner = Pruner::default();
    let (_, context) = analyse(&mut pruner, &m, 0, Some(PartReq::All)).unwrap();
    let stmts = &pruner.functions[&0].body_required.required_statements;
    assert!(matches!(stmts[0], StatementReq::Store(false)));
    assert!(matches!(stmts[1], StatementReq::Store(true)));
    assert_eq!(context.args, vec![None, Some(PartReq::All)]);
}

/// The module, with a structure of two vectors as the type of the local
/// variable of its function.
fn with_struct(expressions: Vec<Expression>, body: Vec<Statement>) -> Module {
    let mut f = function(expressions, body);
    f.local_variables[0].ty = 2;
    let mut m = module(vec![f]);
    let member = |offset| StructMember { name: None, ty: 1, binding: None, offset };
    m.types.push(Type {
        name: None,
        inner: TypeInner::Struct { members: vec![member(0), member(16)], span: 32 },
    });
    m
}

/// Argument 0 is stored to component 2 of member 1, after argument 1 has been
/// stored to `before`; then the variable is returned.
fn nested_stores(before: usize) -> Module {
    let list = vec![
        arg(0),
        arg(1),
        Expression::LocalVariable(0),
        Expression::AccessIndex { base: 2, index: 1 },
        Expression::AccessIndex { base: 3, index: 2 },
        Expression::AccessIndex { base: 2, index: 0 },
        Expression::AccessIndex { base: 5, index: 1 },
        Expression::Load { pointer: 2 },
    ];
    let body = vec![
        Statement::Store { pointer: before, value: 1 },
        Statement::Store { pointer: 4, value: 0 },
        Statement::Return { value: Some(7) },
    ];
    with_struct(list, body)
}

#[test]
fn a_store_by_two_indices_leaves_the_existence_of_its_part() {
    let m = nested_stores(4);
    let mut pruner = Pruner::default();
    let (_, context) = analyse(&mut pruner, &m, 0, Some(PartReq::All)).unwrap();
    let stmts = &pruner.functions[&0].body_required.required_statements;
    assert!(matches!(stmts[0], StatementReq::Store(false)));
    assert!(matches!(stmts[1], StatementReq::Store(true)));
    assert_eq!(context.args, vec![Some(PartReq::All), None]);
    assert_eq!(
        context.locals[&0],
        part(vec![
            (0, PartReq::All),
            (
                1,
                part(vec![
                    (0, PartReq::All),
                    (1, PartReq::All),
                    (2, PartReq::Exist),
                    (3, PartReq::All),
                ])
            ),
        ])
    );
}

#[test]
fn a_store_by_two_indices_leaves_other_parts_alone() {
    let m = nested_stores(6);
    let mut pruner = Pruner::default();
    let (_, context) = analyse(&mut pruner, &m, 0, Some(PartReq::All)).unwrap();
    let stmts = &pruner.functions[&0].body_required.required_statements;
    assert!(matches!(stmts[0], StatementReq::Store(true)));
    assert!(matches!(stmts[1], StatementReq::Store(true)));
    assert_eq!(context.args, vec![Some(PartReq::All), Some(PartReq::All)]);
}

#[test]
fn a_store_by_two_indices_is_required_for_its_part() {
    let run = |wanted: PartReq| {
        let m = nested_stores(6);
        let mut pruner = Pruner::default();
        analyse(&mut pruner, &m, 0, Some(wanted)).unwrap();
        let req = pruner.functions.remove(&0).unwrap();
        let stored = |s: &StatementReq| matches!(s, StatementReq::Store(true));
        let stmts = &req.body_required.required_statements;
        (stored(&stmts[0]), stored(&stmts[1]))
    };
    assert_eq!(run(part(vec![(0, PartReq::All)])), (true, false));
    assert_eq!(run(part(vec![(1, PartReq::All)])), (false, true));
    assert_eq!(run(part(vec![(1, part(vec![(2, PartReq::All)]))])), (false, true));
    assert_eq!(run(part(vec![(1, part(vec![(0, PartReq::All)]))])), (false, false));
    assert_eq!(run(part(vec![(2, part(vec![(1, PartReq::All)]))])), (false, false));
}

#[test]
fn a_store_to_a_component_of_a_column() {
    let list = vec![
        arg(0),
        Expression::LocalVariable(0),
        Expression::AccessIndex { base: 1, index: 0 },
        Expression::AccessIndex { base: 2, index: 1 },
        Expression::Load { pointer: 1 },
    ];
    let body = vec![
        Statement::Store { pointer: 3, value: 0 },
        Statement::Return { value: Some(4) },
    ];
    let mut m = module(vec![function(list, body)]);
    m.types[1].inner = TypeInner::Matrix {
        columns: VectorSize::Bi,
        rows: VectorSize::Bi,
        width: 4,
    };
    let mut pruner = Pruner::default();
    let wanted = part(vec![(0, PartReq::All)]);
    let (_, context) = analyse(&mut pruner, &m, 0, Some(wanted.clone())).unwrap();
    let stmts = &pruner.functions[&0].body_required.required_statements;
    assert!(matches!(stmts[0], StatementReq::Store(true)));
    assert_eq!(context.args[0], Some(PartReq::All));
    assert_eq!(context.locals[&0], wanted);
    let mut pruner = Pruner::default();
    let (_, context) = analyse(&mut pruner, &m, 0, Some(PartReq::All)).unwrap();
    let both = || part(vec![(0, PartReq::All), (1, PartReq::All)]);
    assert_eq!(
        context.locals[&0],
        part(vec![(0, part(vec![(0, PartReq::All), (1, PartReq::Exist)])), (1, both())])
    );
}

#[test]
fn a_store_below_an_unknown_index_is_to_everything_below_it() {
    let list = vec![
        arg(0),
        arg(1),
        Expression::LocalVariable(0),
        Expression::AccessIndex { base: 2, index: 1 },
        Expression::Access { base: 3, index: 1 },
        Expression::AccessIndex { base: 4, index: 0 },
        Expression::AccessIndex { base: 2, index: 0 },
        Expression::Load { pointer: 2 },
    ];
    let body = vec![
        Statement::Store { pointer: 6, value: 0 },
        Statement::Store { pointer: 5, value: 0 },
        Statement::Return { value: Some(7) },
    ];
    let m = with_struct(list, body);
    let mut pruner = Pruner::default();
    let (_, context) = analyse(&mut pruner, &m, 0, Some(PartReq::All)).unwrap();
    let stmts = &pruner.functions[&0].body_required.required_statements;
    assert!(matches!(stmts[0], StatementReq::Store(true)));
    assert!(matches!(stmts[1], StatementReq::Store(true)));
    assert_eq!(
        context.locals[&0],
        part(vec![(0, PartReq::Exist), (1, PartReq::All)])
    );
}

#[test]
fn existence_is_passed_on_through_indices() {
    let list = || {
        vec![
            arg(0),
            Expression::AccessIndex { base: 0, index: 1 },
            Expression::AccessIndex { base: 1, index: 2 },
        ]
    };
    let below = part(vec![(2, PartReq::Exist)]);
    assert_eq!(
        exprs(list(), 2, PartReq::Exist),
        Some(vec![(0, part(vec![(1, below.clone())])), (1, below), (2, PartReq::Exist)])
    );
    let nothing = exprs(list(), 2, part(vec![])).unwrap();
    assert_eq!(nothing[1], (1, part(vec![(2, PartReq::All)])));
    assert_eq!(nothing[0], (0, part(vec![(1, PartReq::All)])));
}

#[test]
fn a_store_to_a_whole_variable_is_required_as_the_variable_is() {
    let list = vec![arg(0), Expression::LocalVariable(0), Expression::Load { pointer: 1 }];
    let body = vec![
        Statement::Store { pointer: 1, value: 0 },
        Statement::Return { value: Some(2) },
    ];
    let m = module(vec![function(list, body)]);
    let wanted = part(vec![(0, PartReq::All), (1, PartReq::Exist)]);
    let mut pruner = Pruner::default();
    let (_, context) = analyse(&mut pruner, &m, 0, Some(wanted.clone())).unwrap();
    assert_eq!(context.args, vec![Some(wanted), None]);
    assert_eq!(context.locals[&0], PartReq::Exist);
}

#[test]
fn a_store_at_an_unknown_index_is_to_the_whole_variable() {
    let list = vec![
        arg(0),
        arg(1),
        Expression::LocalVariable(0),
        Expression::Access { base: 2, index: 1 },
        Expression::Load { pointer: 2 },
    ];
    let body = vec![
        Statement::Store { pointer: 3, value: 0 },
        Statement::Return { value: Some(4) },
    ];
    let m = module(vec![function(list, body)]);
    let wanted = part(vec![(3, PartReq::All)]);
    let mut pruner = Pruner::default();
    let (_, context) = analyse(&mut pruner, &m, 0, Some(wanted.clone())).unwrap();
    assert_eq!(context.args[0], Some(wanted));
}

#[test]
fn a_store_to_what_only_exists_is_not_required() {
    let m = module(vec![store_to_component(1)]);
    let mut pruner = Pruner::default();
    let wanted = part(vec![(0, PartReq::All), (1, PartReq::Exist)]);
    analyse(&mut pruner, &m, 0, Some(wanted)).unwrap();
    let stmts = &pruner.functions[&0].body_required.required_statements;
    assert!(matches!(stmts[0], StatementReq::Store(false)));
    let mut pruner = Pruner::default();
    analyse(&mut pruner, &m, 0, Some(PartReq::Exist)).unwrap();
    let stmts = &pruner.functions[&0].body_required.required_statements;
    assert!(matches!(stmts[0], StatementReq::Store(false)));
}

#[test]
fn a_store_to_another_part_is_not_required() {
    let m = module(vec![store_to_component(2)]);
    let mut pruner = Pruner::default();
    let (_, context) = analyse(&mut pruner, &m, 0, Some(part(vec![(1, PartReq::All)]))).unwrap();
    assert_eq!(context.args[0], None);
    let req = &pruner.functions[&0];
    assert!(matches!(req.body_required.required_statements[0], StatementReq::Store(false)));
    assert!(!req.exprs_required.contains_key(&2));
}

#[test]
fn only_the_last_store_is_required() {
    let list = vec![
        arg(0),
        arg(1),
        Expression::LocalVariable(0),
        Expression::Load { pointer: 2 },
    ];
    let body = vec![
        Statement::Store { pointer: 2, value: 0 },
        Statement::Store { pointer: 2, value: 1 },
        Statement::Return { value: Some(3) },
    ];
    let m = module(vec![function(list, body)]);
    let mut pruner = Pruner::default();
    let (_, context) = analyse(&mut pruner, &m, 0, Some(PartReq::All)).unwrap();
    let stmts = &pruner.functions[&0].body_required.required_statements;
    assert!(matches!(stmts[0], StatementReq::Store(false)));
    assert!(matches!(stmts[1], StatementReq::Store(true)));
    assert_eq!(context.locals[&0], PartReq::Exist);
    assert_eq!(context.args, vec![None, Some(PartReq::All)]);
}

#[test]
fn stores_need_a_pointer_to_a_variable() {
    let m = module(vec![function(
        vec![arg(0)],
        vec![Statement::Store { pointer: 0, value: 0 }],
    )]);
    assert!(analyse(&mut Pruner::default(), &m, 0, None).is_none());
}

#[test]
fn stores_to_images_are_required_with_their_coordinates() {
    let list = vec![arg(0), arg(1), Expression::GlobalVariable(0)];
    let body = vec![Statement::ImageStore {
        image: 2,
        coordinate: 0,
        array_index: Some(1),
        value: 0,
    }];
    let m = module(vec![function(list, body)]);
    let mut pruner = Pruner::default();
    let mut globals = HashMap::new();
    globals.insert(0, PartReq::All);
    let (needed, context) = pruner.try_add_function(&m, 0, globals, None, 50).unwrap();
    assert!(needed);
    assert_eq!(context.globals[&0], PartReq::Exist);
    assert_eq!(context.args, vec![Some(PartReq::All), Some(PartReq::Exist)]);
    let (needed, _) = analyse(&mut Pruner::default(), &m, 0, None).unwrap();
    assert!(!needed);
}

#[test]
fn emitted_expressions_are_flagged() {
    let list = vec![
        arg(0),
        Expression::Unary { op: naga::UnaryOperator::Negate, expr: 0 },
        Expression::Unary { op: naga::UnaryOperator::Not, expr: 0 },
        Expression::Unary { op: naga::UnaryOperator::Negate, expr: 1 },
    ];
    let body = vec![
        Statement::Emit(Range { start: 1, end: 4 }),
        Statement::Return { value: Some(3) },
    ];
    let m = module(vec![function(list, body)]);
    let mut pruner = Pruner::default();
    analyse(&mut pruner, &m, 0, Some(PartReq::All)).unwrap();
    match &pruner.functions[&0].body_required.required_statements[0] {
        StatementReq::Emit(flags) => assert_eq!(flags, &vec![true, false, true]),
        other => panic!("unexpected {:?}", other),
    }
}

#[test]
fn a_kill_requires_its_condition() {
    let body = vec![Statement::If {
        condition: 0,
        accept: Block { body: vec![Statement::Kill] },
        reject: Block { body: vec![] },
    }];
    let m = module(vec![function(vec![arg(1)], body)]);
    let mut pruner = Pruner::default();
    let (needed, context) = analyse(&mut pruner, &m, 0, None).unwrap();
    assert!(needed);
    assert_eq!(context.args[1], Some(PartReq::All));
}

#[test]
fn a_barrier_requires_nothing() {
    let body = vec![Statement::Barrier(naga::Barrier::STORAGE)];
    let m = module(vec![function(vec![], body)]);
    let (needed, _) = analyse(&mut Pruner::default(), &m, 0, None).unwrap();
    assert!(!needed);
}

#[test]
fn a_condition_without_effect_is_not_required() {
    let body = vec![Statement::If {
        condition: 0,
        accept: Block { body: vec![Statement::Store { pointer: 1, value: 0 }] },
        reject: Block { body: vec![] },
    }];
    let m = module(vec![function(vec![arg(1), Expression::LocalVariable(0)], body)]);
    let (needed, context) = analyse(&mut Pruner::default(), &m, 0, None).unwrap();
    assert!(!needed);
    assert_eq!(context.args[1], None);
}

#[test]
fn breaks_are_required_inside_required_scopes() {
    let list = vec![arg(0), Expression::LocalVariable(0), Expression::Load { pointer: 1 }];
    let store = Statement::Loop {
        body: Block {
            body: vec![
                Statement::If {
                    condition: 0,
                    accept: Block { body: vec![Statement::Break] },
                    reject: Block { body: vec![] },
                },
                Statement::Store { pointer: 1, value: 0 },
            ],
        },
        continuing: Block { body: vec![] },
        break_if: None,
    };
    let m = module(vec![function(list, vec![store, Statement::Return { value: Some(2) }])]);
    let mut pruner = Pruner::default();
    analyse(&mut pruner, &m, 0, Some(PartReq::All)).unwrap();
    match &pruner.functions[&0].body_required.required_statements[0] {
        StatementReq::Loop { body, required, .. } => {
            assert!(*required);
            match &body.required_statements[0] {
                StatementReq::If { condition, accept, .. } => {
                    assert!(*condition);
                    assert!(matches!(accept.required_statements[0], StatementReq::Break(true)));
                }
                other => panic!("unexpected {:?}", other),
            }
        }
        other => panic!("unexpected {:?}", other),
    }
}

#[test]
fn a_loop_is_gone_through_again_with_its_condition() {
    let list = vec![arg(0), arg(1), Expression::LocalVariable(0), Expression::Load { pointer: 2 }];
    let looped = Statement::Loop {
        body: Block { body: vec![Statement::Store { pointer: 2, value: 0 }] },
        continuing: Block { body: vec![] },
        break_if: Some(1),
    };
    let m = module(vec![function(list, vec![looped, Statement::Return { value: Some(3) }])]);
    let mut pruner = Pruner::default();
    analyse(&mut pruner, &m, 0, Some(PartReq::All)).unwrap();
    let req = &pruner.functions[&0];
    assert_eq!(req.exprs_required[&1], PartReq::All);
    match &req.body_required.required_statements[0] {
        StatementReq::Loop { body, continuing, required } => {
            assert!(*required);
            let inside = body.context.merge(&continuing.context);
            assert!(req.body_required.context.contains(&inside));
        }
        other => panic!("unexpected {:?}", other),
    }
}

fn case(value: SwitchValue, body: Vec<Statement>) -> SwitchCase {
    SwitchCase { value, body: Block { body }, fall_through: false }
}

#[test]
fn cases_are_required_from_the_last_to_the_first() {
    let list = vec![arg(0), arg(1), Expression::LocalVariable(0), Expression::Load { pointer: 2 }];
    let body = vec![
        Statement::Switch {
            selector: 1,
            cases: vec![
                case(SwitchValue::Integer(0), vec![Statement::Store { pointer: 2, value: 0 }]),
                case(SwitchValue::Default, vec![Statement::Barrier(naga::Barrier::STORAGE)]),
            ],
        },
        Statement::Return { value: Some(3) },
    ];
    let m = module(vec![function(list, body)]);
    let mut pruner = Pruner::default();
    analyse(&mut pruner, &m, 0, Some(PartReq::All)).unwrap();
    let req = &pruner.functions[&0];
    assert_eq!(req.exprs_required[&1], PartReq::All);
    match &req.body_required.required_statements[0] {
        StatementReq::Switch { selector, cases } => {
            assert!(*selector);
            assert!(matches!(cases[0].required_statements[0], StatementReq::Barrier()));
            assert!(matches!(cases[1].required_statements[0], StatementReq::Store(true)));
        }
        other => panic!("unexpected {:?}", other),
    }
}

fn calling(callee: usize, argument: usize) -> Function {
    let list = vec![arg(0), arg(1), Expression::CallResult(callee)];
    let body = vec![
        Statement::Call { function: callee, arguments: vec![argument, 1], result: Some(2) },
        Statement::Return { value: Some(2) },
    ];
    function(list, body)
}

#[test]
fn calls_require_what_the_function_requires() {
    let callee = function(vec![arg(0)], vec![Statement::Return { value: Some(0) }]);
    let m = module(vec![callee, calling(0, 0)]);
    let mut pruner = Pruner::default();
    let wanted = part(vec![(2, PartReq::All)]);
    let (needed, context) = analyse(&mut pruner, &m, 1, Some(wanted.clone())).unwrap();
    assert!(needed);
    assert_eq!(context.args, vec![Some(wanted.clone()), None]);
    assert_eq!(pruner.functions[&0].exprs_required[&0], wanted);
    assert!(matches!(
        pruner.functions[&1].body_required.required_statements[0],
        StatementReq::Call { call_required: true, result_required: true }
    ));
}

#[test]
fn a_call_is_asked_for_all_parts_of_its_result() {
    let callee = function(vec![arg(0)], vec![Statement::Return { value: Some(0) }]);
    let list = vec![
        arg(0),
        arg(1),
        Expression::CallResult(0),
        Expression::AccessIndex { base: 2, index: 0 },
        Expression::AccessIndex { base: 2, index: 1 },
        Expression::Binary { op: naga::BinaryOperator::Add, left: 3, right: 4 },
    ];
    let body = vec![
        Statement::Call { function: 0, arguments: vec![0, 1], result: Some(2) },
        Statement::Return { value: Some(5) },
    ];
    let m = module(vec![callee, function(list, body)]);
    let mut pruner = Pruner::default();
    let (_, context) = analyse(&mut pruner, &m, 1, Some(PartReq::All)).unwrap();
    let both = part(vec![(0, PartReq::All), (1, PartReq::All)]);
    assert_eq!(pruner.functions[&1].exprs_required[&2], both);
    assert_eq!(pruner.functions[&0].body_required.context.retval, Some(both.clone()));
    assert_eq!(context.args[0], Some(both));
}

#[test]
fn calls_without_effect_are_not_required() {
    let callee = function(vec![arg(0)], vec![Statement::Return { value: Some(0) }]);
    let m = module(vec![callee, calling(0, 0)]);
    let mut pruner = Pruner::default();
    let (needed, _) = analyse(&mut pruner, &m, 1, None).unwrap();
    assert!(!needed);
    assert!(!pruner.functions[&0].body_required.is_required());
}

#[test]
fn calls_in_a_circle_exceed_any_depth() {
    let m = module(vec![calling(0, 0)]);
    assert!(analyse(&mut Pruner::default(), &m, 0, Some(PartReq::All)).is_none());
}

#[test]
fn calls_of_functions_that_are_missing() {
    let m = module(vec![calling(3, 0)]);
    assert!(analyse(&mut Pruner::default(), &m, 0, Some(PartReq::All)).is_none());
}

#[test]
fn two_passes_are_joined() {
    let m = module(vec![store_to_component(2)]);
    let mut pruner = Pruner::default();
    let (_, one) = analyse(&mut pruner, &m, 0, Some(part(vec![(1, PartReq::All)]))).unwrap();
    let first: Vec<usize> = pruner.functions[&0].exprs_required.keys().copied().collect();
    let (_, other) = analyse(&mut pruner, &m, 0, Some(part(vec![(2, PartReq::All)]))).unwrap();
    let req = &pruner.functions[&0];
    assert!(first.iter().all(|h| req.exprs_required.contains_key(h)));
    assert!(req.body_required.context.contains(&one));
    assert!(req.body_required.context.contains(&other));
    assert_eq!(
        req.exprs_required[&3],
        part(vec![(1, PartReq::All), (2, PartReq::All)])
    );
    assert!(req.exprs_required.contains_key(&2));
    assert!(matches!(req.body_required.required_statements[0], StatementReq::Store(true)));
    assert_eq!(
        req.body_required.context.retval,
        Some(part(vec![(1, PartReq::All), (2, PartReq::All)]))
    );
}

#[test]
fn requirements_for_different_statements_cannot_be_added() {
    let one = module(vec![function(vec![], vec![Statement::Kill])]);
    let other = module(vec![function(vec![], vec![Statement::Break])]);
    let mut pruner = Pruner::default();
    analyse(&mut pruner, &one, 0, None).unwrap();
    assert!(analyse(&mut pruner, &other, 0, None).is_none());
}

fn entry(name: &str, function: Function) -> EntryPoint {
    EntryPoint {
        name: String::from(name),
        stage: naga::ShaderStage::Fragment,
        early_depth_test: None,
        workgroup_size: [0, 0, 0],
        function,
    }
}

#[test]
fn entry_points_are_found_by_name() {
    let m = module(vec![]);
    let a = entry("a", store_to_component(2));
    let b = entry("b", function(vec![], vec![Statement::Kill]));
    let mut pruner = Pruner::default();
    let context = pruner.add_entrypoint(&m, &a, HashMap::new(), Some(PartReq::All));
    assert_eq!(context.args[0], Some(PartReq::All));
    pruner.add_entrypoint(&m, &b, HashMap::new(), None);
    pruner
        .try_add_entrypoint(&m, &a, HashMap::new(), Some(PartReq::Exist), 50)
        .unwrap();
    assert_eq!(pruner.entry_points.len(), 2);
    assert!(pruner.get_entry(&String::from("b")).unwrap().body_required.is_required());
    let found = pruner.get_entry(&String::from("a")).unwrap();
    assert_eq!(found.exprs_required[&3], PartReq::All);
    assert_eq!(found.body_required.context.retval, Some(PartReq::All));
    assert!(pruner.get_entry(&String::from("c")).is_none());
}

#[test]
fn entry_points_that_cannot_be_analysed() {
    let m = module(vec![]);
    let a = entry("a", calling(3, 0));
    let mut pruner = Pruner::default();
    assert!(pruner
        .try_add_entrypoint(&m, &a, HashMap::new(), Some(PartReq::All), 50)
        .is_none());
    assert!(pruner.get_entry(&a.name).is_none());
}
