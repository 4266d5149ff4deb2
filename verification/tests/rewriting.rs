//! What is left of small modules.
use naga_prune::context::RequiredContext;
use naga_prune::ir::{
    ArraySize, Block, Constant, ConstantInner, EntryPoint, Expression, Function, FunctionArgument,
    FunctionResult, GlobalVariable, ImageQuery, LocalVariable, Module, Range, SampleLevel,
    Statement, StructMember, SwitchCase, SwitchValue, Type, TypeInner, VectorSize,
};
use naga_prune::live::Pruner;
use naga_prune::need::{BlockReq, FunctionReq, StatementReq};
use naga_prune::part::PartReq;
use naga_prune::prune::rewrite_block;
use naga_prune::remap::{remap_expr, HandleMaps};
use naga_prune::sizes::{count_module, count_stmts};
use std::collections::{BTreeMap, HashMap, VecDeque};

fn part(list: Vec<(usize, PartReq)>) -> PartReq {
    let mut map = BTreeMap::new();
    for (i, req) in list {
        map.insert(i, req);
    }
    PartReq::Part(map)
}

fn function(expressions: Vec<Expression>, body: Vec<Statement>) -> Function {
    Function {
        name: Some(String::from("f")),
        arguments: vec![
            FunctionArgument { name: None, ty: 1, binding: None },
            FunctionArgument { name: Some(String::from("b")), ty: 1, binding: None },
        ],
        result: Some(FunctionResult { ty: 2, binding: None }),
        local_variables: vec![
            LocalVariable { name: Some(String::from("unused")), ty: 0, init: None },
            LocalVariable { name: Some(String::from("used")), ty: 2, init: Some(1) },
        ],
        expressions,
        named_expressions: HashMap::new(),
        body: Block { body },
    }
}

fn scalar(value: i64) -> Constant {
    Constant {
        name: None,
        specialization: None,
        inner: ConstantInner::Scalar { width: 4, value: naga::ScalarValue::Sint(value) },
    }
}

/// Types: an unsigned integer, a float, a vector, an array of four vectors
/// and a structure of an array. Constants: three numbers and a vector.
fn module(functions: Vec<Function>) -> Module {
    let kind = naga::ScalarKind::Float;
    let ty = |inner| Type { name: None, inner };
    let global = |ty, init| GlobalVariable {
        name: None,
        space: naga::AddressSpace::Private,
        binding: None,
        ty,
        init,
    };
    Module {
        types: vec![
            ty(TypeInner::Scalar { kind: naga::ScalarKind::Uint, width: 4 }),
            ty(TypeInner::Scalar { kind, width: 4 }),
            ty(TypeInner::Vector { size: VectorSize::Bi, kind, width: 4 }),
            ty(TypeInner::Array { base: 2, size: ArraySize::Constant(2), stride: 8 }),
            ty(TypeInner::Struct {
                members: vec![StructMember { name: None, ty: 3, binding: None, offset: 0 }],
                span: 32,
            }),
        ],
        constants: vec![
            scalar(7),
            scalar(1),
            scalar(4),
            Constant {
                name: None,
                specialization: None,
                inner: ConstantInner::Composite { ty: 2, components: vec![1, 1] },
            },
        ],
        global_variables: vec![global(0, Some(0)), global(4, None), global(2, Some(3))],
        functions,
        entry_points: vec![],
    }
}

fn arg(i: u32) -> Expression {
    Expression::FunctionArgument(i)
}

fn rewrite(m: &Module, h: usize, retval: Option<PartReq>) -> Option<Module> {
    let mut pruner = Pruner::default();
    pruner.try_add_function(m, h, HashMap::new(), retval, 50).unwrap();
    pruner.try_rewrite(m)
}

/// The one function that is left.
fn only(m: &Module, retval: Option<PartReq>) -> Option<Function> {
    rewrite(m, 0, retval)?.functions.pop()
}

#[test]
fn nothing_is_left_where_nothing_is_required() {
    let m = module(vec![function(vec![arg(0)], vec![Statement::Return { value: Some(0) }])]);
    let left = Pruner::default().rewrite(&m);
    assert!(left.types.is_empty() && left.constants.is_empty());
    assert!(left.global_variables.is_empty() && left.functions.is_empty());
    assert!(left.entry_points.is_empty());
    assert!(rewrite(&m, 0, None).unwrap().functions.is_empty());
}

#[test]
fn required_expressions_move_up() {
    let list = vec![
        arg(0),
        Expression::Constant(0),
        arg(1),
        Expression::Unary { op: naga::UnaryOperator::Negate, expr: 2 },
    ];
    let body = vec![
        Statement::Emit(Range { start: 3, end: 4 }),
        Statement::Return { value: Some(3) },
    ];
    let mut f = function(list, body);
    f.named_expressions.insert(3, String::from("negated"));
    f.named_expressions.insert(0, String::from("gone"));
    let new = only(&module(vec![f]), Some(PartReq::All)).unwrap();
    assert_eq!(
        new.expressions,
        vec![arg(1), Expression::Unary { op: naga::UnaryOperator::Negate, expr: 0 }]
    );
    assert_eq!(
        new.body.body,
        vec![
            Statement::Emit(Range { start: 1, end: 2 }),
            Statement::Return { value: Some(1) },
        ]
    );
    assert_eq!(new.named_expressions.len(), 1);
    assert_eq!(new.named_expressions[&1], "negated");
    assert!(new.local_variables.is_empty());
    assert_eq!(new.arguments.len(), 2);
    assert_eq!(new.arguments[1].name, Some(String::from("b")));
}

#[test]
fn types_and_constants_move_up() {
    let list = vec![Expression::LocalVariable(1), Expression::Load { pointer: 0 }];
    let m = module(vec![function(list, vec![Statement::Return { value: Some(1) }])]);
    let left = rewrite(&m, 0, Some(PartReq::All)).unwrap();
    assert_eq!(left.types.len(), 2);
    assert!(matches!(left.types[1].inner, TypeInner::Vector { .. }));
    assert_eq!(left.constants, vec![scalar(1)]);
    assert!(left.global_variables.is_empty());
    let f = &left.functions[0];
    assert_eq!(
        f.local_variables,
        vec![LocalVariable { name: Some(String::from("used")), ty: 1, init: Some(0) }]
    );
    assert_eq!(f.expressions[0], Expression::LocalVariable(0));
    assert_eq!(f.result, Some(FunctionResult { ty: 1, binding: None }));
    assert_eq!(f.arguments[0].ty, 0);
}

#[test]
fn what_is_left_uses_what_is_left() {
    let list = vec![
        Expression::GlobalVariable(1),
        Expression::GlobalVariable(2),
        Expression::Load { pointer: 0 },
        Expression::Load { pointer: 1 },
        Expression::Select { condition: 3, accept: 2, reject: 2 },
    ];
    let m = module(vec![function(list, vec![Statement::Return { value: Some(4) }])]);
    let left = rewrite(&m, 0, Some(PartReq::All)).unwrap();
    assert_eq!(left.types.len(), 4);
    assert_eq!(
        left.types[2].inner,
        TypeInner::Array { base: 1, size: ArraySize::Constant(1), stride: 8 }
    );
    match &left.types[3].inner {
        TypeInner::Struct { members, span } => {
            assert_eq!(members[0].ty, 2);
            assert_eq!(*span, 32);
        }
        other => panic!("unexpected {:?}", other),
    }
    for (i, ty) in left.types.iter().enumerate() {
        assert!(left.types[..i].iter().all(|other| other != ty));
    }
    assert_eq!(left.constants.len(), 3);
    assert_eq!(left.constants[0], scalar(1));
    assert_eq!(left.constants[1], scalar(4));
    assert_eq!(
        left.constants[2].inner,
        ConstantInner::Composite { ty: 1, components: vec![0, 0] }
    );
    assert_eq!(left.global_variables.len(), 2);
    assert_eq!((left.global_variables[0].ty, left.global_variables[0].init), (3, None));
    assert_eq!((left.global_variables[1].ty, left.global_variables[1].init), (1, Some(2)));
    assert_eq!(left.functions[0].expressions[1], Expression::GlobalVariable(1));
}

#[test]
fn a_kept_component_stands_for_the_others() {
    let list = vec![
        arg(0),
        arg(1),
        Expression::Compose { ty: 2, components: vec![0, 1] },
    ];
    let m = module(vec![function(list, vec![Statement::Return { value: Some(2) }])]);
    let new = only(&m, Some(part(vec![(1, PartReq::All)]))).unwrap();
    assert_eq!(
        new.expressions,
        vec![arg(1), Expression::Compose { ty: 1, components: vec![0, 0] }]
    );
}

#[test]
fn a_composed_value_needs_a_component() {
    let list = vec![
        arg(0),
        arg(1),
        Expression::Compose { ty: 2, components: vec![0, 1] },
    ];
    let m = module(vec![function(list, vec![Statement::Return { value: Some(2) }])]);
    assert!(only(&m, Some(PartReq::Exist)).is_none());
}

#[test]
fn emitted_expressions_have_to_follow_one_another() {
    let negate = |expr| Expression::Unary { op: naga::UnaryOperator::Negate, expr };
    let list = vec![arg(0), negate(0), negate(0), negate(0)];
    let body = vec![
        Statement::If {
            condition: 2,
            accept: Block { body: vec![Statement::Kill] },
            reject: Block { body: vec![] },
        },
        Statement::Emit(Range { start: 1, end: 4 }),
        Statement::If {
            condition: 1,
            accept: Block { body: vec![Statement::Kill] },
            reject: Block { body: vec![] },
        },
        Statement::Return { value: Some(3) },
    ];
    let m = module(vec![function(list, body)]);
    assert!(only(&m, Some(PartReq::All)).is_none());
}

#[test]
fn statements_without_effect_are_dropped() {
    let list = vec![
        arg(0),
        Expression::LocalVariable(1),
        Expression::Load { pointer: 1 },
        Expression::LocalVariable(0),
    ];
    let body = vec![
        Statement::Block(Block { body: vec![Statement::Store { pointer: 3, value: 0 }] }),
        Statement::Block(Block { body: vec![Statement::Store { pointer: 1, value: 0 }] }),
        Statement::Loop {
            body: Block { body: vec![Statement::Break] },
            continuing: Block { body: vec![] },
            break_if: None,
        },
        Statement::Barrier(naga::Barrier::STORAGE),
        Statement::Return { value: Some(2) },
    ];
    let m = module(vec![function(list, body)]);
    let new = only(&m, Some(PartReq::All)).unwrap();
    assert_eq!(
        new.body.body,
        vec![
            Statement::Block(Block { body: vec![Statement::Store { pointer: 1, value: 0 }] }),
            Statement::Barrier(naga::Barrier::STORAGE),
            Statement::Return { value: Some(2) },
        ]
    );
    assert_eq!(new.expressions.len(), 3);
}

#[test]
fn branches_and_loops_are_rewritten_inside() {
    let list = vec![
        arg(0),
        arg(1),
        Expression::LocalVariable(1),
        Expression::Load { pointer: 2 },
    ];
    let store = || Statement::Store { pointer: 2, value: 1 };
    let body = vec![
        Statement::Loop {
            body: Block {
                body: vec![Statement::If {
                    condition: 0,
                    accept: Block { body: vec![store(), Statement::Continue] },
                    reject: Block { body: vec![] },
                }],
            },
            continuing: Block { body: vec![] },
            break_if: Some(0),
        },
        Statement::Return { value: Some(3) },
    ];
    let m = module(vec![function(list, body)]);
    let new = only(&m, Some(PartReq::All)).unwrap();
    assert_eq!(
        new.body.body[0],
        Statement::Loop {
            body: Block {
                body: vec![Statement::If {
                    condition: 0,
                    accept: Block {
                        body: vec![
                            Statement::Store { pointer: 2, value: 1 },
                            Statement::Continue,
                        ],
                    },
                    reject: Block { body: vec![] },
                }],
            },
            continuing: Block { body: vec![] },
            break_if: Some(0),
        }
    );
}

fn case(value: SwitchValue, body: Vec<Statement>) -> SwitchCase {
    SwitchCase { value, body: Block { body }, fall_through: false }
}

fn switching(first: Vec<Statement>, second: Vec<Statement>) -> Module {
    let list = vec![
        arg(0),
        Expression::LocalVariable(1),
        Expression::Load { pointer: 1 },
    ];
    let body = vec![
        Statement::Switch {
            selector: 0,
            cases: vec![
                case(SwitchValue::Integer(3), first),
                case(SwitchValue::Default, second),
            ],
        },
        Statement::Return { value: Some(2) },
    ];
    module(vec![function(list, body)])
}

#[test]
fn cases_of_the_same_shape_are_rewritten() {
    let store = || Statement::Store { pointer: 1, value: 0 };
    let m = switching(vec![store()], vec![store()]);
    let new = only(&m, Some(PartReq::All)).unwrap();
    assert_eq!(
        new.body.body[0],
        Statement::Switch {
            selector: 0,
            cases: vec![
                case(SwitchValue::Integer(3), vec![store()]),
                case(SwitchValue::Default, vec![store()]),
            ],
        }
    );
}

#[test]
fn cases_of_different_shapes_are_not_rewritten() {
    let m = switching(
        vec![Statement::Store { pointer: 1, value: 0 }],
        vec![Statement::Return { value: None }],
    );
    assert!(only(&m, Some(PartReq::All)).is_none());
}

/// A function that returns its second argument, and one that calls it.
fn calling(arguments: Vec<usize>) -> Module {
    let unused = function(vec![], vec![Statement::Return { value: None }]);
    let callee = function(vec![arg(1)], vec![Statement::Return { value: Some(0) }]);
    let caller = function(
        vec![arg(1), arg(0), Expression::CallResult(1)],
        vec![
            Statement::Call { function: 1, arguments, result: Some(2) },
            Statement::Return { value: Some(2) },
        ],
    );
    module(vec![unused, callee, caller])
}

#[test]
fn functions_move_up() {
    let left = rewrite(&calling(vec![0, 0]), 2, Some(PartReq::All)).unwrap();
    assert_eq!(left.functions.len(), 2);
    assert_eq!(
        left.functions[1].expressions,
        vec![arg(1), Expression::CallResult(0)]
    );
    assert_eq!(
        left.functions[1].body.body[0],
        Statement::Call { function: 0, arguments: vec![0, 0], result: Some(1) }
    );
}

#[test]
fn arguments_that_are_not_required_stop_a_call() {
    assert!(rewrite(&calling(vec![1, 0]), 2, Some(PartReq::All)).is_none());
}

#[test]
fn results_that_are_not_required_are_dropped() {
    let m = module(vec![function(
        vec![arg(0)],
        vec![Statement::Kill, Statement::Return { value: Some(0) }],
    )]);
    let new = only(&m, None).unwrap();
    assert_eq!(new.result, None);
    assert_eq!(new.body.body, vec![Statement::Kill, Statement::Return { value: None }]);
    assert!(new.expressions.is_empty());
}

fn same(n: usize) -> HashMap<usize, usize> {
    (0..n).map(|h| (h, h)).collect()
}

fn same_handles() -> HandleMaps {
    HandleMaps { types: same(9), constants: same(9), globals: same(9), functions: same(9) }
}

/// What is left of a body, where nothing is required of the expressions.
fn left_of(body: Vec<Statement>, needs: Vec<StatementReq>) -> Option<Vec<Statement>> {
    let context = RequiredContext {
        globals: HashMap::new(),
        locals: HashMap::new(),
        args: vec![],
        retval: None,
    };
    let req = FunctionReq {
        body_required: BlockReq { required_statements: VecDeque::from(needs), context },
        exprs_required: HashMap::new(),
    };
    Some(req.prune(&function(vec![], body), &same_handles())?.body.body)
}

#[test]
fn a_return_is_left_with_its_block() {
    let ret = || Statement::Return { value: None };
    assert_eq!(
        left_of(
            vec![Statement::Kill, ret()],
            vec![StatementReq::Kill(), StatementReq::Return(false)]
        ),
        Some(vec![Statement::Kill, ret()])
    );
    assert_eq!(left_of(vec![ret()], vec![StatementReq::Return(false)]), Some(vec![ret()]));
}

#[test]
fn what_is_left_of_a_block_keeps_its_order() {
    let barrier = || Statement::Barrier(naga::Barrier::STORAGE);
    let store = Statement::Store { pointer: 0, value: 0 };
    assert_eq!(
        left_of(
            vec![barrier(), store, Statement::Kill, Statement::Break],
            vec![
                StatementReq::Barrier(),
                StatementReq::Store(false),
                StatementReq::Kill(),
                StatementReq::Break(false),
            ]
        ),
        Some(vec![barrier(), Statement::Kill, Statement::Break])
    );
    assert_eq!(
        left_of(
            vec![Statement::Store { pointer: 0, value: 0 }],
            vec![StatementReq::Store(false)]
        ),
        Some(vec![])
    );
}

#[test]
fn nothing_is_left_in_place_of_an_empty_block() {
    let need = |stmts: Vec<StatementReq>| BlockReq {
        required_statements: VecDeque::from(stmts),
        context: RequiredContext {
            globals: HashMap::new(),
            locals: HashMap::new(),
            args: vec![],
            retval: None,
        },
    };
    let block = |body: Vec<Statement>| Block { body };
    let left = |body: Vec<Statement>, stmts: Vec<StatementReq>| {
        rewrite_block(&block(body), &need(stmts), &HashMap::new(), &HashMap::new())
    };
    let store = || Statement::Store { pointer: 0, value: 0 };
    assert_eq!(left(vec![store()], vec![StatementReq::Store(false)]), Some(None));
    assert_eq!(left(vec![store()], vec![StatementReq::Store(true)]), None);
    assert_eq!(
        left(
            vec![store(), Statement::Kill],
            vec![StatementReq::Store(false), StatementReq::Kill()]
        ),
        Some(Some(block(vec![Statement::Kill])))
    );
    assert_eq!(
        left(
            vec![
                Statement::Block(block(vec![store()])),
                Statement::Barrier(naga::Barrier::STORAGE),
            ],
            vec![
                StatementReq::BlockStmt(need(vec![StatementReq::Store(false)])),
                StatementReq::Barrier(),
            ]
        ),
        Some(Some(block(vec![Statement::Barrier(naga::Barrier::STORAGE)])))
    );
}

#[test]
fn a_return_is_left_in_a_case() {
    let list = vec![arg(0), Expression::GlobalVariable(2)];
    let inside = || {
        vec![Statement::Store { pointer: 1, value: 0 }, Statement::Return { value: None }]
    };
    let body = vec![Statement::Switch {
        selector: 0,
        cases: vec![
            case(SwitchValue::Integer(1), inside()),
            case(SwitchValue::Default, inside()),
        ],
    }];
    let m = module(vec![function(list, body)]);
    let mut pruner = Pruner::default();
    let mut globals = HashMap::new();
    globals.insert(2, PartReq::All);
    pruner.try_add_function(&m, 0, globals, None, 50).unwrap();
    let left = pruner.try_rewrite(&m).unwrap();
    match &left.functions[0].body.body[0] {
        Statement::Switch { cases, .. } => {
            assert_eq!(cases.len(), 2);
            assert!(cases
                .iter()
                .all(|case| case.body.body[1] == Statement::Return { value: None }));
        }
        other => panic!("unexpected {:?}", other),
    }
}

#[test]
fn handles_that_stay_leave_expressions_as_they_are() {
    let list = vec![
        Expression::Access { base: 0, index: 1 },
        Expression::AccessIndex { base: 3, index: 7 },
        Expression::Constant(2),
        Expression::Compose { ty: 1, components: vec![4, 0, 4] },
        arg(3),
        Expression::GlobalVariable(5),
        Expression::LocalVariable(2),
        Expression::ImageSample {
            image: 0,
            sampler: 1,
            gather: None,
            coordinate: 2,
            array_index: Some(3),
            offset: Some(4),
            level: SampleLevel::Gradient { x: 5, y: 6 },
            depth_ref: None,
        },
        Expression::ImageLoad {
            image: 1,
            coordinate: 2,
            array_index: None,
            sample: Some(3),
            level: Some(4),
        },
        Expression::ImageQuery { image: 2, query: ImageQuery::Size { level: Some(1) } },
        Expression::Select { condition: 0, accept: 1, reject: 2 },
        Expression::Math {
            fun: naga::MathFunction::Clamp,
            arg: 3,
            arg1: Some(1),
            arg2: Some(0),
            arg3: None,
        },
        Expression::As { expr: 8, kind: naga::ScalarKind::Float, convert: Some(4) },
        Expression::CallResult(6),
        Expression::ArrayLength(1),
    ];
    for expr in list {
        assert_eq!(remap_expr(&expr, &same_handles(), &same(9), &same(9)), Some(expr));
    }
    let empty = Expression::Compose { ty: 1, components: vec![] };
    assert_eq!(remap_expr(&empty, &same_handles(), &same(9), &same(9)), None);
}

#[test]
fn modules_that_lack_something() {
    let list = vec![arg(0), Expression::Compose { ty: 9, components: vec![0] }];
    let m = module(vec![function(list, vec![Statement::Return { value: Some(1) }])]);
    assert!(only(&m, Some(PartReq::All)).is_none());
    let mut m = calling(vec![0, 0]);
    m.types[2].inner = TypeInner::Pointer { base: 9, space: naga::AddressSpace::Private };
    assert!(rewrite(&m, 2, Some(PartReq::All)).is_none());
}

#[test]
fn entry_points_are_kept_by_name() {
    let mut m = module(vec![]);
    for name in ["a", "b", "c"] {
        m.entry_points.push(EntryPoint {
            name: String::from(name),
            stage: naga::ShaderStage::Compute,
            early_depth_test: None,
            workgroup_size: [8, 4, 1],
            function: function(vec![arg(0)], vec![Statement::Return { value: Some(0) }]),
        });
    }
    let mut pruner = Pruner::default();
    pruner.add_entrypoint(&m, &m.entry_points[2], HashMap::new(), Some(PartReq::All));
    pruner.add_entrypoint(&m, &m.entry_points[0], HashMap::new(), None);
    let left = pruner.rewrite(&m);
    assert_eq!(left.entry_points.len(), 2);
    assert_eq!(left.entry_points[0].name, "a");
    assert_eq!(
        left.entry_points[0].function.body.body,
        vec![Statement::Return { value: None }]
    );
    assert_eq!(left.entry_points[1].name, "c");
    assert_eq!(left.entry_points[1].stage, naga::ShaderStage::Compute);
    assert_eq!(left.entry_points[1].workgroup_size, [8, 4, 1]);
    assert_eq!(
        left.entry_points[1].function.body.body,
        vec![Statement::Return { value: Some(0) }]
    );
}

#[test]
fn statements_are_counted_in_their_blocks() {
    let kill = || Block { body: vec![Statement::Kill] };
    let block = Block {
        body: vec![
            Statement::Kill,
            Statement::Block(Block { body: vec![Statement::Kill, Statement::Break] }),
            Statement::If { condition: 0, accept: kill(), reject: Block { body: vec![] } },
            Statement::Loop { body: kill(), continuing: kill(), break_if: None },
            Statement::Switch {
                selector: 0,
                cases: vec![case(SwitchValue::Default, vec![Statement::Kill])],
            },
        ],
    };
    assert_eq!(count_stmts(&block), Some(7));
    let mut m = module(vec![function(vec![arg(0), arg(1)], vec![Statement::Kill])]);
    m.functions[0].body = block;
    assert_eq!(count_module(&m), Some((2, 7)));
}

#[test]
fn what_is_left_is_no_larger() {
    let m = calling(vec![0, 0]);
    let left = rewrite(&m, 2, Some(PartReq::All)).unwrap();
    assert!(left.types.len() <= m.types.len());
    assert!(left.constants.len() <= m.constants.len());
    assert!(left.functions.len() < m.functions.len());
    let (exprs_now, stmts_now) = count_module(&left).unwrap();
    let (exprs_before, stmts_before) = count_module(&m).unwrap();
    assert_eq!((exprs_now, exprs_before), (3, 4));
    assert_eq!((stmts_now, stmts_before), (3, 4));
}
