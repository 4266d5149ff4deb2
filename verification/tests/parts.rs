//! Requirements on values and their parts, and contexts of them.
use naga_prune::context::{RequiredContext, VarRef};
use naga_prune::ir::{
    Block, Function, GlobalVariable, LocalVariable, Module, StructMember, Type, TypeInner,
    VectorSize,
};
use naga_prune::part::PartReq;
use std::collections::{BTreeMap, HashMap};

fn part(list: Vec<(usize, PartReq)>) -> PartReq {
    let mut map = BTreeMap::new();
    for (i, req) in list {
        map.insert(i, req);
    }
    PartReq::Part(map)
}

fn ty(inner: TypeInner) -> Type {
    Type { name: None, inner }
}

fn scalar() -> Type {
    ty(TypeInner::Scalar { kind: naga::ScalarKind::Float, width: 4 })
}

fn member(ty: usize) -> StructMember {
    StructMember { name: None, ty, binding: None, offset: 0 }
}

/// A scalar, a vector of three, a matrix of two columns and three rows, and a
/// structure of a scalar and a vector.
fn types() -> Vec<Type> {
    vec![
        scalar(),
        ty(TypeInner::Vector { size: VectorSize::Tri, kind: naga::ScalarKind::Float, width: 4 }),
        ty(TypeInner::Matrix { columns: VectorSize::Bi, rows: VectorSize::Tri, width: 4 }),
        ty(TypeInner::Struct { members: vec![member(0), member(1)], span: 16 }),
    ]
}

fn all_of(n: usize) -> PartReq {
    part((0..n).map(|i| (i, PartReq::All)).collect())
}

#[test]
fn all_contains_everything() {
    assert!(PartReq::All.contains(&PartReq::All));
    assert!(PartReq::All.contains(&PartReq::Exist));
    assert!(PartReq::All.contains(&all_of(2)));
}

#[test]
fn exist_contains_only_itself() {
    assert!(PartReq::Exist.contains(&PartReq::Exist));
    assert!(!PartReq::Exist.contains(&PartReq::All));
    assert!(!PartReq::Exist.contains(&part(vec![])));
}

#[test]
fn parts_contain_fewer_parts() {
    let one = part(vec![(1, PartReq::All)]);
    let two = part(vec![(1, PartReq::All), (2, PartReq::Exist)]);
    assert!(two.contains(&one));
    assert!(!one.contains(&two));
    assert!(two.contains(&PartReq::Exist));
    assert!(!two.contains(&PartReq::All));
    assert!(!part(vec![(1, PartReq::Exist)]).contains(&one));
}

#[test]
fn contains_is_transitive_through_nested_parts() {
    let a = part(vec![(0, PartReq::All), (1, all_of(2))]);
    let b = part(vec![(1, part(vec![(1, PartReq::All)]))]);
    let c = part(vec![(1, part(vec![(1, PartReq::Exist)]))]);
    assert!(a.contains(&b) && b.contains(&c) && a.contains(&c));
    assert!(!c.contains(&b));
}

#[test]
fn sums_hold_both_sides() {
    let a = part(vec![(0, PartReq::All), (1, PartReq::Exist)]);
    let b = part(vec![(1, part(vec![(2, PartReq::All)])), (3, PartReq::All)]);
    let sum = a.add(&b);
    assert_eq!(
        sum,
        part(vec![(0, PartReq::All), (1, part(vec![(2, PartReq::All)])), (3, PartReq::All)])
    );
    assert_eq!(b.add(&a), sum);
    assert!(sum.contains(&a) && sum.contains(&b));
    assert_eq!(sum.add(&sum), sum);
    assert_eq!(sum.add(&a), sum);
}

#[test]
fn sums_with_all_and_exist() {
    let a = all_of(2);
    assert_eq!(a.add(&PartReq::All), PartReq::All);
    assert_eq!(PartReq::All.add(&a), PartReq::All);
    assert_eq!(a.add(&PartReq::Exist), a);
    assert_eq!(PartReq::Exist.add(&a), a);
    assert_eq!(PartReq::Exist.add(&PartReq::Exist), PartReq::Exist);
}

#[test]
fn sums_can_be_grouped() {
    let a = part(vec![(0, PartReq::Exist)]);
    let b = part(vec![(0, all_of(1)), (1, PartReq::All)]);
    let c = part(vec![(0, part(vec![(4, PartReq::All)]))]);
    assert_eq!(a.add(&b).add(&c), a.add(&b.add(&c)));
}

#[test]
fn whole_values_in_parts() {
    let types = types();
    assert_eq!(PartReq::type_to_parts(0, &types), (PartReq::All, None));
    assert_eq!(PartReq::type_to_parts(1, &types), (all_of(3), None));
    assert_eq!(
        PartReq::type_to_parts(2, &types),
        (part(vec![(0, all_of(3)), (1, all_of(3))]), None)
    );
    assert_eq!(PartReq::type_to_parts(3, &types), (all_of(2), Some(vec![0, 1])));
}

#[test]
fn writing_all_leaves_existence() {
    let types = types();
    assert_eq!(PartReq::All.remove(&PartReq::All, Some(3), &types), Some(PartReq::Exist));
    assert_eq!(all_of(2).remove(&PartReq::All, Some(3), &types), Some(PartReq::Exist));
}

#[test]
fn writing_nothing_leaves_everything() {
    assert_eq!(all_of(2).remove(&PartReq::Exist, None, &types()), Some(all_of(2)));
}

#[test]
fn writing_a_member_downgrades_it() {
    let types = types();
    let written = part(vec![(1, PartReq::All)]);
    assert_eq!(
        PartReq::All.remove(&written, Some(3), &types),
        Some(part(vec![(0, PartReq::All), (1, PartReq::Exist)]))
    );
    assert_eq!(
        part(vec![(1, PartReq::All)]).remove(&written, Some(3), &types),
        Some(part(vec![(1, PartReq::Exist)]))
    );
}

#[test]
fn writing_a_part_of_a_member() {
    let written = part(vec![(1, part(vec![(2, PartReq::All)]))]);
    assert_eq!(
        PartReq::All.remove(&written, Some(3), &types()),
        Some(part(vec![
            (0, PartReq::All),
            (1, part(vec![(0, PartReq::All), (1, PartReq::All), (2, PartReq::Exist)])),
        ]))
    );
}

#[test]
fn writing_a_part_of_a_scalar_changes_nothing() {
    let written = part(vec![(0, PartReq::All)]);
    assert_eq!(PartReq::All.remove(&written, Some(0), &types()), Some(PartReq::All));
    assert_eq!(PartReq::Exist.remove(&written, Some(3), &types()), Some(PartReq::Exist));
}

#[test]
fn writing_a_value_of_unknown_type() {
    let written = part(vec![(0, PartReq::All)]);
    assert_eq!(PartReq::All.remove(&written, None, &types()), Some(PartReq::All));
    assert_eq!(all_of(1).remove(&written, None, &types()), Some(part(vec![(0, PartReq::Exist)])));
}

#[test]
fn writing_needs_a_type_with_the_part() {
    let written = part(vec![(7, PartReq::All)]);
    assert_eq!(part(vec![(7, PartReq::All)]).remove(&written, Some(3), &types()), None);
    assert_eq!(PartReq::All.remove(&written, Some(9), &types()), None);
}

fn context(globals: Vec<(usize, PartReq)>, args: Vec<Option<PartReq>>) -> RequiredContext {
    RequiredContext {
        globals: globals.into_iter().collect(),
        locals: HashMap::new(),
        args,
        retval: None,
    }
}

#[test]
fn contexts_contain_by_variable() {
    let more = context(vec![(0, PartReq::All), (1, all_of(2))], vec![]);
    let less = context(vec![(1, all_of(1))], vec![]);
    assert!(more.contains(&less));
    assert!(!less.contains(&more));
    assert!(more.contains(&RequiredContext::default()));
}

#[test]
fn contexts_contain_locals_and_results() {
    let mut local = RequiredContext::default();
    local.locals.insert(0, PartReq::All);
    assert!(!RequiredContext::default().contains(&local));
    let mut result = RequiredContext::default();
    result.retval = Some(all_of(1));
    assert!(!RequiredContext::default().contains(&result));
    let mut whole = RequiredContext::default();
    whole.retval = Some(PartReq::All);
    assert!(whole.contains(&result));
    assert!(!result.contains(&whole));
}

#[test]
fn contexts_contain_shared_arguments_only() {
    let one = context(vec![], vec![Some(PartReq::All)]);
    let two = context(vec![], vec![Some(PartReq::Exist), Some(PartReq::All)]);
    assert!(one.contains(&two));
    assert!(!two.contains(&one));
    let none = context(vec![], vec![None]);
    assert!(!none.contains(&one));
    assert!(one.contains(&none));
}

#[test]
fn merged_contexts_contain_both() {
    let mut a = context(vec![(0, all_of(1))], vec![None, Some(PartReq::Exist), None]);
    a.retval = Some(all_of(1));
    let mut b = context(
        vec![(0, part(vec![(3, PartReq::All)])), (2, PartReq::All)],
        vec![Some(PartReq::All), Some(PartReq::All)],
    );
    b.locals.insert(5, PartReq::Exist);
    let both = a.merge(&b);
    assert_eq!(both.globals[&0], part(vec![(0, PartReq::All), (3, PartReq::All)]));
    assert_eq!(both.globals[&2], PartReq::All);
    assert_eq!(both.locals[&5], PartReq::Exist);
    assert_eq!(both.args, vec![Some(PartReq::All), Some(PartReq::All)]);
    assert_eq!(both.retval, Some(all_of(1)));
    assert!(both.contains(&a) && both.contains(&b));
    assert_eq!(b.merge(&a), both);
    assert_eq!(both.merge(&both), both);
}

#[test]
fn a_merged_context_is_the_least_that_contains_both() {
    let a = context(vec![(0, all_of(1))], vec![None, Some(PartReq::Exist)]);
    let b = context(vec![(0, part(vec![(3, PartReq::All)]))], vec![Some(PartReq::All), None]);
    let mut c = context(
        vec![(0, PartReq::All), (4, PartReq::Exist)],
        vec![Some(PartReq::All), Some(PartReq::All)],
    );
    c.retval = Some(PartReq::All);
    assert!(c.contains(&a) && c.contains(&b));
    assert!(c.contains(&a.merge(&b)));
    assert!(!a.merge(&b).contains(&c));
}

fn function(locals: Vec<usize>) -> Function {
    Function {
        name: None,
        arguments: vec![],
        result: None,
        local_variables: locals
            .into_iter()
            .map(|ty| LocalVariable { name: None, ty, init: None })
            .collect(),
        expressions: vec![],
        named_expressions: HashMap::new(),
        body: Block { body: vec![] },
    }
}

fn module() -> Module {
    Module {
        types: types(),
        constants: vec![],
        global_variables: vec![GlobalVariable {
            name: None,
            space: naga::AddressSpace::Private,
            binding: None,
            ty: 3,
            init: None,
        }],
        functions: vec![],
        entry_points: vec![],
    }
}

#[test]
fn writes_are_taken_from_contexts() {
    let written = part(vec![(0, PartReq::All)]);
    let mut c = context(vec![(0, PartReq::All)], vec![]);
    c.locals.insert(0, all_of(2));
    assert!(c.remove(&VarRef::Global(0), &written, &module(), &function(vec![1])));
    assert_eq!(c.globals[&0], part(vec![(0, PartReq::Exist), (1, PartReq::All)]));
    assert_eq!(c.locals[&0], all_of(2));
    assert!(c.remove(&VarRef::Local(0), &written, &module(), &function(vec![1])));
    assert_eq!(c.locals[&0], part(vec![(0, PartReq::Exist), (1, PartReq::All)]));
}

#[test]
fn writes_need_a_required_variable_that_exists() {
    let mut c = context(vec![(4, PartReq::All)], vec![]);
    let before = c.clone();
    assert!(!c.remove(&VarRef::Global(0), &PartReq::All, &module(), &function(vec![])));
    assert!(!c.remove(&VarRef::Global(4), &PartReq::All, &module(), &function(vec![])));
    assert!(!c.remove(&VarRef::Local(0), &PartReq::All, &module(), &function(vec![])));
    assert_eq!(c, before);
}

#[test]
fn contexts_contain_what_they_contain_contains() {
    let a = context(vec![(0, PartReq::All)], vec![Some(PartReq::All)]);
    let b = context(vec![(0, all_of(2))], vec![Some(all_of(1))]);
    let c = context(vec![(0, all_of(1))], vec![Some(PartReq::Exist)]);
    assert!(a.contains(&a));
    assert!(a.contains(&b) && b.contains(&c) && a.contains(&c));
    assert!(!c.contains(&b) && !b.contains(&a));
}

#[test]
fn missing_arguments_break_the_chain() {
    let a = context(vec![], vec![None]);
    let b = context(vec![], vec![]);
    let c = context(vec![], vec![Some(PartReq::All)]);
    assert!(a.contains(&b) && b.contains(&c));
    assert!(!a.contains(&c));
}

#[test]
fn writing_requires_no_more() {
    let written = part(vec![(1, part(vec![(2, PartReq::All)]))]);
    for before in [PartReq::All, all_of(2), part(vec![(1, all_of(3))]), PartReq::Exist] {
        let after = before.remove(&written, Some(3), &types()).unwrap();
        assert!(before.contains(&after));
        assert_eq!(after.remove(&written, Some(3), &types()), Some(after));
    }
}
