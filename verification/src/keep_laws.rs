//! Laws of what is left: the interface of functions and entry points is
//! unchanged, and what is kept of a module is what it was, with new handles.
use crate::block_laws::{block_matched, kept_places, law_block_left, same_expression};
use crate::derive::{constant_moved, type_moved};
use crate::ir::{
    ArraySize, Constant, ConstantInner, Expression, Function, ImageQuery, Module, Type, TypeInner,
};
use crate::need::{shorter, FnNeed};
use crate::prune::{moved_locals, pruned, rewritten};
use crate::remap::{
    compacted, first_good, has_each, lemma_compacted, lemma_kept_of, lemma_operands, lemma_rank,
    operands, rank, remapped, Handles,
};
use crate::rewrite::{kept_entries, kept_functions, module_rewritten, new_handles, roots};
use crate::uses::kept_for;
use vstd::prelude::*;

verus! {

/// A pruned function keeps its name and its arguments, with their names and
/// bindings. Its result is kept with its binding where it is required, and
/// dropped otherwise.
pub proof fn law_interface_kept(
    need: FnNeed,
    function: Function,
    handles: Handles,
    new: Function,
)
    requires
        pruned(need, function, handles, new),
    ensures
        new.name == function.name,
        new.arguments@.len() == function.arguments@.len(),
        forall|i: int|
            0 <= i < function.arguments@.len() ==> {
                &&& (#[trigger] new.arguments@[i]).name == function.arguments@[i].name
                &&& new.arguments@[i].binding == function.arguments@[i].binding
                &&& new.arguments@[i].ty == handles.types[function.arguments@[i].ty]
            },
        need.body.context.retval is None ==> new.result is None,
        need.body.context.retval is Some ==> {
            &&& new.result is Some <==> function.result is Some
            &&& function.result is Some ==> {
                &&& new.result->0.binding == function.result->0.binding
                &&& new.result->0.ty == handles.types[function.result->0.ty]
            }
        },
{
}

/// A pruned function has the required local variables, in their order, each
/// with its name and with the new handles of its type and its first value.
pub proof fn law_locals_kept(
    need: FnNeed,
    function: Function,
    handles: Handles,
    new: Function,
    lv: usize,
)
    requires
        pruned(need, function, handles, new),
        lv < function.local_variables@.len(),
        need.body.context.locals.contains_key(lv),
    ensures
        ({
            let k = rank(need.body.context.locals.dom(), lv as nat) as int;
            let local = function.local_variables@[lv as int];
            &&& 0 <= k < new.local_variables@.len()
            &&& new.local_variables@[k].name == local.name
            &&& new.local_variables@[k].ty == handles.types[local.ty]
            &&& new.local_variables@[k].init is Some <==> local.init is Some
            &&& local.init matches Some(c) ==> new.local_variables@[k].init == Some(
                handles.constants[c],
            )
        }),
        new.local_variables@.len() == rank(
            need.body.context.locals.dom(),
            function.local_variables@.len(),
        ),
{
    let locals = need.body.context.locals.dom();
    assert(function.local_variables@.len() == function.local_variables.len());
    assert(locals.contains(lv));
    lemma_kept_of(
        moved_locals(function.local_variables@, handles),
        locals,
        function.local_variables@.len(),
    );
}

/// A pruned function has the required expressions, in their order, and the
/// names of those that have one.
pub proof fn law_exprs_kept(
    need: FnNeed,
    function: Function,
    handles: Handles,
    new: Function,
    h: usize,
)
    requires
        pruned(need, function, handles, new),
        h < function.expressions@.len(),
        need.exprs.contains_key(h),
    ensures
        ({
            let required = need.exprs.dom();
            let k = rank(required, h as nat);
            let old_expr = function.expressions@[h as int];
            &&& k < new.expressions@.len() == rank(required, function.expressions@.len())
            &&& same_kind(old_expr, new.expressions@[k as int])
            &&& remapped(
                old_expr,
                handles,
                compacted(
                    need.body.context.locals.dom(),
                    function.local_variables@.len(),
                ),
                compacted(required, h as nat),
                new.expressions@[k as int],
            )
            &&& function.named_expressions@.contains_key(h) ==> {
                &&& new.named_expressions@.contains_key(k as usize)
                &&& new.named_expressions@[k as usize] == function.named_expressions@[h]
            }
        }),
{
    let required = need.exprs.dom();
    let total = function.expressions@.len();
    assert(total == function.expressions.len());
    assert(required.contains(h));
    lemma_compacted(required, total);
    lemma_rank(required, h as nat, total);
    assert(compacted(required, total).contains_key(h));
}

/// Each name of an expression of a pruned function is that of a required
/// expression.
pub proof fn law_names_kept(
    need: FnNeed,
    function: Function,
    handles: Handles,
    new: Function,
    k: usize,
)
    requires
        pruned(need, function, handles, new),
        new.named_expressions@.contains_key(k),
    ensures
        exists|h: usize|
            function.named_expressions@.contains_key(h) && #[trigger] need.exprs.contains_key(h)
                && h < function.expressions@.len() && rank(need.exprs.dom(), h as nat) == k
                && new.named_expressions@[k] == function.named_expressions@[h],
{
    let required = need.exprs.dom();
    let total = function.expressions@.len();
    assert(total == function.expressions.len());
    let exprs = compacted(required, total);
    lemma_compacted(required, total);
    let h = choose|h: usize|
        function.named_expressions@.contains_key(h) && #[trigger] exprs.contains_key(h) && exprs[h]
            == k;
    assert(exprs.contains_key(h));
    assert(need.exprs.contains_key(h));
}

/// The statements of a pruned function are those of its body that are kept, in
/// their order.
pub proof fn law_body_kept(need: FnNeed, function: Function, handles: Handles, new: Function)
    requires
        pruned(need, function, handles, new),
    ensures
        ({
            let exprs = compacted(need.exprs.dom(), function.expressions@.len());
            let n = shorter(function.body.body@.len(), need.body.stmts.len());
            let places = kept_places(function.body.body@, need.body.stmts, n);
            &&& places.len() == new.body.body@.len()
            &&& forall|i: int|
                0 <= i < places.len() ==> 0 <= #[trigger] places[i] < n && rewritten(
                    function.body.body@[places[i]],
                    need.body.stmts[places[i]],
                    need.body.context.retval is Some,
                    exprs,
                    handles.functions,
                    new.body.body@[i],
                )
            &&& block_matched(function.body, need.body) && need.body.is_required()
                ==> new.body.body@.len() > 0
        }),
{
    law_block_left(
        function.body,
        need.body,
        compacted(need.exprs.dom(), function.expressions@.len()),
        handles.functions,
        new.body,
    );
}

/// Whether two expressions are of one kind, and are the same in all that is no
/// handle.
pub open spec fn same_kind(a: Expression, b: Expression) -> bool {
    match (a, b) {
        (Expression::Access { .. }, Expression::Access { .. }) => true,
        (
            Expression::AccessIndex { index: i, .. },
            Expression::AccessIndex { index: j, .. },
        ) => i == j,
        (Expression::Constant(_), Expression::Constant(_)) => true,
        (Expression::Splat { size: m, .. }, Expression::Splat { size: n, .. }) => m == n,
        (
            Expression::Swizzle { size: m, pattern: p, .. },
            Expression::Swizzle { size: n, pattern: q, .. },
        ) => m == n && p == q,
        (
            Expression::Compose { components: p, .. },
            Expression::Compose { components: q, .. },
        ) => p@.len() == q@.len(),
        (Expression::FunctionArgument(i), Expression::FunctionArgument(j)) => i == j,
        (Expression::GlobalVariable(_), Expression::GlobalVariable(_)) => true,
        (Expression::LocalVariable(_), Expression::LocalVariable(_)) => true,
        (Expression::Load { .. }, Expression::Load { .. }) => true,
        (
            Expression::ImageSample {
                gather: g,
                array_index: i,
                offset: o,
                level: l,
                depth_ref: d,
                ..
            },
            Expression::ImageSample {
                gather: g2,
                array_index: i2,
                offset: o2,
                level: l2,
                depth_ref: d2,
                ..
            },
        ) => {
            &&& g == g2
            &&& (i is Some <==> i2 is Some)
            &&& (o is Some <==> o2 is Some)
            &&& (d is Some <==> d2 is Some)
            &&& (l is Auto <==> l2 is Auto)
            &&& (l is Zero <==> l2 is Zero)
            &&& (l is Exact <==> l2 is Exact)
            &&& (l is Bias <==> l2 is Bias)
        },
        (
            Expression::ImageLoad { array_index: i, sample: s, level: l, .. },
            Expression::ImageLoad { array_index: i2, sample: s2, level: l2, .. },
        ) => {
            &&& (i is Some <==> i2 is Some)
            &&& (s is Some <==> s2 is Some)
            &&& (l is Some <==> l2 is Some)
        },
        (
            Expression::ImageQuery { query: q, .. },
            Expression::ImageQuery { query: q2, .. },
        ) => match (q, q2) {
            (ImageQuery::Size { level: l }, ImageQuery::Size { level: l2 }) => l is Some <==> l2
                is Some,
            _ => q == q2,
        },
        (Expression::Unary { op: p, .. }, Expression::Unary { op: q, .. }) => p == q,
        (Expression::Binary { op: p, .. }, Expression::Binary { op: q, .. }) => p == q,
        (Expression::Select { .. }, Expression::Select { .. }) => true,
        (
            Expression::Derivative { axis: p, .. },
            Expression::Derivative { axis: q, .. },
        ) => p == q,
        (
            Expression::Relational { fun: p, .. },
            Expression::Relational { fun: q, .. },
        ) => p == q,
        (
            Expression::Math { fun: p, arg1: x, arg2: y, arg3: z, .. },
            Expression::Math { fun: q, arg1: x2, arg2: y2, arg3: z2, .. },
        ) => {
            &&& p == q
            &&& (x is Some <==> x2 is Some)
            &&& (y is Some <==> y2 is Some)
            &&& (z is Some <==> z2 is Some)
        },
        (
            Expression::As { kind: p, convert: c, .. },
            Expression::As { kind: q, convert: d, .. },
        ) => p == q && c == d,
        (Expression::CallResult(_), Expression::CallResult(_)) => true,
        (Expression::AtomicResult { .. }, Expression::AtomicResult { .. }) => a == b,
        (Expression::ArrayLength(_), Expression::ArrayLength(_)) => true,
        _ => false,
    }
}

/// Whether `back` leads from the new handle of a handle to the handle.
pub open spec fn undoes(back: Map<usize, usize>, map: Map<usize, usize>, h: usize) -> bool {
    map.contains_key(h) && back.contains_key(map[h]) && back[map[h]] == h
}

/// Whether new handles can be undone, for all that an expression names.
pub open spec fn all_undone(
    expr: Expression,
    handles: Handles,
    locals: Map<usize, usize>,
    exprs: Map<usize, usize>,
    back_handles: Handles,
    back_locals: Map<usize, usize>,
    back_exprs: Map<usize, usize>,
) -> bool {
    &&& forall|i: int|
        0 <= i < operands(expr).len() ==> undoes(back_exprs, exprs, #[trigger] operands(expr)[i])
    &&& match expr {
        Expression::Constant(c) => undoes(back_handles.constants, handles.constants, c),
        Expression::Compose { ty, .. } => undoes(back_handles.types, handles.types, ty),
        Expression::GlobalVariable(gv) => undoes(back_handles.globals, handles.globals, gv),
        Expression::LocalVariable(lv) => undoes(back_locals, locals, lv),
        Expression::ImageSample { offset, .. } => offset is Some ==> undoes(
            back_handles.constants,
            handles.constants,
            offset->0,
        ),
        Expression::CallResult(f) => undoes(back_handles.functions, handles.functions, f),
        _ => true,
    }
}

/// An expression that is rewritten with new handles, and then with the old
/// handles in place of the new ones, is the expression that it was. A composed
/// value has to have a component.
pub proof fn law_remap_back(
    expr: Expression,
    handles: Handles,
    locals: Map<usize, usize>,
    exprs: Map<usize, usize>,
    back_handles: Handles,
    back_locals: Map<usize, usize>,
    back_exprs: Map<usize, usize>,
    new: Expression,
    again: Expression,
)
    requires
        all_undone(expr, handles, locals, exprs, back_handles, back_locals, back_exprs),
        remapped(expr, handles, locals, exprs, new),
        remapped(new, back_handles, back_locals, back_exprs, again),
    ensures
        same_expression(expr, again),
{
    let ops = operands(expr);
    let good = Map::<usize, usize>::new(|h: usize| undoes(back_exprs, exprs, h), |h: usize| h);
    assert forall|i: int| 0 <= i < ops.len() implies good.contains_key(#[trigger] ops[i]) by {
        assert(undoes(back_exprs, exprs, ops[i]));
    }
    assert(has_each(good, ops));
    lemma_operands(expr, good);
    if let Expression::Compose { ty, components } = expr {
        if let Expression::Compose { components: moved_components, .. } = new {
            if let Expression::Compose { components: last_components, .. } = again {
                assert forall|i: int| 0 <= i < components@.len() implies last_components@[i]
                    == components@[i] by {
                    assert(undoes(back_exprs, exprs, ops[i]));
                    assert(moved_components@[i] == exprs[components@[i]]);
                }
                assert(last_components@ =~= components@);
            }
        }
    }
}

/// In a composed value each kept component is where it was, and a component
/// that is not kept is replaced by one that is.
pub proof fn law_compose_kept(
    ty: usize,
    components: Vec<usize>,
    handles: Handles,
    locals: Map<usize, usize>,
    exprs: Map<usize, usize>,
    new: Expression,
)
    requires
        remapped(Expression::Compose { ty, components }, handles, locals, exprs, new),
    ensures
        new matches Expression::Compose { ty: new_ty, components: left } && {
            &&& new_ty == handles.types[ty]
            &&& left@.len() == components@.len()
            &&& forall|i: int|
                0 <= i < left@.len() ==> {
                    &&& exprs.contains_key(components@[i]) ==> #[trigger] left@[i]
                        == exprs[components@[i]]
                    &&& is_new_handle(exprs, components@, left@[i])
                }
        },
{
    if let Expression::Compose { components: left, .. } = new {
        lemma_first_good_new(exprs, components@, components@.len());
        assert forall|i: int| 0 <= i < left@.len() implies {
            &&& exprs.contains_key(components@[i]) ==> #[trigger] left@[i] == exprs[components@[i]]
            &&& is_new_handle(exprs, components@, left@[i])
        } by {
            if exprs.contains_key(components@[i]) {
                assert(left@[i] == exprs[components@[i]]);
            }
        }
    }
}

/// Whether `new` is the new handle of one of the handles.
pub open spec fn is_new_handle(map: Map<usize, usize>, handles: Seq<usize>, new: usize) -> bool {
    exists|j: int|
        0 <= j < handles.len() && map.contains_key(#[trigger] handles[j]) && map[handles[j]] == new
}

/// The first good handle is a new handle.
proof fn lemma_first_good_new(map: Map<usize, usize>, handles: Seq<usize>, n: nat)
    requires
        n <= handles.len(),
    ensures
        first_good(map, handles, n) matches Some(good) ==> is_new_handle(map, handles, good),
    decreases n,
{
    if n > 0 {
        lemma_first_good_new(map, handles, (n - 1) as nat);
        if map.contains_key(handles[n - 1]) {
            assert(map.contains_key(handles[n - 1]) && map[handles[n - 1]] == map[handles[n - 1]]);
        }
    }
}

/// New handles are given in the order of the kept handles, from zero on.
pub proof fn law_handles_in_order(kept: Set<usize>, n: nat, g: usize, h: usize)
    requires
        n <= usize::MAX,
    ensures
        compacted(kept, n).contains_key(h) <==> h < n && kept.contains(h),
        g < h && compacted(kept, n).contains_key(g) && compacted(kept, n).contains_key(h)
            ==> compacted(kept, n)[g] < compacted(kept, n)[h],
        compacted(kept, n).contains_key(h) ==> compacted(kept, n)[h] <= h,
        compacted(kept, n).contains_key(h) && (forall|k: usize|
            k < h ==> #[trigger] kept.contains(k)) ==> compacted(kept, n)[h] == h,
{
    lemma_compacted(kept, n);
    lemma_rank_all(kept, h as nat);
    if g < h {
        lemma_rank(kept, g as nat, h as nat);
    }
}

/// The number of kept handles below one is no larger than it, and is it where
/// all are kept.
proof fn lemma_rank_all(kept: Set<usize>, n: nat)
    requires
        n <= usize::MAX,
    ensures
        rank(kept, n) <= n,
        (forall|k: usize| k < n ==> #[trigger] kept.contains(k)) ==> rank(kept, n) == n,
    decreases n,
{
    if n > 0 {
        lemma_rank_all(kept, (n - 1) as nat);
        if forall|k: usize| k < n ==> #[trigger] kept.contains(k) {
            assert(kept.contains((n - 1) as usize));
        }
    }
}

/// A kept type is what it was, with new handles of the types and constants that
/// it names.
pub proof fn law_type_kept(ty: Type, handles: Handles, new: Type)
    requires
        type_moved(ty, handles, new),
    ensures
        new.name == ty.name,
        match ty.inner {
            TypeInner::Pointer { base, space } => {
                &&& new.inner matches TypeInner::Pointer { base: b, space: s }
                &&& b == handles.types[base]
                &&& s == space
            },
            TypeInner::Array { base, size, stride } => {
                &&& new.inner matches TypeInner::Array { base: b, size: n, stride: s }
                &&& b == handles.types[base]
                &&& s == stride
                &&& n is Dynamic <==> size is Dynamic
                &&& size matches ArraySize::Constant(c) ==> n == ArraySize::Constant(
                    handles.constants[c],
                )
            },
            TypeInner::BindingArray { base, size } => {
                &&& new.inner matches TypeInner::BindingArray { base: b, size: n }
                &&& b == handles.types[base]
                &&& n is Dynamic <==> size is Dynamic
                &&& size matches ArraySize::Constant(c) ==> n == ArraySize::Constant(
                    handles.constants[c],
                )
            },
            TypeInner::Struct { members, span } => {
                &&& new.inner matches TypeInner::Struct { members: m, span: s }
                &&& s == span
                &&& m@.len() == members@.len()
                &&& forall|i: int|
                    0 <= i < m@.len() ==> {
                        &&& (#[trigger] m@[i]).name == members@[i].name
                        &&& m@[i].ty == handles.types[members@[i].ty]
                        &&& m@[i].binding == members@[i].binding
                        &&& m@[i].offset == members@[i].offset
                    }
            },
            _ => new.inner == ty.inner,
        },
{
}

/// A kept constant is what it was, with new handles of the types and constants
/// that it names.
pub proof fn law_constant_kept(constant: Constant, handles: Handles, new: Constant)
    requires
        constant_moved(constant, handles, new),
    ensures
        new.name == constant.name,
        new.specialization == constant.specialization,
        match constant.inner {
            ConstantInner::Scalar { .. } => new.inner == constant.inner,
            ConstantInner::Composite { ty, components } => {
                &&& new.inner matches ConstantInner::Composite { ty: t, components: c }
                &&& t == handles.types[ty]
                &&& c@.len() == components@.len()
                &&& forall|i: int|
                    0 <= i < c@.len() ==> #[trigger] c@[i] == handles.constants[components@[i]]
            },
        },
{
}

/// What is left of a module has the kept global variables, in their order, each
/// with its name, address space and binding, and with the new handles of its
/// type and first value.
pub proof fn law_globals_kept(
    functions: Map<usize, FnNeed>,
    entries: Map<Seq<char>, FnNeed>,
    source: Module,
    new: Module,
    gv: usize,
)
    requires
        module_rewritten(functions, entries, source, new),
        new_handles(functions, entries, source).globals.contains_key(gv),
    ensures
        ({
            let handles = new_handles(functions, entries, source);
            let k = handles.globals[gv] as int;
            let global = source.global_variables@[gv as int];
            &&& gv < source.global_variables@.len()
            &&& 0 <= k < new.global_variables@.len()
            &&& new.global_variables@[k].name == global.name
            &&& new.global_variables@[k].space == global.space
            &&& new.global_variables@[k].binding == global.binding
            &&& new.global_variables@[k].ty == handles.types[global.ty]
            &&& new.global_variables@[k].init is Some <==> global.init is Some
            &&& global.init matches Some(c) ==> new.global_variables@[k].init == Some(
                handles.constants[c],
            )
        }),
{
    let kept = kept_for(source, roots(functions, entries, source)).globals;
    assert(source.global_variables@.len() == source.global_variables.len());
    lemma_compacted(kept, source.global_variables@.len());
    assert(kept.contains(gv));
}

/// What is left of a module has the kept types and constants, in their order.
pub proof fn law_items_kept(
    functions: Map<usize, FnNeed>,
    entries: Map<Seq<char>, FnNeed>,
    source: Module,
    new: Module,
    h: usize,
)
    requires
        module_rewritten(functions, entries, source, new),
    ensures
        ({
            let handles = new_handles(functions, entries, source);
            &&& handles.types.contains_key(h) ==> {
                &&& h < source.types@.len()
                &&& handles.types[h] < new.types@.len()
                &&& type_moved(
                    source.types@[h as int],
                    handles,
                    new.types@[handles.types[h] as int],
                )
            }
            &&& handles.constants.contains_key(h) ==> {
                &&& h < source.constants@.len()
                &&& handles.constants[h] < new.constants@.len()
                &&& constant_moved(
                    source.constants@[h as int],
                    handles,
                    new.constants@[handles.constants[h] as int],
                )
            }
        }),
{
    let kept = kept_for(source, roots(functions, entries, source));
    assert(source.types@.len() == source.types.len());
    assert(source.constants@.len() == source.constants.len());
    lemma_compacted(kept.types, source.types@.len());
    lemma_compacted(kept.constants, source.constants@.len());
    let handles = new_handles(functions, entries, source);
    if handles.types.contains_key(h) {
        assert(kept.types.contains(h));
    }
    if handles.constants.contains_key(h) {
        assert(kept.constants.contains(h));
    }
}

/// What is left of a module has each entry point of which something is
/// required, and no other, in their order: with its name, stage, depth test and
/// workgroup size, and with the name, arguments and bindings of its function.
pub proof fn law_entries_kept(
    functions: Map<usize, FnNeed>,
    entries: Map<Seq<char>, FnNeed>,
    source: Module,
    new: Module,
    i: usize,
)
    requires
        module_rewritten(functions, entries, source, new),
        i < source.entry_points@.len(),
        entries.contains_key(source.entry_points@[i as int].name@),
    ensures
        ({
            let kept = kept_entries(entries, source.entry_points@);
            let k = rank(kept, i as nat) as int;
            let entry = source.entry_points@[i as int];
            let need = entries[entry.name@];
            &&& 0 <= k < new.entry_points@.len() == rank(kept, source.entry_points@.len())
            &&& new.entry_points@[k].name@ == entry.name@
            &&& new.entry_points@[k].stage == entry.stage
            &&& new.entry_points@[k].early_depth_test == entry.early_depth_test
            &&& new.entry_points@[k].workgroup_size == entry.workgroup_size
            &&& new.entry_points@[k].function.name == entry.function.name
            &&& new.entry_points@[k].function.arguments@.len() == entry.function.arguments@.len()
            &&& forall|a: int|
                0 <= a < entry.function.arguments@.len() ==> (
                #[trigger] new.entry_points@[k].function.arguments@[a]).binding
                    == entry.function.arguments@[a].binding
            &&& need.body.context.retval is Some && entry.function.result is Some ==> {
                &&& new.entry_points@[k].function.result is Some
                &&& new.entry_points@[k].function.result->0.binding
                    == entry.function.result->0.binding
            }
        }),
        forall|j: usize|
            #![trigger kept_entries(entries, source.entry_points@).contains(j)]
            kept_entries(entries, source.entry_points@).contains(j) <==> j
                < source.entry_points@.len() && entries.contains_key(
                source.entry_points@[j as int].name@,
            ),
{
    let kept = kept_entries(entries, source.entry_points@);
    let entry = source.entry_points@[i as int];
    let k = rank(kept, i as nat) as int;
    assert(source.entry_points@.len() == source.entry_points.len());
    assert(kept.contains(i));
    lemma_rank(kept, i as nat, source.entry_points@.len());
    law_interface_kept(
        entries[entry.name@],
        entry.function,
        new_handles(functions, entries, source),
        new.entry_points@[k].function,
    );
}

/// What is left of a module has each function whose body is required, and no
/// other, in their order, pruned to what is required of it.
pub proof fn law_functions_kept(
    functions: Map<usize, FnNeed>,
    entries: Map<Seq<char>, FnNeed>,
    source: Module,
    new: Module,
    h: usize,
)
    requires
        module_rewritten(functions, entries, source, new),
        h < source.functions@.len(),
    ensures
        ({
            let handles = new_handles(functions, entries, source);
            let is_kept = functions.contains_key(h) && exists|i: int|
                0 <= i < functions[h].body.stmts.len() && (
                #[trigger] functions[h].body.stmts[i]).required();
            &&& handles.functions.contains_key(h) <==> is_kept
            &&& is_kept ==> {
                let k = handles.functions[h] as int;
                &&& 0 <= k < new.functions@.len()
                &&& pruned(functions[h], source.functions@[h as int], handles, new.functions@[k])
                &&& new.functions@[k].name == source.functions@[h as int].name
            }
        }),
        new.functions@.len() == rank(kept_functions(functions), source.functions@.len()),
{
    let kept = kept_functions(functions);
    assert(source.functions@.len() == source.functions.len());
    lemma_compacted(kept, source.functions@.len());
    let handles = new_handles(functions, entries, source);
    if handles.functions.contains_key(h) {
        assert(kept.contains(h));
    }
}

} // verus!
