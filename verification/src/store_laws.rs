//! Laws of stores: what is required of the stored value, and what is left of
//! the requirement on the variable.
use crate::ask_laws::{
    asks, at_path, holds, law_contains_asks, law_resolved, law_stored_asks, leads_to,
};
use crate::context::{var_type, Context, VarRef};
use crate::demand_laws::{all_met, law_demands_required};
use crate::expr::{demands, need_all, need_expr, touched};
use crate::flow::{image_operands, stmt_flow, store_flow};
use crate::ir::{Expression, Function, Module, Statement, Type};
use crate::live::Live;
use crate::need::StmtNeed;
use crate::part::{
    covers, left_of, lemma_bare_parts, lemma_contains_parts, lemma_remove_parts, members_of, only,
    opened, part_type, Req,
};
use crate::part_laws::{law_contains_add, law_contains_reflexive};
use crate::store::{
    at_index, is_path, lemma_only_path, lemma_resolved_path, part_below, resolved, stored,
};
use vstd::prelude::*;

verus! {

/// A store is required for some of the value, or not at all. It is not where
/// the variable is not required, or only to exist; it is for all of the value
/// where all of the variable is; and where it is to the whole variable, the
/// value is required as the variable is.
pub proof fn law_stored(required: Option<Req>, target: Req)
    ensures
        stored(required, target) != Some(Req::Exist),
        required is None || required == Some(Req::Exist) ==> stored(required, target) is None,
        required == Some(Req::All) && !(target is Exist) ==> stored(required, target) == Some(
            Req::All,
        ),
        target is All && required is Some && required->0 is Part ==> stored(required, target)
            == required,
        target is Exist ==> stored(required, target) is None,
    decreases target,
{
    if let (Some(Req::Part(parts)), Req::Part(targets)) = (required, target) {
        let i = targets.dom().choose();
        if targets.contains_key(i) {
            law_stored(at_index(parts, i), targets[i]);
        }
    }
}

/// Whether an expression leads to a variable by indices that are known, if by
/// any.
pub open spec fn is_constant_path(function: Function, depth: nat, h: usize) -> bool
    decreases depth,
{
    depth > 0 && h < function.expressions.len() && match function.expressions[h as int] {
        Expression::AccessIndex { base, .. } => is_constant_path(
            function,
            (depth - 1) as nat,
            base,
        ),
        Expression::LocalVariable(_) => true,
        Expression::GlobalVariable(_) => true,
        _ => false,
    }
}

/// What is required of a value of type `ty` once the part that `path` leads to
/// has been written: of that part that it exists, and of all others what was
/// required before. Where the type does not tell the parts apart, nothing
/// changes.
pub open spec fn written(req: Req, path: Req, ty: Option<usize>, types: Seq<Type>) -> Req
    decreases path,
{
    match path {
        Req::Part(parts) => {
            let i = parts.dom().choose();
            match opened(req, ty, types) {
                Req::Part(now) => if parts.contains_key(i) {
                    Req::Part(
                        now.insert(
                            i,
                            written(now[i], parts[i], part_type(members_of(ty, types), i), types),
                        ),
                    )
                } else {
                    req
                },
                unbroken => unbroken,
            }
        },
        _ => Req::Exist,
    }
}

/// Whether a value of type `ty` has the part that `path` leads to, as far as
/// the type tells the parts apart.
pub open spec fn has_path(req: Req, path: Req, ty: Option<usize>, types: Seq<Type>) -> bool
    decreases path,
{
    match path {
        Req::Part(parts) => {
            let i = parts.dom().choose();
            match opened(req, ty, types) {
                Req::Part(now) => parts.contains_key(i) && now.contains_key(i) && has_path(
                    now[i],
                    parts[i],
                    part_type(members_of(ty, types), i),
                    types,
                ),
                _ => true,
            }
        },
        _ => true,
    }
}

/// The existence of the part that `path` leads to.
pub open spec fn existence(path: Req) -> Req
    decreases path,
{
    match path {
        Req::Part(parts) => {
            let i = parts.dom().choose();
            if parts.contains_key(i) {
                only(i, existence(parts[i]))
            } else {
                Req::Exist
            }
        },
        _ => Req::Exist,
    }
}

/// A write to a part replaces the requirement on it by `Exist`, and the part
/// still exists.
proof fn lemma_written(req: Req, path: Req, ty: Option<usize>, types: Seq<Type>)
    requires
        is_path(path),
        stored(Some(req), path) is Some,
        req.remove(path, ty, types) is Some,
        has_path(req, path, ty, types),
    ensures
        req.remove(path, ty, types) == Some(written(req, path, ty, types)),
        written(req, path, ty, types).contains(existence(path)),
    decreases path,
{
    if let Req::Part(gone) = path {
        let i = gone.dom().choose();
        if let Req::Part(now) = opened(req, ty, types) {
            let sub_ty = part_type(members_of(ty, types), i);
            lemma_remove_parts(req, gone, ty, types);
            let left = req.remove(path, ty, types)->0->Part_0;
            assert(left_of(now, gone, ty, types, i) is Some);
            lemma_stored_below(req, now, gone, ty, types);
            lemma_written(now[i], gone[i], sub_ty, types);
            let new = written(now[i], gone[i], sub_ty, types);
            assert forall|j: usize| #[trigger] now.contains_key(j) implies left[j] == now.insert(
                i,
                new,
            )[j] by {
                assert(Some(left[j]) == left_of(now, gone, ty, types, j));
                assert(j != i ==> !gone.contains_key(j));
            }
            assert(left =~= now.insert(i, new));
            let path_parts = existence(path)->Part_0;
            lemma_contains_parts(left, path_parts);
            assert(covers(left, path_parts));
        }
    }
}

/// What is stored to a part of a value that is required is required of the
/// part of it that is spelled out.
proof fn lemma_stored_below(
    req: Req,
    now: Map<usize, Req>,
    gone: Map<usize, Req>,
    ty: Option<usize>,
    types: Seq<Type>,
)
    requires
        is_path(Req::Part(gone)),
        stored(Some(req), Req::Part(gone)) is Some,
        opened(req, ty, types) == Req::Part(now),
        has_path(req, Req::Part(gone), ty, types),
    ensures
        stored(Some(now[gone.dom().choose()]), gone[gone.dom().choose()]) is Some,
{
    let i = gone.dom().choose();
    assert(is_path(gone[i]));
    if req is All {
        assert(has_path(now[i], gone[i], part_type(members_of(ty, types), i), types));
        if let (Req::Part(lanes), Req::Part(rows)) = (now[i], gone[i]) {
            let j = rows.dom().choose();
            assert(lanes.contains_key(j) && lanes[j] is All);
            assert(is_path(rows[j]));
            assert(stored(Some(now[i]), gone[i]) == stored(at_index(lanes, j), rows[j]));
        }
    } else {
        assert(stored(Some(req), Req::Part(gone)) == stored(at_index(now, i), gone[i]));
    }
}

/// Asking for the existence of a variable, or of a part of it that exists,
/// asks for nothing new.
proof fn lemma_variable_kept(
    shader: Module,
    function: Function,
    depth: nat,
    h: usize,
    part: Req,
    s: Live,
    var: VarRef,
)
    requires
        function.expressions[h as int] == match var {
            VarRef::Local(lv) => Expression::LocalVariable(lv),
            VarRef::Global(gv) => Expression::GlobalVariable(gv),
        },
        s.context.of(var) is Some,
        s.context.of(var)->0.contains(part),
        need_expr(shader, function, depth, h, part, s) is Some,
    ensures
        need_expr(shader, function, depth, h, part, s)->0.context == s.context,
{
    let req = s.context.of(var)->0;
    law_contains_add(req, part);
    let expr = function.expressions[h as int];
    let s1 = touched(shader, function, expr, part, s)->0;
    assert(demands(expr, part)->0.len() == 0);
    assert(need_all(shader, function, (depth - 1) as nat, demands(expr, part)->0, 0, s1) == Some(
        s1,
    ));
    match var {
        VarRef::Local(lv) => {
            assert(s.context.locals.insert(lv, req) =~= s.context.locals);
        },
        VarRef::Global(gv) => {
            assert(s.context.globals.insert(gv, req) =~= s.context.globals);
        },
    }
}

/// The existence of one index is bare.
proof fn lemma_only_bare(i: usize, part: Req)
    requires
        part.bare(),
    ensures
        only(i, part).bare(),
{
    let parts = only(i, part)->Part_0;
    assert(parts.contains_key(i));
    lemma_bare_parts(parts);
}

/// A pointer expression by known indices leads to the existence of a part as
/// it leads to the part.
proof fn lemma_existence_below(function: Function, depth: nat, h: usize, below: Req)
    requires
        is_constant_path(function, depth, h),
        is_path(below),
    ensures
        ({
            let (var, path) = part_below(function, depth, h, below)->0;
            &&& part_below(function, depth, h, below) is Some
            &&& part_below(function, depth, h, existence(below)) == Some((var, existence(path)))
        }),
    decreases depth,
{
    if let Expression::AccessIndex { base, index } = function.expressions[h as int] {
        let i = index as usize;
        lemma_only_path(i, below);
        assert(only(i, below)->Part_0.contains_key(i));
        assert(existence(only(i, below)) == only(i, existence(below)));
        lemma_existence_below(function, (depth - 1) as nat, base, only(i, below));
    }
}

/// Asking for the existence of a part by known indices, where it exists, asks
/// for nothing new.
proof fn lemma_path_kept(
    shader: Module,
    function: Function,
    depth: nat,
    h: usize,
    below: Req,
    s: Live,
    var: VarRef,
    part: Req,
)
    requires
        is_constant_path(function, depth, h),
        below.bare(),
        part_below(function, depth, h, below) == Some((var, part)),
        s.context.of(var) is Some,
        s.context.of(var)->0.contains(part),
        need_expr(shader, function, depth, h, below, s) is Some,
    ensures
        need_expr(shader, function, depth, h, below, s)->0.context == s.context,
    decreases depth,
{
    match function.expressions[h as int] {
        Expression::AccessIndex { base, index } => {
            let near = (depth - 1) as nat;
            let path = only(index as usize, below);
            let operands = seq![(base, path)];
            assert(demands(function.expressions[h as int], below) == Some(operands));
            assert(need_all(shader, function, near, operands, 0, s) == Some(s));
            assert(need_all(shader, function, near, operands, 1, s) == need_expr(
                shader,
                function,
                near,
                base,
                path,
                s,
            ));
            lemma_only_bare(index as usize, below);
            lemma_path_kept(shader, function, near, base, path, s, var, part);
        },
        _ => {
            lemma_variable_kept(shader, function, depth, h, below, s, var);
        },
    }
}

/// After a required store to a variable, or by known indices to a part of one,
/// the requirement on what was stored to is replaced by `Exist`, and stays so
/// when the path to it is asked for; the requirements on the other parts stay
/// as they were.
pub proof fn law_store_leaves_existence(
    shader: Module,
    function: Function,
    depth: nat,
    pointer: usize,
    s: Live,
    var: VarRef,
    path: Req,
    ty: usize,
    value: Req,
    s1: Live,
)
    requires
        is_constant_path(function, depth, pointer),
        resolved(function, depth, pointer) == Some((var, path)),
        var_type(var, shader, function) == Some(ty),
        store_flow(shader, function, depth, pointer, s) == Some((s1, Some(value))),
        has_path(s.context.of(var)->0, path, Some(ty), shader.types@),
        need_expr(shader, function, depth, pointer, Req::Exist, s1) is Some,
    ensures
        need_expr(shader, function, depth, pointer, Req::Exist, s1)->0.context == s.context.with(
            var,
            written(s.context.of(var)->0, path, Some(ty), shader.types@),
        ),
{
    let req = s.context.of(var)->0;
    let types = shader.types@;
    lemma_resolved_path(function, depth, pointer, Req::All);
    lemma_written(req, path, Some(ty), types);
    let left = written(req, path, Some(ty), types);
    assert(s1.context == s.context.with(var, left));
    assert(s1.context.of(var) == Some(left));
    lemma_existence_below(function, depth, pointer, Req::All);
    lemma_path_kept(
        shader,
        function,
        depth,
        pointer,
        Req::Exist,
        s1,
        var,
        existence(path),
    );
}

/// What is required of the operands of a store, where it is required.
proof fn lemma_store_operands(
    shader: Module,
    function: Function,
    depth: nat,
    pointer: usize,
    operands: Seq<(usize, Req)>,
    s: Live,
    var: VarRef,
)
    requires
        store_flow(shader, function, depth, pointer, s) matches Some((s1, Some(_))) && need_all(
            shader,
            function,
            depth,
            operands,
            operands.len(),
            s1,
        ) is Some,
        resolved(function, depth, pointer) matches Some((target, _)) && target == var,
    ensures
        ({
            let (s1, _) = store_flow(shader, function, depth, pointer, s)->0;
            let end = need_all(shader, function, depth, operands, operands.len(), s1)->0;
            &&& all_met(operands, end.exprs)
            &&& forall|lv: usize|
                var != VarRef::Local(lv) && #[trigger] s.context.locals.contains_key(lv)
                    ==> end.context.locals.contains_key(lv) && end.context.locals[lv].contains(
                    s.context.locals[lv],
                )
            &&& forall|gv: usize|
                var != VarRef::Global(gv) && #[trigger] s.context.globals.contains_key(gv)
                    ==> end.context.globals.contains_key(gv) && end.context.globals[gv].contains(
                    s.context.globals[gv],
                )
        }),
{
    let (s1, _) = store_flow(shader, function, depth, pointer, s)->0;
    law_demands_required(shader, function, depth, operands, operands.len(), s1);
    assert(operands.take(operands.len() as int) =~= operands);
    let end = need_all(shader, function, depth, operands, operands.len(), s1)->0;
    assert forall|lv: usize|
        var != VarRef::Local(lv) && #[trigger] s.context.locals.contains_key(
            lv,
        ) implies end.context.locals.contains_key(lv) && end.context.locals[lv].contains(
        s.context.locals[lv],
    ) by {
        assert(s1.context.locals.contains_key(lv));
    }
    assert forall|gv: usize|
        var != VarRef::Global(gv) && #[trigger] s.context.globals.contains_key(
            gv,
        ) implies end.context.globals.contains_key(gv) && end.context.globals[gv].contains(
        s.context.globals[gv],
    ) by {
        assert(s1.context.globals.contains_key(gv));
    }
}

/// A store is required where something is required of the part that it writes.
/// Then its value is required as that part is, the path to the part has to be
/// there, and what is required of other variables stays required. Otherwise it
/// changes nothing.
pub proof fn law_store_flow(
    shader: Module,
    function: Function,
    depth: nat,
    pointer: usize,
    value: usize,
    scope_required: bool,
    base: Context,
    s: Live,
    var: VarRef,
    indices: Seq<usize>,
)
    requires
        leads_to(function, pointer, var, indices),
        stmt_flow(
            shader,
            function,
            depth,
            Statement::Store { pointer, value },
            scope_required,
            base,
            s,
        ) is Some,
    ensures
        ({
            let (s1, need) = stmt_flow(
                shader,
                function,
                depth,
                Statement::Store { pointer, value },
                scope_required,
                base,
                s,
            )->0;
            let now = s.context.of(var);
            &&& need matches StmtNeed::Store(required)
            &&& need.required() == required
            &&& now is None || now == Some(Req::Exist) ==> !required
            &&& now == Some(Req::All) ==> required
            &&& now is Some && !holds(now->0, indices) ==> !required
            &&& now is Some && (exists|path: Seq<usize>| #[trigger] asks(now->0, indices + path))
                ==> required
            &&& !required ==> s1 == s
            &&& required ==> {
                &&& s1.exprs.contains_key(pointer)
                &&& s1.exprs.contains_key(value)
                &&& forall|path: Seq<usize>| #[trigger]
                    asks(now->0, indices + path) ==> asks(s1.exprs[value], path)
                &&& forall|lv: usize|
                    var != VarRef::Local(lv) && #[trigger] s.context.locals.contains_key(lv)
                        ==> s1.context.locals.contains_key(lv) && s1.context.locals[lv].contains(
                        s.context.locals[lv],
                    )
                &&& forall|gv: usize|
                    var != VarRef::Global(gv) && #[trigger] s.context.globals.contains_key(gv)
                        ==> s1.context.globals.contains_key(gv) && s1.context.globals[gv].contains(
                        s.context.globals[gv],
                    )
            }
        }),
{
    let now = s.context.of(var);
    lemma_depth(function, depth, pointer, var, indices);
    law_resolved(function, depth, pointer, var, indices);
    let path = at_path(indices, Req::All);
    law_stored(now, path);
    if now is Some {
        lemma_stored_holds(now->0, indices);
        assert forall|below: Seq<usize>| #[trigger] asks(now->0, indices + below) implies stored(
            now,
            path,
        ) is Some && asks(stored(now, path)->0, below) by {
            law_stored_asks(now->0, indices, below);
        }
    }
    if let Some((s1, Some(req))) = store_flow(shader, function, depth, pointer, s) {
        let operands = seq![(pointer, Req::Exist), (value, req)];
        lemma_store_operands(shader, function, depth, pointer, operands, s, var);
        let end = need_all(shader, function, depth, operands, operands.len(), s1)->0;
        assert(operands[0] == (pointer, Req::Exist) && operands[1] == (value, req));
        assert forall|below: Seq<usize>| #[trigger] asks(now->0, indices + below) implies asks(
            end.exprs[value],
            below,
        ) by {
            law_contains_asks(end.exprs[value], req, below);
        }
    }
}

/// A store is not required to a part that does not have to be there.
proof fn lemma_stored_holds(req: Req, indices: Seq<usize>)
    ensures
        stored(Some(req), at_path(indices, Req::All)) is Some ==> holds(req, indices),
    decreases indices.len(),
{
    if indices.len() > 0 {
        let inner = at_path(indices.skip(1), Req::All);
        lemma_only_path(indices[0], inner);
        if let Req::Part(parts) = req {
            assert(stored(Some(req), at_path(indices, Req::All)) == stored(
                at_index(parts, indices[0]),
                inner,
            ));
            if parts.contains_key(indices[0]) {
                lemma_stored_holds(parts[indices[0]], indices.skip(1));
            } else {
                assert(stored(None, inner) is None);
            }
        }
    }
}

/// A pointer that is resolved is not nested too deep.
proof fn lemma_depth(
    function: Function,
    depth: nat,
    h: usize,
    var: VarRef,
    indices: Seq<usize>,
)
    requires
        leads_to(function, h, var, indices),
        resolved(function, depth, h) is Some,
    ensures
        depth > indices.len(),
{
    lemma_depth_below(function, depth, h, var, indices, Req::All);
}

/// The same of what lies below.
proof fn lemma_depth_below(
    function: Function,
    depth: nat,
    h: usize,
    var: VarRef,
    indices: Seq<usize>,
    below: Req,
)
    requires
        leads_to(function, h, var, indices),
        part_below(function, depth, h, below) is Some,
    ensures
        depth > indices.len(),
    decreases indices.len(),
{
    if indices.len() > 0 {
        if let Expression::AccessIndex { base, index } = function.expressions[h as int] {
            lemma_depth_below(
                function,
                (depth - 1) as nat,
                base,
                var,
                indices.drop_last(),
                only(index as usize, below),
            );
        }
    }
}

/// A store to an image is required where something is required of the image.
/// Then its coordinate is required whole, the index of its layer has to be
/// there, and its value is required as the image is. Otherwise it changes
/// nothing.
pub proof fn law_image_store_flow(
    shader: Module,
    function: Function,
    depth: nat,
    image: usize,
    coordinate: usize,
    array_index: Option<usize>,
    value: usize,
    scope_required: bool,
    base: Context,
    s: Live,
    gv: usize,
)
    requires
        image < function.expressions.len(),
        function.expressions[image as int] == Expression::GlobalVariable(gv),
        stmt_flow(
            shader,
            function,
            depth,
            Statement::ImageStore { image, coordinate, array_index, value },
            scope_required,
            base,
            s,
        ) is Some,
    ensures
        ({
            let (s1, need) = stmt_flow(
                shader,
                function,
                depth,
                Statement::ImageStore { image, coordinate, array_index, value },
                scope_required,
                base,
                s,
            )->0;
            let now = s.context.of(VarRef::Global(gv));
            &&& need matches StmtNeed::ImageStore(required)
            &&& need.required() == required
            &&& required <==> now is Some && now != Some(Req::Exist)
            &&& !required ==> s1 == s
            &&& required ==> {
                &&& s1.exprs.contains_key(image)
                &&& s1.exprs.contains_key(coordinate)
                &&& s1.exprs[coordinate] == Req::All
                &&& array_index is Some ==> s1.exprs.contains_key(array_index->0)
                &&& s1.exprs.contains_key(value)
                &&& s1.exprs[value].contains(now->0)
                &&& forall|lv: usize| #[trigger]
                    s.context.locals.contains_key(lv) ==> s1.context.locals.contains_key(lv)
                        && s1.context.locals[lv].contains(s.context.locals[lv])
                &&& forall|g: usize|
                    g != gv && #[trigger] s.context.globals.contains_key(g)
                        ==> s1.context.globals.contains_key(g) && s1.context.globals[g].contains(
                        s.context.globals[g],
                    )
            }
        }),
{
    let var = VarRef::Global(gv);
    let now = s.context.of(var);
    assert(resolved(function, depth, image) == Some((var, Req::All)));
    law_stored(now, Req::All);
    if let Some((s1, Some(req))) = store_flow(shader, function, depth, image, s) {
        let operands = image_operands(image, coordinate, array_index, value, req);
        lemma_store_operands(shader, function, depth, image, operands, s, var);
        assert(operands[0] == (image, Req::Exist) && operands[1] == (coordinate, Req::All));
        assert(operands.last() == (value, req));
        if array_index is Some {
            assert(operands[2] == (array_index->0, Req::Exist));
        }
        law_contains_reflexive(req);
    }
}

/// Once a part of a variable has been written, the requirements on other
/// variables, on arguments and on the result are what they were.
pub proof fn law_remove_frame(
    context: Context,
    var: VarRef,
    part: Req,
    shader: Module,
    function: Function,
)
    requires
        context.remove(var, part, shader, function) is Some,
    ensures
        ({
            let left = context.remove(var, part, shader, function)->0;
            &&& left.args == context.args
            &&& left.retval == context.retval
            &&& match var {
                VarRef::Local(lv) => {
                    &&& context.locals.contains_key(lv)
                    &&& left.locals.contains_key(lv)
                    &&& left.locals.remove(lv) == context.locals.remove(lv)
                    &&& left.globals == context.globals
                    &&& Some(left.locals[lv]) == context.locals[lv].remove(
                        part,
                        Some(function.local_variables[lv as int].ty),
                        shader.types@,
                    )
                },
                VarRef::Global(gv) => {
                    &&& context.globals.contains_key(gv)
                    &&& left.globals.contains_key(gv)
                    &&& left.globals.remove(gv) == context.globals.remove(gv)
                    &&& left.locals == context.locals
                    &&& Some(left.globals[gv]) == context.globals[gv].remove(
                        part,
                        Some(shader.global_variables[gv as int].ty),
                        shader.types@,
                    )
                },
            }
        }),
{
    let left = context.remove(var, part, shader, function)->0;
    match var {
        VarRef::Local(lv) => {
            assert(left.locals.remove(lv) =~= context.locals.remove(lv));
        },
        VarRef::Global(gv) => {
            assert(left.globals.remove(gv) =~= context.globals.remove(gv));
        },
    }
}

/// A write to a part of which something is required replaces the requirement on
/// it by `Exist`, and leaves those on the other parts; the part still exists.
pub proof fn law_remove_written(req: Req, path: Req, ty: Option<usize>, types: Seq<Type>)
    requires
        is_path(path),
        stored(Some(req), path) is Some,
        req.remove(path, ty, types) is Some,
        has_path(req, path, ty, types),
    ensures
        req.remove(path, ty, types) == Some(written(req, path, ty, types)),
        written(req, path, ty, types).contains(existence(path)),
{
    lemma_written(req, path, ty, types);
}

} // verus!
