//! Which stores are required.
use crate::context::{RequiredContext, VarRef, VarRefPart};
use crate::ir::{Expression, Function};
use crate::live::Pruner;
use crate::part::{only, reqs_of, PartReq, Req};
use crate::table::sorted_entries;
use vstd::prelude::*;

verus! {

/// The variable that the pointer expression `h` leads to, and the part of it
/// that `below` of what the expression points to is. `None` where the
/// expression is no pointer to a variable, and where it is nested `depth` deep
/// or more.
///
/// An index that is known only when the shader runs leads to any part, so that
/// everything below it is meant.
pub open spec fn part_below(function: Function, depth: nat, h: usize, below: Req) -> Option<
    (VarRef, Req),
>
    decreases depth,
{
    if depth == 0 || h >= function.expressions.len() {
        None
    } else {
        match function.expressions[h as int] {
            Expression::Access { base, .. } => part_below(
                function,
                (depth - 1) as nat,
                base,
                Req::All,
            ),
            Expression::AccessIndex { base, index } => part_below(
                function,
                (depth - 1) as nat,
                base,
                only(index as usize, below),
            ),
            Expression::GlobalVariable(gv) => Some((VarRef::Global(gv), below)),
            Expression::LocalVariable(lv) => Some((VarRef::Local(lv), below)),
            _ => None,
        }
    }
}

/// The variable that the pointer expression `h` leads to, and the part of it.
pub open spec fn resolved(function: Function, depth: nat, h: usize) -> Option<(VarRef, Req)> {
    part_below(function, depth, h, Req::All)
}

/// Whether `part` is all of a value, or leads by one index at a time to all
/// of a part of it.
pub open spec fn is_path(part: Req) -> bool
    decreases part,
{
    match part {
        Req::All => true,
        Req::Part(parts) => {
            let i = parts.dom().choose();
            &&& parts.dom() == Set::<usize>::empty().insert(i)
            &&& parts.contains_key(i) && is_path(parts[i])
        },
        Req::Exist => false,
    }
}

/// What a map says of an index.
pub open spec fn at_index(parts: Map<usize, Req>, i: usize) -> Option<Req> {
    if parts.contains_key(i) {
        Some(parts[i])
    } else {
        None
    }
}

/// What is required of a value that is stored to the part `target` of a
/// variable, where `required` is what is required of the variable. `None`
/// where the store is not required.
pub open spec fn stored(required: Option<Req>, target: Req) -> Option<Req>
    decreases target,
{
    match (required, target) {
        (_, Req::Exist) => None,
        (None, _) => None,
        (Some(Req::Exist), _) => None,
        (Some(Req::All), _) => Some(Req::All),
        (Some(Req::Part(_)), Req::All) => required,
        (Some(Req::Part(parts)), Req::Part(targets)) => {
            let i = targets.dom().choose();
            if targets.contains_key(i) {
                stored(at_index(parts, i), targets[i])
            } else {
                None
            }
        },
    }
}

/// Whether where both the requirement and the target are on parts, the target
/// is on one part, and so on below it.
pub open spec fn one_by_one(required: Option<Req>, target: Req) -> bool
    decreases target,
{
    match (required, target) {
        (Some(Req::Part(parts)), Req::Part(targets)) => {
            let i = targets.dom().choose();
            &&& targets.dom() == Set::<usize>::empty().insert(i)
            &&& targets.contains_key(i) && one_by_one(at_index(parts, i), targets[i])
        },
        _ => true,
    }
}

/// A path leads from part to part one by one.
pub proof fn lemma_path_one_by_one(required: Option<Req>, target: Req)
    requires
        is_path(target),
    ensures
        one_by_one(required, target),
    decreases target,
{
    if let (Some(Req::Part(parts)), Req::Part(targets)) = (required, target) {
        let i = targets.dom().choose();
        lemma_path_one_by_one(at_index(parts, i), targets[i]);
    }
}

/// One index with a path is a path, by way of that index.
pub proof fn lemma_only_path(i: usize, part: Req)
    ensures
        only(i, part)->Part_0.dom().choose() == i,
        is_path(only(i, part)) == is_path(part),
{
    let parts = only(i, part)->Part_0;
    assert(parts.dom() =~= Set::<usize>::empty().insert(i));
    assert(parts.dom().contains(i));
    assert(parts.dom().contains(parts.dom().choose()));
    assert(parts[i] == part);
    assert(is_path(Req::Part(parts)) == is_path(parts[i]));
}

/// A pointer expression leads to a part by a path.
pub proof fn lemma_resolved_path(function: Function, depth: nat, h: usize, below: Req)
    requires
        is_path(below),
    ensures
        part_below(function, depth, h, below) matches Some((_, part)) ==> is_path(part),
    decreases depth,
{
    if depth > 0 && h < function.expressions.len() {
        match function.expressions[h as int] {
            Expression::Access { base, .. } => {
                lemma_resolved_path(function, (depth - 1) as nat, base, Req::All);
            },
            Expression::AccessIndex { base, index } => {
                lemma_only_path(index as usize, below);
                lemma_resolved_path(
                    function,
                    (depth - 1) as nat,
                    base,
                    only(index as usize, below),
                );
            },
            _ => {},
        }
    }
}

/// What is required of a value that is stored to the part `targetted`.
fn check_part(required: Option<&PartReq>, targetted: &PartReq) -> (r: Option<PartReq>)
    requires
        one_by_one(
            match required {
                Some(part) => Some(part@),
                None => None,
            },
            targetted@,
        ),
    ensures
        match r {
            Some(req) => stored(
                match required {
                    Some(part) => Some(part@),
                    None => None,
                },
                targetted@,
            ) == Some(req@),
            None => stored(
                match required {
                    Some(part) => Some(part@),
                    None => None,
                },
                targetted@,
            ) is None,
        },
    decreases targetted,
{
    match (required, targetted) {
        (_, PartReq::Exist) => None,
        (None, _) => None,
        (Some(PartReq::Exist), _) => None,
        (Some(PartReq::All), _) => Some(PartReq::All),
        (Some(part), PartReq::All) => Some(part.clone()),
        (Some(PartReq::Part(parts_required)), PartReq::Part(parts_assigned)) => {
            proof {
                PartReq::lemma_part_view(*parts_required);
                PartReq::lemma_part_view(*parts_assigned);
            }
            let entries = sorted_entries(parts_assigned);
            let ghost targets = reqs_of(parts_assigned@);
            let ghost i = targets.dom().choose();
            assert(targets.contains_key(i));
            assert(parts_assigned@.contains_key(i));
            assert(entries.len() > 0);
            let (part_assigned, subpart) = entries[0];
            assert(parts_assigned@.contains_key(entries@[0].0));
            assert(targets.dom().contains(part_assigned));
            assert(part_assigned == i);
            assert(targets[i] == subpart@);
            proof {
                assert(decreases_to!(targetted => targetted->Part_0));
                assert(decreases_to!(*parts_assigned => parts_assigned@));
                assert(decreases_to!(parts_assigned@ => parts_assigned@[i]));
            }
            assert(reqs_of(parts_required@).contains_key(i) == parts_required@.contains_key(i));
            check_part(parts_required.get(&part_assigned), subpart)
        },
    }
}

impl Pruner {
    /// What is required of a value that is stored to the part of a variable.
    pub(crate) fn store_required(context: &RequiredContext, var_ref: &VarRefPart) -> (r: Option<
        PartReq,
    >)
        requires
            one_by_one(context@.of(var_ref.var_ref), var_ref.part@),
        ensures
            match r {
                Some(req) => stored(context@.of(var_ref.var_ref), var_ref.part@) == Some(req@),
                None => stored(context@.of(var_ref.var_ref), var_ref.part@) is None,
            },
    {
        let var_parts_required = match &var_ref.var_ref {
            VarRef::Global(gv) => {
                assert(context@.globals.contains_key(*gv) == context.globals@.contains_key(*gv));
                context.globals.get(gv)
            },
            VarRef::Local(lv) => {
                assert(context@.locals.contains_key(*lv) == context.locals@.contains_key(*lv));
                context.locals.get(lv)
            },
        };
        check_part(var_parts_required, &var_ref.part)
    }

    /// The variable that a pointer expression leads to, and the part of it
    /// that `below` of what the expression points to is.
    fn resolve_below(function: &Function, h_expr: usize, below: PartReq, depth: usize) -> (r:
        Option<VarRefPart>)
        ensures
            match r {
                Some(res) => part_below(*function, depth as nat, h_expr, below@) == Some(
                    (res.var_ref, res.part@),
                ),
                None => part_below(*function, depth as nat, h_expr, below@) is None,
            },
        decreases depth,
    {
        if depth == 0 || h_expr >= function.expressions.len() {
            return None;
        }
        match &function.expressions[h_expr] {
            // A dynamic access requires everything below it.
            Expression::Access { base, .. } => Self::resolve_below(
                function,
                *base,
                PartReq::All,
                depth - 1,
            ),
            Expression::AccessIndex { base, index } => Self::resolve_below(
                function,
                *base,
                PartReq::only(*index as usize, below),
                depth - 1,
            ),
            Expression::GlobalVariable(gv) => Some(
                VarRefPart { var_ref: VarRef::Global(*gv), part: below },
            ),
            Expression::LocalVariable(lv) => Some(
                VarRefPart { var_ref: VarRef::Local(*lv), part: below },
            ),
            _ => None,
        }
    }

    /// The variable that a pointer expression leads to, and the part of it.
    pub(crate) fn resolve_var(function: &Function, h_expr: usize, depth: usize) -> (r: Option<
        VarRefPart,
    >)
        ensures
            match r {
                Some(res) => resolved(*function, depth as nat, h_expr) == Some(
                    (res.var_ref, res.part@),
                ),
                None => resolved(*function, depth as nat, h_expr) is None,
            },
    {
        Self::resolve_below(function, h_expr, PartReq::All, depth)
    }
}

} // verus!
