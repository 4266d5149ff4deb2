//! Laws of requirements by what they ask for: a requirement asks for the parts
//! of a value whose contents matter, each named by the indices that lead to it.
use crate::context::{opt_contains, Context, VarRef};
use crate::ir::{Expression, Function, Type, TypeInner, VectorSize};
use crate::part::{
    has_member, lemma_add_parts, lemma_contains_parts, members_of, only, opened, part_type, whole,
    Req,
};
use crate::store::{at_index, lemma_only_path, part_below, resolved, stored};
use vstd::prelude::*;

verus! {

/// Whether the contents of the part at `path` are asked for.
pub open spec fn asks(req: Req, path: Seq<usize>) -> bool
    decreases path.len(),
{
    match req {
        Req::All => true,
        Req::Exist => false,
        Req::Part(parts) => path.len() > 0 && parts.contains_key(path[0]) && asks(
            parts[path[0]],
            path.skip(1),
        ),
    }
}

/// Whether the part at `path` has to be there.
pub open spec fn holds(req: Req, path: Seq<usize>) -> bool
    decreases path.len(),
{
    path.len() == 0 || match req {
        Req::All => true,
        Req::Exist => false,
        Req::Part(parts) => parts.contains_key(path[0]) && holds(parts[path[0]], path.skip(1)),
    }
}

/// What contains a requirement asks for all that this one asks for, and holds
/// all that it holds.
pub proof fn law_contains_asks(a: Req, b: Req, path: Seq<usize>)
    requires
        a.contains(b),
    ensures
        asks(b, path) ==> asks(a, path),
        holds(b, path) ==> holds(a, path),
    decreases path.len(),
{
    if let (Req::Part(p), Req::Part(q)) = (a, b) {
        lemma_contains_parts(p, q);
        if path.len() > 0 && q.contains_key(path[0]) {
            law_contains_asks(p[path[0]], q[path[0]], path.skip(1));
        }
    }
}

/// All is asked for by the requirement for all, and by no other requirement.
/// It contains each requirement, and each contains that for existence.
pub proof fn law_extremes(req: Req)
    ensures
        Req::All.contains(req),
        req.contains(Req::Exist),
        req.contains(Req::All) <==> req == Req::All,
        Req::Exist.contains(req) <==> req == Req::Exist,
        Req::All.add(req) == Req::All,
        Req::Exist.add(req) == req,
        asks(req, Seq::empty()) <==> req == Req::All,
{
}

/// A sum asks for what one of the two asks for and nothing else, and holds what
/// one of them holds.
pub proof fn law_add_asks(a: Req, b: Req, path: Seq<usize>)
    ensures
        asks(a.add(b), path) <==> asks(a, path) || asks(b, path),
        holds(a.add(b), path) <==> holds(a, path) || holds(b, path),
    decreases path.len(),
{
    if let (Req::Part(p), Req::Part(q)) = (a, b) {
        lemma_add_parts(p, q);
        if path.len() > 0 && p.contains_key(path[0]) && q.contains_key(path[0]) {
            law_add_asks(p[path[0]], q[path[0]], path.skip(1));
        }
    }
}

/// The requirement for `below` of the part at `indices`.
pub open spec fn at_path(indices: Seq<usize>, below: Req) -> Req
    decreases indices.len(),
{
    if indices.len() == 0 {
        below
    } else {
        only(indices[0], at_path(indices.skip(1), below))
    }
}

/// A requirement for all of a part asks for what lies below it and nothing
/// else.
pub proof fn law_path_asks(indices: Seq<usize>, path: Seq<usize>)
    ensures
        asks(at_path(indices, Req::All), path) <==> path.len() >= indices.len() && path.take(
            indices.len() as int,
        ) == indices,
    decreases indices.len(),
{
    if indices.len() > 0 {
        if path.len() > 0 {
            law_path_asks(indices.skip(1), path.skip(1));
            if path.len() >= indices.len() {
                let n = indices.len() as int;
                assert(path.skip(1).take(n - 1) =~= path.take(n).skip(1));
                if path.take(n) == indices {
                    assert(path[0] == path.take(n)[0]);
                }
                if path[0] == indices[0] && path.skip(1).take(n - 1) == indices.skip(1) {
                    assert forall|i: int| 0 <= i < n implies path.take(n)[i] == indices[i] by {
                        if i > 0 {
                            assert(path.skip(1).take(n - 1)[i - 1] == indices.skip(1)[i - 1]);
                        }
                    }
                    assert(path.take(n) =~= indices);
                }
            }
        }
    } else {
        assert(path.take(0) =~= indices);
    }
}

/// A requirement at a path leads one by one.
proof fn lemma_at_path(indices: Seq<usize>, below: Req)
    requires
        indices.len() > 0,
    ensures
        at_path(indices, below) is Part,
        at_path(indices, below)->Part_0.dom().choose() == indices[0],
        at_path(indices, below)->Part_0.contains_key(indices[0]),
        at_path(indices, below)->Part_0[indices[0]] == at_path(indices.skip(1), below),
{
    lemma_only_path(indices[0], at_path(indices.skip(1), below));
}

/// A value that is stored to a part of a variable is asked for what the
/// variable is asked for of that part: no more and no less.
pub proof fn law_stored_asks(req: Req, indices: Seq<usize>, path: Seq<usize>)
    ensures
        ({
            let value = stored(Some(req), at_path(indices, Req::All));
            (value is Some && asks(value->0, path)) <==> asks(req, indices + path)
        }),
    decreases indices.len(),
{
    if indices.len() == 0 {
        assert(indices + path =~= path);
    } else {
        lemma_at_path(indices, Req::All);
        let whole = indices + path;
        assert(whole.skip(1) =~= indices.skip(1) + path);
        assert(whole[0] == indices[0]);
        if let Req::Part(parts) = req {
            let inner = at_path(indices.skip(1), Req::All);
            assert(stored(Some(req), at_path(indices, Req::All)) == stored(
                at_index(parts, indices[0]),
                inner,
            ));
            if parts.contains_key(indices[0]) {
                law_stored_asks(parts[indices[0]], indices.skip(1), path);
            } else {
                assert(stored(None, inner) is None);
            }
        }
    }
}

/// Whether the expression `h` is the variable, or leads to the part of it at
/// `indices`, each of them known.
pub open spec fn leads_to(
    function: Function,
    h: usize,
    var: VarRef,
    indices: Seq<usize>,
) -> bool
    decreases indices.len(),
{
    &&& h < function.expressions.len()
    &&& if indices.len() == 0 {
        match var {
            VarRef::Local(lv) => function.expressions[h as int] == Expression::LocalVariable(lv),
            VarRef::Global(gv) => function.expressions[h as int] == Expression::GlobalVariable(gv),
        }
    } else {
        &&& function.expressions[h as int] matches Expression::AccessIndex { base, index }
        &&& index == indices.last()
        &&& leads_to(function, base, var, indices.drop_last())
    }
}

/// A pointer expression that leads to the part of a variable at some indices is
/// resolved to that variable and that part.
pub proof fn law_resolved(
    function: Function,
    depth: nat,
    h: usize,
    var: VarRef,
    indices: Seq<usize>,
)
    requires
        leads_to(function, h, var, indices),
        depth > indices.len(),
    ensures
        resolved(function, depth, h) == Some((var, at_path(indices, Req::All))),
{
    lemma_part_below(function, depth, h, var, indices, Req::All);
}

/// The same of what lies below.
proof fn lemma_part_below(
    function: Function,
    depth: nat,
    h: usize,
    var: VarRef,
    indices: Seq<usize>,
    below: Req,
)
    requires
        leads_to(function, h, var, indices),
        depth > indices.len(),
    ensures
        part_below(function, depth, h, below) == Some((var, at_path(indices, below))),
    decreases indices.len(),
{
    if indices.len() > 0 {
        if let Expression::AccessIndex { base, index } = function.expressions[h as int] {
            let near = (depth - 1) as nat;
            let inner = only(index as usize, below);
            lemma_part_below(function, near, base, var, indices.drop_last(), inner);
            lemma_path_last(indices, below);
        }
    }
}

/// The last index of a path is the innermost.
proof fn lemma_path_last(indices: Seq<usize>, below: Req)
    requires
        indices.len() > 0,
    ensures
        at_path(indices, below) == at_path(indices.drop_last(), only(indices.last(), below)),
    decreases indices.len(),
{
    if indices.len() > 1 {
        lemma_path_last(indices.skip(1), below);
        assert(indices.skip(1).drop_last() =~= indices.drop_last().skip(1));
    } else {
        assert(indices.skip(1) =~= Seq::empty());
        assert(at_path(indices.skip(1), below) == below);
    }
}

/// A pointer by an index that is known only when the shader runs leads to what
/// its base leads to, and so does a part of it: everything below is meant.
pub proof fn law_dynamic_resolved(
    function: Function,
    depth: nat,
    h: usize,
    base: usize,
    index: usize,
    below: Req,
)
    requires
        h < function.expressions.len(),
        function.expressions[h as int] == (Expression::Access { base, index }),
    ensures
        part_below(function, depth + 1, h, below) == resolved(function, depth, base),
        resolved(function, depth + 1, h) == resolved(function, depth, base),
{
}

/// A whole value of a type, spelled out: of a vector its components, of a
/// matrix the components of its columns, of a structure its members; other
/// types are not spelled out.
pub proof fn law_whole_asks(inner: TypeInner, i: usize, j: usize)
    ensures
        match inner {
            TypeInner::Vector { size, .. } => asks(whole(inner), seq![i]) <==> i < lanes(size),
            TypeInner::Matrix { columns, rows, .. } => asks(whole(inner), seq![i, j]) <==> i
                < lanes(columns) && j < lanes(rows),
            TypeInner::Struct { members, .. } => asks(whole(inner), seq![i]) <==> i
                < members@.len(),
            _ => whole(inner) == Req::All,
        },
        inner is Vector || inner is Matrix || inner is Struct ==> whole(inner) is Part,
{
    assert(seq![i][0] == i && seq![j][0] == j);
    let parts = whole(inner)->Part_0;
    match inner {
        TypeInner::Matrix { columns, rows, .. } => {
            let path = seq![i, j];
            assert(path[0] == i && path.skip(1) =~= seq![j]);
            if i < lanes(columns) {
                assert(asks(whole(inner), path) == asks(parts[i], seq![j]));
                if j < lanes(rows) {
                    assert(parts[i]->Part_0[j] == Req::All);
                    assert(asks(parts[i]->Part_0[j], seq![j].skip(1)));
                }
            }
        },
        TypeInner::Vector { size, .. } => {
            if i < lanes(size) {
                assert(asks(parts[i], seq![i].skip(1)));
            }
        },
        TypeInner::Struct { members, .. } => {
            assert(members@.len() == members.len());
            if i < members@.len() {
                assert(asks(parts[i], seq![i].skip(1)));
            }
        },
        _ => {},
    }
}

/// The parts of a structure have the types of its members, where the type is
/// known; of the parts of other values no type is known.
pub proof fn law_part_types(ty: usize, types: Seq<Type>, i: usize)
    requires
        ty < types.len(),
    ensures
        match types[ty as int].inner {
            TypeInner::Struct { members, .. } => {
                &&& members_of(Some(ty), types) is Some
                &&& has_member(members_of(Some(ty), types), i) <==> i < members@.len()
                &&& i < members@.len() ==> part_type(members_of(Some(ty), types), i) == Some(
                    members@[i as int].ty,
                )
            },
            _ => {
                &&& has_member(members_of(Some(ty), types), i)
                &&& part_type(members_of(Some(ty), types), i) is None
            },
        },
        opened(Req::All, Some(ty), types) == whole(types[ty as int].inner),
        opened(Req::All, None, types) == Req::All,
{
}

/// The number of components of a vector.
pub open spec fn lanes(size: VectorSize) -> nat {
    match size {
        VectorSize::Bi => 2,
        VectorSize::Tri => 3,
        VectorSize::Quad => 4,
    }
}

/// A merged context asks of each variable, argument and of the result for what
/// one of the two asks for, and requires what one of them requires.
pub proof fn law_merge_asks(a: Context, b: Context, path: Seq<usize>)
    ensures
        ({
            let m = a.merge(b);
            &&& forall|v: usize|
                #![trigger m.globals.contains_key(v)]
                m.globals.contains_key(v) <==> a.globals.contains_key(v) || b.globals.contains_key(
                    v,
                )
            &&& forall|v: usize|
                #![trigger m.locals.contains_key(v)]
                m.locals.contains_key(v) <==> a.locals.contains_key(v) || b.locals.contains_key(v)
            &&& forall|v: usize|
                #![trigger m.globals[v]]
                m.globals.contains_key(v) ==> (asks(m.globals[v], path) <==> (
                a.globals.contains_key(v) && asks(a.globals[v], path)) || (b.globals.contains_key(v)
                    && asks(b.globals[v], path)))
            &&& forall|v: usize|
                #![trigger m.locals[v]]
                m.locals.contains_key(v) ==> (asks(m.locals[v], path) <==> (a.locals.contains_key(
                    v,
                ) && asks(a.locals[v], path)) || (b.locals.contains_key(v) && asks(
                    b.locals[v],
                    path,
                )))
            &&& a.args.len() == b.args.len() ==> m.args.len() == a.args.len()
            &&& forall|i: int|
                #![trigger m.args[i]]
                0 <= i < m.args.len() ==> {
                    &&& m.args[i] is Some <==> a.args[i] is Some || b.args[i] is Some
                    &&& opt_asks(m.args[i], path) <==> opt_asks(a.args[i], path) || opt_asks(
                        b.args[i],
                        path,
                    )
                }
            &&& m.retval is Some <==> a.retval is Some || b.retval is Some
            &&& opt_asks(m.retval, path) <==> opt_asks(a.retval, path) || opt_asks(b.retval, path)
        }),
{
    let m = a.merge(b);
    assert forall|v: usize|
        #![trigger m.globals[v]]
        m.globals.contains_key(v) implies (asks(m.globals[v], path) <==> (a.globals.contains_key(v)
        && asks(a.globals[v], path)) || (b.globals.contains_key(v) && asks(
        b.globals[v],
        path,
    ))) by {
        law_add_asks(a.globals[v], b.globals[v], path);
    }
    assert forall|v: usize|
        #![trigger m.locals[v]]
        m.locals.contains_key(v) implies (asks(m.locals[v], path) <==> (a.locals.contains_key(v)
        && asks(a.locals[v], path)) || (b.locals.contains_key(v) && asks(b.locals[v], path))) by {
        law_add_asks(a.locals[v], b.locals[v], path);
    }
    assert forall|i: int|
        #![trigger m.args[i]]
        0 <= i < m.args.len() implies {
        &&& m.args[i] is Some <==> a.args[i] is Some || b.args[i] is Some
        &&& opt_asks(m.args[i], path) <==> opt_asks(a.args[i], path) || opt_asks(b.args[i], path)
    } by {
        if let (Some(p), Some(q)) = (a.args[i], b.args[i]) {
            law_add_asks(p, q, path);
        }
    }
    if let (Some(p), Some(q)) = (a.retval, b.retval) {
        law_add_asks(p, q, path);
    }
}

/// Whether an optional requirement asks for the part at `path`.
pub open spec fn opt_asks(req: Option<Req>, path: Seq<usize>) -> bool {
    req is Some && asks(req->0, path)
}

/// A context that contains another asks for all that it asks for, of each
/// variable, of each argument that both have, and of the result.
pub proof fn law_context_asks(a: Context, b: Context, path: Seq<usize>)
    requires
        a.contains(b),
    ensures
        forall|v: usize| #[trigger]
            b.globals.contains_key(v) ==> a.globals.contains_key(v) && (asks(b.globals[v], path)
                ==> asks(a.globals[v], path)),
        forall|v: usize| #[trigger]
            b.locals.contains_key(v) ==> a.locals.contains_key(v) && (asks(b.locals[v], path)
                ==> asks(a.locals[v], path)),
        forall|i: int|
            0 <= i < a.args.len() && i < b.args.len() ==> (opt_asks(#[trigger] b.args[i], path)
                ==> opt_asks(a.args[i], path)) && (b.args[i] is Some ==> a.args[i] is Some),
        opt_asks(b.retval, path) ==> opt_asks(a.retval, path),
        b.retval is Some ==> a.retval is Some,
{
    assert forall|v: usize| #[trigger] b.globals.contains_key(v) implies a.globals.contains_key(v)
        && (asks(b.globals[v], path) ==> asks(a.globals[v], path)) by {
        law_contains_asks(a.globals[v], b.globals[v], path);
    }
    assert forall|v: usize| #[trigger] b.locals.contains_key(v) implies a.locals.contains_key(v)
        && (asks(b.locals[v], path) ==> asks(a.locals[v], path)) by {
        law_contains_asks(a.locals[v], b.locals[v], path);
    }
    assert forall|i: int| 0 <= i < a.args.len() && i < b.args.len() implies (opt_asks(
        #[trigger] b.args[i],
        path,
    ) ==> opt_asks(a.args[i], path)) && (b.args[i] is Some ==> a.args[i] is Some) by {
        assert(opt_contains(a.args[i], b.args[i]));
        if b.args[i] is Some {
            law_contains_asks(a.args[i]->0, b.args[i]->0, path);
        }
    }
    if b.retval is Some {
        law_contains_asks(a.retval->0, b.retval->0, path);
    }
}

} // verus!
