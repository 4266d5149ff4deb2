//! Laws of requirements and contexts.
use crate::context::{args_merged, opt_add, opt_contains, Context};
use crate::ir::Type;
use crate::part::{
    covers, left_of, lemma_add_parts, lemma_contains_parts, lemma_remove_parts, members_of, merged,
    opened, part_type, Req,
};
use crate::store::{at_index, is_path, stored};
use vstd::prelude::*;

verus! {

/// A requirement contains itself.
pub proof fn law_contains_reflexive(r: Req)
    ensures
        r.contains(r),
    decreases r,
{
    if let Req::Part(parts) = r {
        lemma_contains_parts(parts, parts);
        assert forall|i: usize| #[trigger] parts.contains_key(i) implies parts[i].contains(
            parts[i],
        ) by {
            law_contains_reflexive(parts[i]);
        }
    }
}

/// What contains a requirement contains all that this one contains.
pub proof fn law_contains_transitive(a: Req, b: Req, c: Req)
    requires
        a.contains(b),
        b.contains(c),
    ensures
        a.contains(c),
    decreases a,
{
    match (a, b, c) {
        (Req::Part(a), Req::Part(b), Req::Part(c)) => {
            lemma_contains_parts(a, b);
            lemma_contains_parts(b, c);
            lemma_contains_parts(a, c);
            assert forall|i: usize| #[trigger] c.contains_key(i) implies a.contains_key(i)
                && a[i].contains(c[i]) by {
                assert(b.contains_key(i));
                law_contains_transitive(a[i], b[i], c[i]);
            }
        },
        _ => {},
    }
}

/// The order in which two requirements are added does not matter.
pub proof fn law_add_commutative(a: Req, b: Req)
    ensures
        a.add(b) == b.add(a),
    decreases a,
{
    if let (Req::Part(p), Req::Part(q)) = (a, b) {
        lemma_add_parts(p, q);
        lemma_add_parts(q, p);
        assert forall|i: usize| p.contains_key(i) && q.contains_key(i) implies #[trigger] p[i].add(
            q[i],
        ) == q[i].add(p[i]) by {
            law_add_commutative(p[i], q[i]);
        }
        assert(merged(p, q) =~= merged(q, p));
    }
}

/// How three requirements are grouped when they are added does not matter.
pub proof fn law_add_associative(a: Req, b: Req, c: Req)
    ensures
        a.add(b).add(c) == a.add(b.add(c)),
    decreases a,
{
    match (a, b, c) {
        (Req::Part(p), Req::Part(q), Req::Part(r)) => {
            lemma_add_parts(p, q);
            lemma_add_parts(q, r);
            lemma_add_parts(merged(p, q), r);
            lemma_add_parts(p, merged(q, r));
            assert forall|i: usize|
                p.contains_key(i) && q.contains_key(i) && r.contains_key(
                    i,
                ) implies #[trigger] p[i].add(q[i]).add(r[i]) == p[i].add(q[i].add(r[i])) by {
                law_add_associative(p[i], q[i], r[i]);
            }
            let left = merged(merged(p, q), r);
            let right = merged(p, merged(q, r));
            assert forall|i: usize| #[trigger] left.contains_key(i) implies left[i]
                == right[i] by {
                if p.contains_key(i) && q.contains_key(i) && r.contains_key(i) {
                    assert(p[i].add(q[i]).add(r[i]) == p[i].add(q[i].add(r[i])));
                }
            }
            assert(left =~= right);
        },
        _ => {},
    }
}

/// A requirement contains another exactly where adding the other changes
/// nothing.
pub proof fn law_contains_add(a: Req, b: Req)
    ensures
        a.contains(b) <==> a.add(b) == a,
    decreases a,
{
    if let (Req::Part(p), Req::Part(q)) = (a, b) {
        lemma_add_parts(p, q);
        lemma_contains_parts(p, q);
        assert forall|i: usize| p.contains_key(i) && #[trigger] q.contains_key(i) implies (
        p[i].contains(q[i]) <==> p[i].add(q[i]) == p[i]) by {
            law_contains_add(p[i], q[i]);
        }
        if covers(p, q) {
            assert(merged(p, q) =~= p);
        }
        if merged(p, q) == p {
            assert forall|i: usize| #[trigger] q.contains_key(i) implies p.contains_key(i)
                && p[i].contains(q[i]) by {
                assert(merged(p, q).contains_key(i));
                assert(merged(p, q)[i] == p[i]);
            }
        }
    }
}

/// Adding a requirement to itself changes nothing.
pub proof fn law_add_idempotent(r: Req)
    ensures
        r.add(r) == r,
{
    law_contains_reflexive(r);
    law_contains_add(r, r);
}

/// A sum contains what was added, and is contained in all that contains it.
pub proof fn law_add_least(a: Req, b: Req, c: Req)
    ensures
        a.add(b).contains(a),
        a.add(b).contains(b),
        c.contains(a) && c.contains(b) ==> c.contains(a.add(b)),
{
    law_add_associative(a, b, b);
    law_add_idempotent(b);
    law_contains_add(a.add(b), b);
    law_add_commutative(a, b);
    law_add_associative(b, a, a);
    law_add_idempotent(a);
    law_contains_add(a.add(b), a);
    law_contains_add(c, a);
    law_contains_add(c, b);
    law_add_associative(c, a, b);
    law_contains_add(c, a.add(b));
}

/// Once a part has been written, no more is required than before.
pub proof fn law_remove_lowers(req: Req, part: Req, ty: Option<usize>, types: Seq<Type>)
    requires
        req.remove(part, ty, types) is Some,
    ensures
        req.contains(req.remove(part, ty, types)->0),
    decreases part,
{
    law_contains_reflexive(req);
    match (part, req) {
        (Req::Part(gone), Req::Part(now)) => {
            lemma_remove_parts(req, gone, ty, types);
            let left = req.remove(part, ty, types)->0->Part_0;
            lemma_contains_parts(now, left);
            assert forall|i: usize| #[trigger] left.contains_key(i) implies now.contains_key(i)
                && now[i].contains(left[i]) by {
                assert(now.contains_key(i));
                if gone.contains_key(i) {
                    law_remove_lowers(
                        now[i],
                        gone[i],
                        part_type(members_of(ty, types), i),
                        types,
                    );
                } else {
                    law_contains_reflexive(now[i]);
                }
            }
        },
        _ => {},
    }
}

/// A write to a whole value leaves nothing but that the value exists; a write
/// to a part of it takes no required part away.
pub proof fn law_remove_keeps_parts(req: Req, part: Req, ty: Option<usize>, types: Seq<Type>)
    requires
        req.remove(part, ty, types) is Some,
    ensures
        part is All ==> req.remove(part, ty, types) == Some(Req::Exist),
        part is Part && req is Part ==> req.remove(part, ty, types)->0 is Part && req.remove(
            part,
            ty,
            types,
        )->0->Part_0.dom() == req->Part_0.dom(),
{
    if let (Req::Part(gone), Req::Part(_)) = (part, req) {
        lemma_remove_parts(req, gone, ty, types);
    }
}

/// Whether each requirement on the way to the part is one on parts, or none.
pub open spec fn told_apart(req: Req, part: Req, ty: Option<usize>, types: Seq<Type>) -> bool
    decreases part,
{
    match part {
        Req::Part(parts) => match opened(req, ty, types) {
            Req::Part(now) => {
                let i = parts.dom().choose();
                parts.contains_key(i) && now.contains_key(i) ==> told_apart(
                    now[i],
                    parts[i],
                    part_type(members_of(ty, types), i),
                    types,
                )
            },
            Req::Exist => true,
            Req::All => false,
        },
        _ => true,
    }
}

/// Once the requirement on a part is taken away, a write to the same part is
/// not required any more, where the parts are told apart.
pub proof fn law_written_not_required(req: Req, part: Req, ty: Option<usize>, types: Seq<Type>)
    requires
        is_path(part),
        told_apart(req, part, ty, types),
        req.remove(part, ty, types) is Some,
    ensures
        stored(req.remove(part, ty, types), part) is None,
    decreases part,
{
    if let Req::Part(gone) = part {
        let i = gone.dom().choose();
        if let Req::Part(now) = opened(req, ty, types) {
            lemma_remove_parts(req, gone, ty, types);
            let left = req.remove(part, ty, types)->0->Part_0;
            if now.contains_key(i) {
                assert(gone.contains_key(i));
                assert(left.dom().contains(i));
                assert(at_index(left, i) == Some(left[i]));
                assert(Some(left[i]) == left_of(now, gone, ty, types, i));
                law_written_not_required(
                    now[i],
                    gone[i],
                    part_type(members_of(ty, types), i),
                    types,
                );
            } else {
                assert(!left.dom().contains(i));
                assert(at_index(left, i) is None);
            }
            assert(req.remove(part, ty, types) == Some(Req::Part(left)));
            assert(stored(Some(Req::Part(left)), part) == stored(at_index(left, i), gone[i]));
        }
    }
}

/// A map of requirements covers itself.
pub proof fn lemma_covers_reflexive(a: Map<usize, Req>)
    ensures
        covers(a, a),
{
    assert forall|i: usize| #[trigger] a.contains_key(i) implies a[i].contains(a[i]) by {
        law_contains_reflexive(a[i]);
    }
}

/// What covers a map of requirements covers all that this one covers.
pub proof fn lemma_covers_transitive(a: Map<usize, Req>, b: Map<usize, Req>, c: Map<usize, Req>)
    requires
        covers(a, b),
        covers(b, c),
    ensures
        covers(a, c),
{
    assert forall|i: usize| #[trigger] c.contains_key(i) implies a.contains_key(i) && a[i].contains(
        c[i],
    ) by {
        assert(b.contains_key(i));
        law_contains_transitive(a[i], b[i], c[i]);
    }
}

/// Maps of requirements that are merged are covered.
pub proof fn lemma_merged_covers(a: Map<usize, Req>, b: Map<usize, Req>)
    ensures
        covers(merged(a, b), a),
        covers(merged(a, b), b),
        merged(a, b) == merged(b, a),
        merged(a, a) == a,
{
    assert forall|i: usize| #[trigger] a.contains_key(i) implies merged(a, b)[i].contains(a[i]) by {
        law_contains_reflexive(a[i]);
        law_add_least(a[i], b[i], a[i]);
    }
    assert forall|i: usize| #[trigger] b.contains_key(i) implies merged(a, b)[i].contains(b[i]) by {
        law_contains_reflexive(b[i]);
        law_add_least(a[i], b[i], b[i]);
    }
    assert forall|i: usize| #[trigger] merged(a, b).contains_key(i) implies merged(a, b)[i]
        == merged(b, a)[i] by {
        law_add_commutative(a[i], b[i]);
    }
    assert(merged(a, b) =~= merged(b, a));
    assert forall|i: usize| #[trigger] merged(a, a).contains_key(i) implies merged(a, a)[i]
        == a[i] by {
        law_add_idempotent(a[i]);
    }
    assert(merged(a, a) =~= a);
}

/// A context contains itself.
pub proof fn law_context_reflexive(a: Context)
    ensures
        a.contains(a),
{
    lemma_covers_reflexive(a.globals);
    lemma_covers_reflexive(a.locals);
    assert forall|i: int| 0 <= i < a.args.len() implies opt_contains(
        #[trigger] a.args[i],
        a.args[i],
    ) by {
        if a.args[i] is Some {
            law_contains_reflexive(a.args[i]->0);
        }
    }
    if a.retval is Some {
        law_contains_reflexive(a.retval->0);
    }
}

/// What contains a context contains all that this one contains, where this one
/// has the arguments that the other two share.
pub proof fn law_context_transitive(a: Context, b: Context, c: Context)
    requires
        a.contains(b),
        b.contains(c),
        b.args.len() >= a.args.len() || b.args.len() >= c.args.len(),
    ensures
        a.contains(c),
{
    lemma_covers_transitive(a.globals, b.globals, c.globals);
    lemma_covers_transitive(a.locals, b.locals, c.locals);
    assert forall|i: int| 0 <= i < a.args.len() && i < c.args.len() implies opt_contains(
        #[trigger] a.args[i],
        c.args[i],
    ) by {
        assert(opt_contains(b.args[i], c.args[i]));
        assert(opt_contains(a.args[i], b.args[i]));
        if c.args[i] is Some {
            law_contains_transitive(a.args[i]->0, b.args[i]->0, c.args[i]->0);
        }
    }
    if c.retval is Some {
        law_contains_transitive(a.retval->0, b.retval->0, c.retval->0);
    }
}

/// A merged context contains both contexts that were merged, in either order.
pub proof fn law_merge_contains(a: Context, b: Context)
    ensures
        a.merge(b).contains(a),
        a.merge(b).contains(b),
        a.merge(b) == b.merge(a),
        a.merge(a) == a,
{
    lemma_merged_covers(a.globals, b.globals);
    lemma_merged_covers(a.locals, b.locals);
    let args = args_merged(a.args, b.args);
    assert forall|i: int| 0 <= i < args.len() implies {
        &&& opt_contains(#[trigger] args[i], a.args[i])
        &&& opt_contains(args[i], b.args[i])
        &&& args[i] == opt_add(b.args[i], a.args[i])
    } by {
        lemma_opt_add(a.args[i], b.args[i]);
    }
    lemma_opt_add(a.retval, b.retval);
    lemma_opt_add(a.retval, a.retval);
    assert(args =~= args_merged(b.args, a.args));
    assert forall|i: int| 0 <= i < a.args.len() implies opt_add(#[trigger] a.args[i], a.args[i])
        == a.args[i] by {
        lemma_opt_add(a.args[i], a.args[i]);
    }
    assert(args_merged(a.args, a.args) =~= a.args);
}

/// What contains two contexts contains the merged one: no more is required
/// there than by one of the two.
pub proof fn law_merge_least(a: Context, b: Context, c: Context)
    requires
        c.contains(a),
        c.contains(b),
    ensures
        c.contains(a.merge(b)),
{
    lemma_merged_least(a.globals, b.globals, c.globals);
    lemma_merged_least(a.locals, b.locals, c.locals);
    let args = args_merged(a.args, b.args);
    assert forall|i: int| 0 <= i < c.args.len() && i < args.len() implies opt_contains(
        #[trigger] c.args[i],
        args[i],
    ) by {
        assert(opt_contains(c.args[i], a.args[i]));
        assert(opt_contains(c.args[i], b.args[i]));
        lemma_opt_least(a.args[i], b.args[i], c.args[i]);
    }
    lemma_opt_least(a.retval, b.retval, c.retval);
}

/// What covers two maps of requirements covers the merged one.
proof fn lemma_merged_least(a: Map<usize, Req>, b: Map<usize, Req>, c: Map<usize, Req>)
    requires
        covers(c, a),
        covers(c, b),
    ensures
        covers(c, merged(a, b)),
{
    assert forall|i: usize| #[trigger] merged(a, b).contains_key(i) implies c.contains_key(i)
        && c[i].contains(merged(a, b)[i]) by {
        assert(a.contains_key(i) || b.contains_key(i));
        law_add_least(a[i], b[i], c[i]);
    }
}

/// What contains two optional requirements contains their sum.
proof fn lemma_opt_least(a: Option<Req>, b: Option<Req>, c: Option<Req>)
    requires
        opt_contains(c, a),
        opt_contains(c, b),
    ensures
        opt_contains(c, opt_add(a, b)),
{
    if let (Some(a), Some(b), Some(c)) = (a, b, c) {
        law_add_least(a, b, c);
    }
}

/// Optional requirements that are added are contained in the sum.
proof fn lemma_opt_add(a: Option<Req>, b: Option<Req>)
    ensures
        opt_contains(opt_add(a, b), a),
        opt_contains(opt_add(a, b), b),
        opt_add(a, b) == opt_add(b, a),
        opt_add(a, a) == a,
{
    if let Some(a) = a {
        law_contains_reflexive(a);
        law_add_idempotent(a);
    }
    if let Some(b) = b {
        law_contains_reflexive(b);
    }
    if let (Some(a), Some(b)) = (a, b) {
        law_add_commutative(a, b);
        law_add_least(a, b, a);
    }
}

} // verus!
