//! The required fraction of an expression or variable.
use crate::ir::{Type, TypeInner};
use crate::table::{lists, sorted_entries};
use std::collections::BTreeMap;
use vstd::prelude::*;

verus! {

/// What a [`PartReq`] says: the mathematical requirement.
pub enum Req {
    All,
    Part(Map<usize, Req>),
    Exist,
}

/// The parts `0..n`, each with the requirement `req`.
pub open spec fn each_of(n: usize, req: Req) -> Req {
    Req::Part(Map::new(|i: usize| i < n, |i: usize| req))
}

/// The single part `index`, with the requirement `req`.
pub open spec fn only(index: usize, req: Req) -> Req {
    Req::Part(Map::<usize, Req>::empty().insert(index, req))
}

/// A whole value of the type `inner`, spelled out in its parts.
pub open spec fn whole(inner: TypeInner) -> Req {
    match inner {
        TypeInner::Vector { size, .. } => each_of(size.lanes_spec(), Req::All),
        TypeInner::Matrix { columns, rows, .. } => each_of(
            columns.lanes_spec(),
            each_of(rows.lanes_spec(), Req::All),
        ),
        TypeInner::Struct { members, .. } => each_of(members.len(), Req::All),
        _ => Req::All,
    }
}

/// The types of the members, for a structure type.
pub open spec fn member_types(inner: TypeInner) -> Option<Seq<usize>> {
    match inner {
        TypeInner::Struct { members, .. } => Some(
            Seq::new(members@.len(), |i: int| members@[i].ty),
        ),
        _ => None,
    }
}

/// The type of part `index`, where the types of the parts are known.
pub open spec fn part_type(members: Option<Seq<usize>>, index: usize) -> Option<usize> {
    match members {
        Some(members) => Some(members[index as int]),
        None => None,
    }
}

impl Req {
    /// Whether all that `other` requires is required here too.
    pub open spec fn contains(self, other: Req) -> bool
        decreases self,
    {
        match (self, other) {
            (Req::All, _) => true,
            (_, Req::Exist) => true,
            (Req::Exist, _) => false,
            (Req::Part(_), Req::All) => false,
            (Req::Part(a), Req::Part(b)) => holds_for_each(
                b,
                |i: usize| a.contains_key(i) && a[i].contains(b[i]),
            ),
        }
    }

    /// Whether nothing but existence is asked for, of the value or of parts of
    /// it.
    pub open spec fn bare(self) -> bool
        decreases self,
    {
        match self {
            Req::All => false,
            Req::Part(parts) => {
                &&& exists|i: usize| #[trigger] parts.contains_key(i)
                &&& holds_for_each(parts, |i: usize| parts.contains_key(i) && parts[i].bare())
            },
            Req::Exist => true,
        }
    }

    /// The least requirement that contains both.
    pub open spec fn add(self, other: Req) -> Req
        decreases self,
    {
        match (self, other) {
            (Req::All, _) | (_, Req::All) => Req::All,
            (Req::Exist, _) => other,
            (_, Req::Exist) => self,
            (Req::Part(a), Req::Part(b)) => Req::Part(
                Map::new(
                    |i: usize| a.contains_key(i) || b.contains_key(i),
                    |i: usize|
                        if !a.contains_key(i) {
                            b[i]
                        } else if !b.contains_key(i) {
                            a[i]
                        } else {
                            a[i].add(b[i])
                        },
                ),
            ),
        }
    }

    /// What remains required of a value once the part `other` of it has been
    /// written: a written part is downgraded to `Exist`, and no part goes
    /// away. `ty` is the type of the value where it is known. `None` where a
    /// type does not exist or has no part of some index.
    pub open spec fn remove(self, other: Req, ty: Option<usize>, types: Seq<Type>) -> Option<Req>
        decreases other,
    {
        match other {
            Req::All => Some(Req::Exist),
            Req::Exist => Some(self),
            Req::Part(gone) => {
                if ty is Some && ty->0 >= types.len() {
                    None
                } else {
                    match opened(self, ty, types) {
                        Req::Part(now) => map_parts(
                            now,
                            |i: usize|
                                if !gone.contains_key(i) {
                                    Some(now[i])
                                } else if has_member(members_of(ty, types), i) {
                                    now[i].remove(
                                        gone[i],
                                        part_type(members_of(ty, types), i),
                                        types,
                                    )
                                } else {
                                    None
                                },
                        ),
                        unbroken => Some(unbroken),
                    }
                }
            },
        }
    }
}

/// Whether `p` holds of each index of `parts`.
pub open spec fn holds_for_each(parts: Map<usize, Req>, p: spec_fn(usize) -> bool) -> bool {
    forall|i: usize| #[trigger] parts.contains_key(i) ==> p(i)
}

/// The requirement that puts `f` on each index of `parts`, if `f` is known of
/// all of them.
pub open spec fn map_parts(parts: Map<usize, Req>, f: spec_fn(usize) -> Option<Req>) -> Option<
    Req,
> {
    if holds_for_each(parts, |i: usize| f(i) is Some) {
        Some(Req::Part(Map::new(|i: usize| parts.contains_key(i), |i: usize| f(i)->0)))
    } else {
        None
    }
}

/// Whether `index` is that of a member, where the members are known.
pub open spec fn has_member(members: Option<Seq<usize>>, index: usize) -> bool {
    members is Some ==> index < members->0.len()
}

/// Whether `a` requires of each index what `b` requires of it.
pub open spec fn covers(a: Map<usize, Req>, b: Map<usize, Req>) -> bool {
    forall|i: usize| #[trigger] b.contains_key(i) ==> a.contains_key(i) && a[i].contains(b[i])
}

/// What `a` and `b` together require of each index.
pub open spec fn merged(a: Map<usize, Req>, b: Map<usize, Req>) -> Map<usize, Req> {
    Map::new(
        |i: usize| a.contains_key(i) || b.contains_key(i),
        |i: usize|
            if !a.contains_key(i) {
                b[i]
            } else if !b.contains_key(i) {
                a[i]
            } else {
                a[i].add(b[i])
            },
    )
}

/// What remains required of index `i` of `now` once the parts `gone` have
/// been written.
pub open spec fn left_of(
    now: Map<usize, Req>,
    gone: Map<usize, Req>,
    ty: Option<usize>,
    types: Seq<Type>,
    i: usize,
) -> Option<Req> {
    if !gone.contains_key(i) {
        Some(now[i])
    } else if has_member(members_of(ty, types), i) {
        now[i].remove(gone[i], part_type(members_of(ty, types), i), types)
    } else {
        None
    }
}

/// The requirements on the parts decide whether one requirement contains
/// another.
pub proof fn lemma_contains_parts(a: Map<usize, Req>, b: Map<usize, Req>)
    ensures
        Req::Part(a).contains(Req::Part(b)) == covers(a, b),
{
    let p = |i: usize| a.contains_key(i) && a[i].contains(b[i]);
    assert(Req::Part(a).contains(Req::Part(b)) == holds_for_each(b, p));
    if holds_for_each(b, p) {
        assert forall|i: usize| #[trigger] b.contains_key(i) implies a.contains_key(i)
            && a[i].contains(b[i]) by {
            assert(p(i));
        }
    }
    if covers(a, b) {
        assert(holds_for_each(b, p));
    }
}

/// The requirements on the parts decide whether nothing but existence is asked
/// for.
pub proof fn lemma_bare_parts(parts: Map<usize, Req>)
    ensures
        Req::Part(parts).bare() == {
            &&& exists|i: usize| #[trigger] parts.contains_key(i)
            &&& forall|i: usize| #[trigger] parts.contains_key(i) ==> parts[i].bare()
        },
{
    let p = |i: usize| parts.contains_key(i) && parts[i].bare();
    assert(holds_for_each(parts, p) ==> forall|i: usize| #[trigger]
        parts.contains_key(i) ==> parts[i].bare()) by {
        if holds_for_each(parts, p) {
            assert forall|i: usize| #[trigger] parts.contains_key(i) implies parts[i].bare() by {
                assert(p(i));
            }
        }
    }
}

/// Two requirements on parts are added index by index.
pub proof fn lemma_add_parts(a: Map<usize, Req>, b: Map<usize, Req>)
    ensures
        Req::Part(a).add(Req::Part(b)) == Req::Part(merged(a, b)),
{
    assert(Req::Part(a).add(Req::Part(b))->Part_0 =~= merged(a, b));
}

/// A written part is taken from a requirement on parts index by index.
pub proof fn lemma_remove_parts(
    req: Req,
    gone: Map<usize, Req>,
    ty: Option<usize>,
    types: Seq<Type>,
)
    requires
        ty is Some ==> ty->0 < types.len(),
        opened(req, ty, types) is Part,
    ensures
        ({
            let now = opened(req, ty, types)->Part_0;
            let r = req.remove(Req::Part(gone), ty, types);
            &&& r is Some <==> forall|i: usize| #[trigger]
                now.contains_key(i) ==> left_of(now, gone, ty, types, i) is Some
            &&& r is Some ==> r->0 is Part && r->0->Part_0.dom() == now.dom() && forall|i: usize|
             #[trigger]
                now.contains_key(i) ==> Some(r->0->Part_0[i]) == left_of(now, gone, ty, types, i)
        }),
{
    let now = opened(req, ty, types)->Part_0;
    let r = req.remove(Req::Part(gone), ty, types);
    if r is Some {
        assert(r->0->Part_0.dom() =~= now.dom());
    }
}

/// The requirement `req` on a value of type `ty`, spelled out in parts where
/// it is on the whole value and the type is known.
pub open spec fn opened(req: Req, ty: Option<usize>, types: Seq<Type>) -> Req {
    if req is All && ty is Some {
        whole(types[ty->0 as int].inner)
    } else {
        req
    }
}

/// The types of the members of a value of type `ty`, where they are known.
pub open spec fn members_of(ty: Option<usize>, types: Seq<Type>) -> Option<Seq<usize>> {
    if ty is Some {
        member_types(types[ty->0 as int].inner)
    } else {
        None
    }
}

/// Description of the required fraction of an expression or variable.
///
/// After storing to a variable or to a part of it, the requirement on what was
/// stored to is replaced by [`PartReq::Exist`]. Required parts are not removed,
/// only downgraded to `Exist`.
#[derive(Hash, PartialEq, PartialOrd, Ord, Eq, Debug)]
pub enum PartReq {
    All,
    Part(BTreeMap<usize, PartReq>),
    /// Needs to be present, but its contents don't matter.
    Exist,
}

/// The requirements that `parts` puts on each index.
pub open spec fn reqs_of(parts: Map<usize, PartReq>) -> Map<usize, Req> {
    parts.map_values(|p: PartReq| p@)
}

impl View for PartReq {
    type V = Req;

    open spec fn view(&self) -> Req {
        self.req()
    }
}

impl Clone for PartReq {
    fn clone(&self) -> (r: PartReq)
        ensures
            r@ == self@,
    {
        self.copy()
    }
}

impl PartReq {
    /// The mathematical requirement.
    pub open spec fn req(self) -> Req
        decreases self,
    {
        match self {
            PartReq::All => Req::All,
            PartReq::Exist => Req::Exist,
            PartReq::Part(parts) => Req::Part(
                Map::new(
                    |i: usize| parts@.contains_key(i),
                    |i: usize|
                        if parts@.contains_key(i) {
                            parts@[i].req()
                        } else {
                            arbitrary()
                        },
                ),
            ),
        }
    }

    /// The requirement of a map of parts.
    pub proof fn lemma_part_view(parts: BTreeMap<usize, PartReq>)
        ensures
            PartReq::Part(parts)@ == Req::Part(reqs_of(parts@)),
    {
        assert(PartReq::Part(parts)@->Part_0 =~= reqs_of(parts@));
    }

    fn copy(&self) -> (r: PartReq)
        ensures
            r@ == self@,
        decreases self,
    {
        match self {
            PartReq::All => PartReq::All,
            PartReq::Exist => PartReq::Exist,
            PartReq::Part(parts) => {
                let mut out: BTreeMap<usize, PartReq> = BTreeMap::new();
                let entries = sorted_entries(parts);
                let mut n: usize = 0;
                while n < entries.len()
                    invariant
                        n <= entries.len(),
                        lists(entries@, parts@),
                        self == PartReq::Part(*parts),
                        forall|k: usize| #[trigger]
                            out@.contains_key(k) <==> exists|j: int|
                                0 <= j < n && (#[trigger] entries[j]).0 == k,
                        forall|k: usize| #[trigger]
                            out@.contains_key(k) ==> parts@.contains_key(k) && out@[k]@
                                == parts@[k]@,
                    decreases entries.len() - n,
                {
                    let (i, p) = entries[n];
                    assert(parts@[i] == *p);
                    assert(decreases_to!(self => self->Part_0));
                    assert(decreases_to!(*parts => parts@));
                    assert(decreases_to!(parts@ => parts@[i]));
                    out.insert(i, p.copy());
                    n = n + 1;
                }
                proof {
                    PartReq::lemma_part_view(*parts);
                    PartReq::lemma_part_view(out);
                    assert(reqs_of(out@) =~= reqs_of(parts@));
                }
                PartReq::Part(out)
            },
        }
    }

    /// Whether all that `other` requires is required here too.
    pub fn contains(&self, other: &PartReq) -> (r: bool)
        ensures
            r == self@.contains(other@),
        decreases self,
    {
        match (self, other) {
            (PartReq::All, _) => true,
            (_, PartReq::Exist) => true,
            (PartReq::Exist, _) => false,
            (PartReq::Part(_), PartReq::All) => false,
            (PartReq::Part(current), PartReq::Part(new)) => {
                proof {
                    PartReq::lemma_part_view(*current);
                    PartReq::lemma_part_view(*new);
                    lemma_contains_parts(reqs_of(current@), reqs_of(new@));
                }
                let entries = sorted_entries(new);
                let mut n: usize = 0;
                while n < entries.len()
                    invariant
                        n <= entries.len(),
                        lists(entries@, new@),
                        self == PartReq::Part(*current),
                        self@.contains(other@) == covers(reqs_of(current@), reqs_of(new@)),
                        forall|j: int|
                            0 <= j < n ==> current@.contains_key((#[trigger] entries[j]).0)
                                && current@[entries[j].0]@.contains(new@[entries[j].0]@),
                    decreases entries.len() - n,
                {
                    let (i, p) = entries[n];
                    assert(reqs_of(new@).contains_key(i));
                    match current.get(&i) {
                        None => {
                            return false;
                        },
                        Some(c) => {
                            assert(decreases_to!(self => current@[i]));
                            assert(reqs_of(current@)[i] == c@ && reqs_of(new@)[i] == p@);
                            if !c.contains(p) {
                                return false;
                            }
                        },
                    }
                    n = n + 1;
                }
                assert forall|i: usize| #[trigger] reqs_of(new@).contains_key(i) implies reqs_of(
                    current@,
                ).contains_key(i) && reqs_of(current@)[i].contains(reqs_of(new@)[i]) by {
                    assert(new@.contains_key(i));
                }
                true
            },
        }
    }

    /// Whether nothing but existence is asked for, of the value or of parts of
    /// it.
    pub(crate) fn is_bare(&self) -> (r: bool)
        ensures
            r == self@.bare(),
        decreases self,
    {
        match self {
            PartReq::All => false,
            PartReq::Exist => true,
            PartReq::Part(parts) => {
                proof {
                    PartReq::lemma_part_view(*parts);
                    lemma_bare_parts(reqs_of(parts@));
                }
                let ghost reqs = reqs_of(parts@);
                let entries = sorted_entries(parts);
                let mut n: usize = 0;
                while n < entries.len()
                    invariant
                        n <= entries.len(),
                        lists(entries@, parts@),
                        self == PartReq::Part(*parts),
                        reqs == reqs_of(parts@),
                        self@.bare() == {
                            &&& exists|i: usize| #[trigger] reqs.contains_key(i)
                            &&& forall|i: usize| #[trigger]
                                reqs.contains_key(i) ==> reqs[i].bare()
                        },
                        forall|j: int|
                            0 <= j < n ==> parts@[(#[trigger] entries[j]).0]@.bare(),
                    decreases entries.len() - n,
                {
                    let (i, p) = entries[n];
                    assert(parts@.contains_key(entries@[n as int].0));
                    assert(reqs.contains_key(i) && reqs[i] == p@);
                    assert(decreases_to!(self => parts@[i]));
                    if !p.is_bare() {
                        return false;
                    }
                    n = n + 1;
                }
                assert forall|i: usize| #[trigger] reqs.contains_key(i) implies reqs[i].bare() by {
                    assert(parts@.contains_key(i));
                }
                proof {
                    if entries.len() > 0 {
                        assert(parts@.contains_key(entries@[0].0));
                        assert(reqs.contains_key(entries@[0].0));
                    } else if exists|i: usize| #[trigger] reqs.contains_key(i) {
                        let i = choose|i: usize| #[trigger] reqs.contains_key(i);
                        assert(parts@.contains_key(i));
                    }
                }
                entries.len() > 0
            },
        }
    }

    /// The requirement that contains both.
    pub fn add(&self, other: &PartReq) -> (r: PartReq)
        ensures
            r@ == self@.add(other@),
        decreases self,
    {
        match (self, other) {
            (PartReq::All, _) | (_, PartReq::All) => PartReq::All,
            (PartReq::Exist, _) => other.clone(),
            (_, PartReq::Exist) => self.clone(),
            (PartReq::Part(a), PartReq::Part(b)) => {
                let mut merger: BTreeMap<usize, PartReq> = BTreeMap::new();
                let entries = sorted_entries(a);
                let mut n: usize = 0;
                while n < entries.len()
                    invariant
                        n <= entries.len(),
                        lists(entries@, a@),
                        self == PartReq::Part(*a),
                        forall|k: usize| #[trigger]
                            merger@.contains_key(k) <==> exists|j: int|
                                0 <= j < n && (#[trigger] entries[j]).0 == k,
                        forall|k: usize| #[trigger]
                            merger@.contains_key(k) ==> a@.contains_key(k) && merger@[k]@ == (
                            if b@.contains_key(k) {
                                a@[k]@.add(b@[k]@)
                            } else {
                                a@[k]@
                            }),
                    decreases entries.len() - n,
                {
                    let (i, p) = entries[n];
                    assert(decreases_to!(self => self->Part_0));
                    assert(decreases_to!(*a => a@));
                    assert(decreases_to!(a@ => a@[i]));
                    let sum = match b.get(&i) {
                        Some(other_subpart) => p.add(other_subpart),
                        None => p.clone(),
                    };
                    merger.insert(i, sum);
                    n = n + 1;
                }
                let rest = sorted_entries(b);
                let mut n: usize = 0;
                while n < rest.len()
                    invariant
                        n <= rest.len(),
                        lists(rest@, b@),
                        forall|k: usize| #[trigger]
                            merger@.contains_key(k) <==> a@.contains_key(k) || exists|j: int|
                                0 <= j < n && (#[trigger] rest[j]).0 == k,
                        forall|k: usize| #[trigger]
                            merger@.contains_key(k) ==> (a@.contains_key(k) || b@.contains_key(k))
                                && merger@[k]@ == (if !a@.contains_key(k) {
                                b@[k]@
                            } else if !b@.contains_key(k) {
                                a@[k]@
                            } else {
                                a@[k]@.add(b@[k]@)
                            }),
                    decreases rest.len() - n,
                {
                    let (i, p) = rest[n];
                    if !a.contains_key(&i) {
                        merger.insert(i, p.clone());
                    }
                    n = n + 1;
                }
                proof {
                    PartReq::lemma_part_view(*a);
                    PartReq::lemma_part_view(*b);
                    PartReq::lemma_part_view(merger);
                    lemma_add_parts(reqs_of(a@), reqs_of(b@));
                    assert(reqs_of(merger@) =~= merged(reqs_of(a@), reqs_of(b@)));
                }
                PartReq::Part(merger)
            },
        }
    }

    /// The parts `0..n`, each with the requirement `req`.
    fn each_of(n: usize, req: &PartReq) -> (r: PartReq)
        ensures
            r@ == each_of(n, req@),
    {
        let mut parts: BTreeMap<usize, PartReq> = BTreeMap::new();
        let mut i: usize = 0;
        while i < n
            invariant
                i <= n,
                forall|k: usize| #[trigger] parts@.contains_key(k) <==> k < i,
                forall|k: usize| #[trigger] parts@.contains_key(k) ==> parts@[k]@ == req@,
            decreases n - i,
        {
            parts.insert(i, req.clone());
            i = i + 1;
        }
        proof {
            PartReq::lemma_part_view(parts);
            assert(reqs_of(parts@) =~= each_of(n, req@)->Part_0);
        }
        PartReq::Part(parts)
    }

    /// The single part `index`, with the requirement `req`.
    pub fn only(index: usize, req: PartReq) -> (r: PartReq)
        ensures
            r@ == only(index, req@),
    {
        let mut parts: BTreeMap<usize, PartReq> = BTreeMap::new();
        parts.insert(index, req);
        proof {
            PartReq::lemma_part_view(parts);
            assert(reqs_of(parts@) =~= only(index, req@)->Part_0);
        }
        PartReq::Part(parts)
    }

    /// A whole value of the type `ty`, spelled out in its parts, and the types
    /// of the parts for a structure.
    pub fn type_to_parts(ty: usize, types: &Vec<Type>) -> (r: (PartReq, Option<Vec<usize>>))
        requires
            ty < types.len(),
        ensures
            r.0@ == whole(types[ty as int].inner),
            r.1 is Some <==> member_types(types[ty as int].inner) is Some,
            r.1 matches Some(members) ==> members@ == member_types(types[ty as int].inner)->0,
    {
        match &types[ty].inner {
            TypeInner::Scalar { .. } => (PartReq::All, None),
            TypeInner::Vector { size, .. } => (
                PartReq::each_of(size.lanes(), &PartReq::All),
                None,
            ),
            TypeInner::Matrix { columns, rows, .. } => (
                PartReq::each_of(columns.lanes(), &PartReq::each_of(rows.lanes(), &PartReq::All)),
                None,
            ),
            TypeInner::Struct { members, .. } => {
                let mut member_types: Vec<usize> = Vec::new();
                let mut i: usize = 0;
                while i < members.len()
                    invariant
                        i <= members.len(),
                        member_types.len() == i,
                        forall|j: int|
                            0 <= j < i ==> #[trigger] member_types[j] == members[j].ty,
                    decreases members.len() - i,
                {
                    member_types.push(members[i].ty);
                    i = i + 1;
                }
                (PartReq::each_of(members.len(), &PartReq::All), Some(member_types))
            },
            _ => (PartReq::All, None),
        }
    }

    /// What remains required once the part `other` has been written.
    pub fn remove(&self, other: &PartReq, ty: Option<usize>, types: &Vec<Type>) -> (r: Option<
        PartReq,
    >)
        ensures
            r is Some <==> self@.remove(other@, ty, types@) is Some,
            r matches Some(left) ==> Some(left@) == self@.remove(other@, ty, types@),
        decreases other,
    {
        match other {
            PartReq::All => Some(PartReq::Exist),
            PartReq::Exist => Some(self.clone()),
            PartReq::Part(gone) => {
                proof {
                    PartReq::lemma_part_view(*gone);
                }
                let mut members: Option<Vec<usize>> = None;
                let mut start = self.clone();
                if let Some(ty) = ty {
                    if ty >= types.len() {
                        return None;
                    }
                    let (parts, subtypes) = PartReq::type_to_parts(ty, types);
                    if let PartReq::All = self {
                        start = parts;
                    }
                    members = subtypes;
                }
                assert(start@ == opened(self@, ty, types@));
                match start {
                    PartReq::Part(now) => {
                        proof {
                            PartReq::lemma_part_view(now);
                            lemma_remove_parts(self@, reqs_of(gone@), ty, types@);
                        }
                        let mut left: BTreeMap<usize, PartReq> = BTreeMap::new();
                        let entries = sorted_entries(&now);
                        let mut n: usize = 0;
                        while n < entries.len()
                            invariant
                                n <= entries.len(),
                                lists(entries@, now@),
                                other == PartReq::Part(*gone),
                                members is Some <==> members_of(ty, types@) is Some,
                                members is Some ==> members->0@ == members_of(ty, types@)->0,
                                self@.remove(other@, ty, types@) is Some <==> forall|i: usize|
                                 #[trigger]
                                    reqs_of(now@).contains_key(i) ==> left_of(
                                        reqs_of(now@),
                                        reqs_of(gone@),
                                        ty,
                                        types@,
                                        i,
                                    ) is Some,
                                forall|k: usize| #[trigger]
                                    left@.contains_key(k) <==> exists|j: int|
                                        0 <= j < n && (#[trigger] entries[j]).0 == k,
                                forall|k: usize| #[trigger]
                                    left@.contains_key(k) ==> Some(left@[k]@) == left_of(
                                        reqs_of(now@),
                                        reqs_of(gone@),
                                        ty,
                                        types@,
                                        k,
                                    ),
                            decreases entries.len() - n,
                        {
                            let (i, subpart) = entries[n];
                            assert(reqs_of(now@).contains_key(i));
                            assert(reqs_of(gone@).contains_key(i) <==> gone@.contains_key(i));
                            match gone.get(&i) {
                                Some(gone_subpart) => {
                                    assert(decreases_to!(other => gone@[i]));
                                    let subtype = match &members {
                                        Some(members) => {
                                            if i >= members.len() {
                                                return None;
                                            }
                                            Some(members[i])
                                        },
                                        None => None,
                                    };
                                    match subpart.remove(gone_subpart, subtype, types) {
                                        Some(reduced) => {
                                            left.insert(i, reduced);
                                        },
                                        None => {
                                            return None;
                                        },
                                    }
                                },
                                None => {
                                    left.insert(i, subpart.clone());
                                },
                            }
                            n = n + 1;
                        }
                        proof {
                            PartReq::lemma_part_view(left);
                            assert forall|i: usize| #[trigger]
                                reqs_of(now@).contains_key(i) implies left_of(
                                reqs_of(now@),
                                reqs_of(gone@),
                                ty,
                                types@,
                                i,
                            ) is Some by {
                                assert(now@.contains_key(i));
                                assert(left@.contains_key(i));
                            }
                            assert(reqs_of(left@) =~= self@.remove(
                                other@,
                                ty,
                                types@,
                            )->0->Part_0);
                        }
                        Some(PartReq::Part(left))
                    },
                    start => Some(start),
                }
            },
        }
    }
}


} // verus!
