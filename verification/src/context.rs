//! What is required at a point of the execution.
use crate::ir::{Function, Module};
use crate::part::{covers, merged, reqs_of, PartReq, Req};
use crate::table::{entries_of, listed, lists};
use std::collections::HashMap;
use vstd::prelude::*;

verus! {

/// The requirement that an optional [`PartReq`] says, if any.
pub open spec fn opt_req(part: Option<PartReq>) -> Option<Req> {
    match part {
        Some(part) => Some(part@),
        None => None,
    }
}

/// Whether all that `b` requires, if anything, `a` requires too.
pub open spec fn opt_contains(a: Option<Req>, b: Option<Req>) -> bool {
    b is Some ==> a is Some && a->0.contains(b->0)
}

/// What `a` and `b` together require, if anything.
pub open spec fn opt_add(a: Option<Req>, b: Option<Req>) -> Option<Req> {
    match (a, b) {
        (None, any) => any,
        (any, None) => any,
        (Some(a), Some(b)) => Some(a.add(b)),
    }
}

/// A variable that a pointer expression leads to.
#[derive(Debug)]
pub enum VarRef {
    Global(usize),
    Local(usize),
}

/// A variable, and the part of it that a pointer expression leads to.
#[derive(Debug)]
pub struct VarRefPart {
    pub var_ref: VarRef,
    pub part: PartReq,
}

/// What a [`RequiredContext`] says.
pub struct Context {
    pub globals: Map<usize, Req>,
    pub locals: Map<usize, Req>,
    pub args: Seq<Option<Req>>,
    pub retval: Option<Req>,
}

impl Context {
    /// Whether all that `other` requires is required here too. Arguments that
    /// only one of the two has are left out of account.
    pub open spec fn contains(self, other: Context) -> bool {
        &&& covers(self.globals, other.globals)
        &&& covers(self.locals, other.locals)
        &&& args_cover(self.args, other.args)
        &&& opt_contains(self.retval, other.retval)
    }

    /// What the two together require. Arguments that only one of the two has
    /// are left out.
    pub open spec fn merge(self, other: Context) -> Context {
        Context {
            globals: merged(self.globals, other.globals),
            locals: merged(self.locals, other.locals),
            args: args_merged(self.args, other.args),
            retval: opt_add(self.retval, other.retval),
        }
    }

    /// The requirement on a variable, if any.
    pub open spec fn of(self, var: VarRef) -> Option<Req> {
        match var {
            VarRef::Global(gv) => if self.globals.contains_key(gv) {
                Some(self.globals[gv])
            } else {
                None
            },
            VarRef::Local(lv) => if self.locals.contains_key(lv) {
                Some(self.locals[lv])
            } else {
                None
            },
        }
    }

    /// This context with the requirement `req` on the variable `var`.
    pub open spec fn with(self, var: VarRef, req: Req) -> Context {
        match var {
            VarRef::Global(gv) => Context { globals: self.globals.insert(gv, req), ..self },
            VarRef::Local(lv) => Context { locals: self.locals.insert(lv, req), ..self },
        }
    }

    /// What remains required once the part `part` of the variable `var` has
    /// been written. `None` where the variable is not required or does not
    /// exist, or where its type does not have the part.
    pub open spec fn remove(
        self,
        var: VarRef,
        part: Req,
        shader: Module,
        function: Function,
    ) -> Option<Context> {
        match (self.of(var), var_type(var, shader, function)) {
            (Some(req), Some(ty)) => match req.remove(part, Some(ty), shader.types@) {
                Some(left) => Some(self.with(var, left)),
                None => None,
            },
            _ => None,
        }
    }
}

/// Whether each argument that both have is required in `a` as far as in `b`.
pub open spec fn args_cover(a: Seq<Option<Req>>, b: Seq<Option<Req>>) -> bool {
    forall|i: int|
        0 <= i < a.len() && i < b.len() ==> opt_contains(#[trigger] a[i], b[i])
}

/// What `a` and `b` together require of each argument that both have.
pub open spec fn args_merged(a: Seq<Option<Req>>, b: Seq<Option<Req>>) -> Seq<Option<Req>> {
    Seq::new(
        if a.len() <= b.len() {
            a.len()
        } else {
            b.len()
        },
        |i: int| opt_add(a[i], b[i]),
    )
}

/// The type of a variable, if the variable exists.
pub open spec fn var_type(var: VarRef, shader: Module, function: Function) -> Option<usize> {
    match var {
        VarRef::Global(gv) => if gv < shader.global_variables.len() {
            Some(shader.global_variables[gv as int].ty)
        } else {
            None
        },
        VarRef::Local(lv) => if lv < function.local_variables.len() {
            Some(function.local_variables[lv as int].ty)
        } else {
            None
        },
    }
}

/// The requirements of a list of arguments.
pub open spec fn args_of(args: Seq<Option<PartReq>>) -> Seq<Option<Req>> {
    Seq::new(args.len(), |i: int| opt_req(args[i]))
}

/// What we currently care about at a given point in the execution.
#[derive(PartialEq, Eq, Debug)]
pub struct RequiredContext {
    pub globals: HashMap<usize, PartReq>,
    pub locals: HashMap<usize, PartReq>,
    pub args: Vec<Option<PartReq>>,
    pub retval: Option<PartReq>,
}

impl View for RequiredContext {
    type V = Context;

    open spec fn view(&self) -> Context {
        Context {
            globals: reqs_of(self.globals@),
            locals: reqs_of(self.locals@),
            args: args_of(self.args@),
            retval: opt_req(self.retval),
        }
    }
}

/// The context that requires nothing, of a function without arguments.
pub open spec fn empty_context() -> Context {
    Context {
        globals: Map::empty(),
        locals: Map::empty(),
        args: Seq::empty(),
        retval: None,
    }
}

impl Default for RequiredContext {
    fn default() -> (r: RequiredContext)
        ensures
            r@ == empty_context(),
    {
        let r = RequiredContext {
            globals: HashMap::new(),
            locals: HashMap::new(),
            args: Vec::new(),
            retval: None,
        };
        assert(r@.globals =~= Map::empty());
        assert(r@.locals =~= Map::empty());
        assert(r@.args =~= Seq::empty());
        r
    }
}

impl Clone for RequiredContext {
    fn clone(&self) -> (r: RequiredContext)
        ensures
            r@ == self@,
    {
        let globals = copy_reqs(&self.globals);
        let locals = copy_reqs(&self.locals);
        let mut args: Vec<Option<PartReq>> = Vec::new();
        let mut i: usize = 0;
        while i < self.args.len()
            invariant
                i <= self.args.len(),
                args.len() == i,
                forall|j: int| 0 <= j < i ==> opt_req(#[trigger] args[j]) == opt_req(self.args[j]),
            decreases self.args.len() - i,
        {
            args.push(copy_opt(&self.args[i]));
            i = i + 1;
        }
        let r = RequiredContext { globals, locals, args, retval: copy_opt(&self.retval) };
        assert(r@.args =~= self@.args);
        r
    }
}

/// The same optional requirement.
pub fn copy_opt(part: &Option<PartReq>) -> (r: Option<PartReq>)
    ensures
        opt_req(r) == opt_req(*part),
{
    match part {
        Some(part) => Some(part.clone()),
        None => None,
    }
}

/// What two optional requirements together require.
pub fn add_opt(a: &Option<PartReq>, b: &Option<PartReq>) -> (r: Option<PartReq>)
    ensures
        opt_req(r) == opt_add(opt_req(*a), opt_req(*b)),
{
    match (a, b) {
        (None, any_other) => copy_opt(any_other),
        (any_other, None) => copy_opt(any_other),
        (Some(a), Some(b)) => Some(a.add(b)),
    }
}

/// The same requirements.
pub fn copy_reqs(reqs: &HashMap<usize, PartReq>) -> (r: HashMap<usize, PartReq>)
    ensures
        reqs_of(r@) == reqs_of(reqs@),
{
    let mut out: HashMap<usize, PartReq> = HashMap::new();
    let entries = entries_of(reqs);
    let mut n: usize = 0;
    while n < entries.len()
        invariant
            n <= entries.len(),
            lists(entries@, reqs@),
            forall|k: usize| #[trigger]
                out@.contains_key(k) <==> exists|j: int|
                    0 <= j < n && (#[trigger] entries[j]).0 == k,
            forall|k: usize| #[trigger]
                out@.contains_key(k) ==> reqs@.contains_key(k) && out@[k]@ == reqs@[k]@,
        decreases entries.len() - n,
    {
        let (i, p) = entries[n];
        out.insert(i, p.clone());
        n = n + 1;
    }
    assert(reqs_of(out@) =~= reqs_of(reqs@));
    out
}

/// What the two together require of each index.
pub fn merge_reqs(a: &HashMap<usize, PartReq>, b: &HashMap<usize, PartReq>) -> (r: HashMap<
    usize,
    PartReq,
>)
    ensures
        reqs_of(r@) == merged(reqs_of(a@), reqs_of(b@)),
{
    let mut out = copy_reqs(a);
    assert(forall|k: usize| #[trigger]
        out@.contains_key(k) <==> reqs_of(out@).contains_key(k));
    assert(forall|k: usize| #[trigger] a@.contains_key(k) <==> reqs_of(a@).contains_key(k));
    assert(forall|k: usize| #[trigger] out@.contains_key(k) ==> out@[k]@ == reqs_of(out@)[k]);
    let entries = entries_of(b);
    let mut n: usize = 0;
    while n < entries.len()
        invariant
            n <= entries.len(),
            lists(entries@, b@),
            forall|k: usize| #[trigger]
                out@.contains_key(k) <==> a@.contains_key(k) || listed(entries@, n as int, k),
            forall|k: usize| #[trigger]
                out@.contains_key(k) ==> {
                    &&& a@.contains_key(k) || b@.contains_key(k)
                    &&& !a@.contains_key(k) ==> out@[k]@ == b@[k]@
                    &&& a@.contains_key(k) ==> out@[k]@ == (if listed(
                        entries@,
                        n as int,
                        k,
                    ) {
                        a@[k]@.add(b@[k]@)
                    } else {
                        a@[k]@
                    })
                },
        decreases entries.len() - n,
    {
        let (i, new_req) = entries[n];
        assert(forall|j: int| 0 <= j < n ==> (#[trigger] entries[j]).0 != i);
        let sum = match out.get(&i) {
            Some(cur_req) => cur_req.add(new_req),
            None => new_req.clone(),
        };
        out.insert(i, sum);
        assert(entries[n as int].0 == i);
        n = n + 1;
        assert(forall|k: usize|
            k != i ==> (#[trigger] listed(entries@, n as int, k) <==> listed(
                entries@,
                n - 1,
                k,
            )));
    }
    assert(forall|k: usize| #[trigger]
        b@.contains_key(k) <==> listed(entries@, n as int, k));
    assert(reqs_of(out@) =~= merged(reqs_of(a@), reqs_of(b@)));
    out
}

/// Whether `a` requires of each index what `b` requires of it.
pub fn reqs_cover(a: &HashMap<usize, PartReq>, b: &HashMap<usize, PartReq>) -> (r: bool)
    ensures
        r == covers(reqs_of(a@), reqs_of(b@)),
{
    let entries = entries_of(b);
    let mut n: usize = 0;
    while n < entries.len()
        invariant
            n <= entries.len(),
            lists(entries@, b@),
            forall|j: int|
                0 <= j < n ==> a@.contains_key((#[trigger] entries[j]).0)
                    && a@[entries[j].0]@.contains(b@[entries[j].0]@),
        decreases entries.len() - n,
    {
        let (i, new_req) = entries[n];
        assert(reqs_of(b@).contains_key(i));
        match a.get(&i) {
            Some(current_req) => {
                assert(reqs_of(a@)[i] == current_req@ && reqs_of(b@)[i] == new_req@);
                if !current_req.contains(new_req) {
                    return false;
                }
            },
            None => {
                return false;
            },
        }
        n = n + 1;
    }
    assert forall|i: usize| #[trigger] reqs_of(b@).contains_key(i) implies reqs_of(
        a@,
    ).contains_key(i) && reqs_of(a@)[i].contains(reqs_of(b@)[i]) by {
        assert(b@.contains_key(i));
    }
    true
}

impl RequiredContext {
    /// Whether all that `other` requires is required here too.
    pub fn contains(&self, other: &RequiredContext) -> (r: bool)
        ensures
            r == self@.contains(other@),
    {
        if !reqs_cover(&self.globals, &other.globals) {
            return false;
        }
        if !reqs_cover(&self.locals, &other.locals) {
            return false;
        }
        let mut i: usize = 0;
        while i < self.args.len() && i < other.args.len()
            invariant
                i <= self.args.len(),
                i <= other.args.len(),
                forall|j: int|
                    0 <= j < i ==> opt_contains(#[trigger] self@.args[j], other@.args[j]),
            decreases self.args.len() - i,
        {
            assert(self@.args[i as int] == opt_req(self.args[i as int]));
            assert(other@.args[i as int] == opt_req(other.args[i as int]));
            match (&self.args[i], &other.args[i]) {
                (None, Some(_)) => {
                    return false;
                },
                (Some(current), Some(new)) => {
                    if !current.contains(new) {
                        return false;
                    }
                },
                _ => {},
            }
            i = i + 1;
        }
        if let Some(new_ret) = &other.retval {
            match &self.retval {
                None => {
                    return false;
                },
                Some(cur_ret) => {
                    if !cur_ret.contains(new_ret) {
                        return false;
                    }
                },
            }
        }
        true
    }

    /// What the two together require.
    pub fn merge(&self, other: &RequiredContext) -> (r: RequiredContext)
        ensures
            r@ == self@.merge(other@),
    {
        let globals = merge_reqs(&self.globals, &other.globals);
        let locals = merge_reqs(&self.locals, &other.locals);
        let mut args: Vec<Option<PartReq>> = Vec::new();
        let mut i: usize = 0;
        while i < self.args.len() && i < other.args.len()
            invariant
                i <= self.args.len(),
                i <= other.args.len(),
                args.len() == i,
                forall|j: int|
                    0 <= j < i ==> opt_req(#[trigger] args[j]) == opt_add(
                        opt_req(self.args[j]),
                        opt_req(other.args[j]),
                    ),
            decreases self.args.len() - i,
        {
            args.push(add_opt(&self.args[i], &other.args[i]));
            i = i + 1;
        }
        let retval = add_opt(&self.retval, &other.retval);
        let r = RequiredContext { globals, locals, args, retval };
        assert(r@.args =~= args_merged(self@.args, other@.args));
        r
    }

    /// Takes the part `part` of the variable `var`, which has been written,
    /// from what is required. Returns whether that can be done; if not,
    /// nothing changes.
    pub fn remove(
        &mut self,
        var: &VarRef,
        part: &PartReq,
        shader: &Module,
        function: &Function,
    ) -> (done: bool)
        ensures
            done == (old(self)@.remove(*var, part@, *shader, *function) is Some),
            done ==> Some(final(self)@) == old(self)@.remove(*var, part@, *shader, *function),
            !done ==> final(self)@ == old(self)@,
    {
        match var {
            VarRef::Global(gv) => {
                let left = match self.globals.get(gv) {
                    Some(req) => {
                        if *gv >= shader.global_variables.len() {
                            return false;
                        }
                        req.remove(part, Some(shader.global_variables[*gv].ty), &shader.types)
                    },
                    None => {
                        return false;
                    },
                };
                match left {
                    Some(left) => {
                        self.globals.insert(*gv, left);
                        assert(self@.globals =~= old(self)@.globals.insert(*gv, left@));
                        true
                    },
                    None => false,
                }
            },
            VarRef::Local(lv) => {
                let left = match self.locals.get(lv) {
                    Some(req) => {
                        if *lv >= function.local_variables.len() {
                            return false;
                        }
                        req.remove(part, Some(function.local_variables[*lv].ty), &shader.types)
                    },
                    None => {
                        return false;
                    },
                };
                match left {
                    Some(left) => {
                        self.locals.insert(*lv, left);
                        assert(self@.locals =~= old(self)@.locals.insert(*lv, left@));
                        true
                    },
                    None => false,
                }
            },
        }
    }
}

} // verus!
