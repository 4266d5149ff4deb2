//! What the analysis has found so far.
use crate::context::{Context, RequiredContext};
use crate::need::{FnNeed, FunctionReq};
use crate::part::{reqs_of, PartReq, Req};
use std::collections::{HashMap, HashSet};
use vstd::prelude::*;

verus! {

/// What is required of the module.
#[verifier::ext_equal]
pub struct Found {
    pub types: Set<usize>,
    pub constants: Set<usize>,
    pub globals: Map<usize, Req>,
    pub functions: Map<usize, FnNeed>,
}

/// All that has been found: what is required of the module, and of its entry
/// points by name.
#[verifier::ext_equal]
pub struct Needs {
    pub found: Found,
    pub entries: Map<Seq<char>, FnNeed>,
}

/// What is required at a point of a function: of the module, of the
/// expressions of the function, and in front of the point.
#[verifier::ext_equal]
pub struct Live {
    pub found: Found,
    pub exprs: Map<usize, Req>,
    pub context: Context,
}

impl Live {
    /// The same, with another context.
    pub open spec fn at(self, context: Context) -> Live {
        Live { context, ..self }
    }
}

/// Finds out what of a module is required for a result, and rewrites the
/// module to that.
#[derive(Debug)]
pub struct Pruner {
    /// Handles of the types of required variables.
    pub types: HashSet<usize>,
    /// What is required of the entry points, by name.
    pub entry_points: Vec<(String, FunctionReq)>,
    /// What is required of the functions.
    pub functions: HashMap<usize, FunctionReq>,
    /// What is required of the global variables.
    pub globals: HashMap<usize, PartReq>,
    /// Handles of the required constants.
    pub constants: HashSet<usize>,
}

/// What is required of each function.
pub open spec fn fn_needs(functions: Map<usize, FunctionReq>) -> Map<usize, FnNeed> {
    functions.map_values(|f: FunctionReq| f@)
}

/// What is required of the entry point `name`, by the first `n` entries.
pub open spec fn entry_at(entries: Seq<(String, FunctionReq)>, name: Seq<char>, n: nat) -> Option<
    FnNeed,
>
    decreases n,
{
    if n == 0 || n > entries.len() {
        None
    } else {
        match entry_at(entries, name, (n - 1) as nat) {
            Some(need) => Some(need),
            None => if entries[n - 1].0@ == name {
                Some(entries[n - 1].1@)
            } else {
                None
            },
        }
    }
}

impl Pruner {
    /// What is required of the entry point `name`, if anything.
    pub open spec fn entry(self, name: Seq<char>) -> Option<FnNeed> {
        entry_at(self.entry_points@, name, self.entry_points@.len())
    }
}

impl View for Pruner {
    type V = Needs;

    open spec fn view(&self) -> Needs {
        Needs {
            found: Found {
                types: self.types@,
                constants: self.constants@,
                globals: reqs_of(self.globals@),
                functions: fn_needs(self.functions@),
            },
            entries: Map::new(
                |name: Seq<char>| self.entry(name) is Some,
                |name: Seq<char>| self.entry(name)->0,
            ),
        }
    }
}

/// The point of a function that the analysis has come to.
pub open spec fn live(
    pruner: Pruner,
    exprs: HashMap<usize, PartReq>,
    context: RequiredContext,
) -> Live {
    Live { found: pruner@.found, exprs: reqs_of(exprs@), context: context@ }
}

/// A requirement that is put into a map.
pub proof fn lemma_reqs_insert(reqs: Map<usize, PartReq>, k: usize, part: PartReq)
    ensures
        reqs_of(reqs.insert(k, part)) == reqs_of(reqs).insert(k, part@),
{
    assert(reqs_of(reqs.insert(k, part)) =~= reqs_of(reqs).insert(k, part@));
}

impl Default for Pruner {
    fn default() -> (r: Pruner)
        ensures
            r@ == (Needs {
                found: Found {
                    types: Set::empty(),
                    constants: Set::empty(),
                    globals: Map::empty(),
                    functions: Map::empty(),
                },
                entries: Map::empty(),
            }),
    {
        let r = Pruner {
            types: HashSet::new(),
            entry_points: Vec::new(),
            functions: HashMap::new(),
            globals: HashMap::new(),
            constants: HashSet::new(),
        };
        assert(r@.found.globals =~= Map::empty());
        assert(r@.found.functions =~= Map::empty());
        assert(r@.entries =~= Map::<Seq<char>, FnNeed>::empty());
        r
    }
}

/// The first entry of a name decides.
proof fn lemma_entry_first(entries: Seq<(String, FunctionReq)>, name: Seq<char>, j: int, n: nat)
    requires
        0 <= j < n <= entries.len(),
        entries[j].0@ == name,
        forall|i: int| 0 <= i < j ==> (#[trigger] entries[i]).0@ != name,
    ensures
        entry_at(entries, name, n) == Some(entries[j].1@),
    decreases n,
{
    if n == j + 1 {
        lemma_entry_none(entries, name, j as nat);
    } else {
        lemma_entry_first(entries, name, j, (n - 1) as nat);
    }
}

/// Without an entry of a name nothing is required of it.
proof fn lemma_entry_none(entries: Seq<(String, FunctionReq)>, name: Seq<char>, n: nat)
    requires
        n <= entries.len(),
        forall|i: int| 0 <= i < n ==> (#[trigger] entries[i]).0@ != name,
    ensures
        entry_at(entries, name, n) is None,
    decreases n,
{
    if n > 0 {
        lemma_entry_none(entries, name, (n - 1) as nat);
    }
}

/// Entries of other names do not matter.
proof fn lemma_entry_same(
    a: Seq<(String, FunctionReq)>,
    b: Seq<(String, FunctionReq)>,
    name: Seq<char>,
    n: nat,
)
    requires
        n <= a.len(),
        n <= b.len(),
        forall|i: int|
            0 <= i < n ==> #[trigger] a[i] == b[i] || (a[i].0@ != name && b[i].0@ != name),
    ensures
        entry_at(a, name, n) == entry_at(b, name, n),
    decreases n,
{
    if n > 0 {
        lemma_entry_same(a, b, name, (n - 1) as nat);
        assert(a[n - 1] == b[n - 1] || (a[n - 1].0@ != name && b[n - 1].0@ != name));
    }
}

impl Pruner {
    /// What is required of the entry point `name`, if anything.
    pub fn get_entry(&self, name: &String) -> (r: Option<&FunctionReq>)
        ensures
            match r {
                Some(need) => self.entry(name@) == Some(need@),
                None => self.entry(name@) is None,
            },
    {
        let mut i: usize = 0;
        while i < self.entry_points.len()
            invariant
                i <= self.entry_points.len(),
                forall|j: int| 0 <= j < i ==> (#[trigger] self.entry_points[j]).0@ != name@,
            decreases self.entry_points.len() - i,
        {
            if self.entry_points[i].0 == *name {
                proof {
                    lemma_entry_first(
                        self.entry_points@,
                        name@,
                        i as int,
                        self.entry_points@.len(),
                    );
                }
                return Some(&self.entry_points[i].1);
            }
            i = i + 1;
        }
        proof {
            lemma_entry_none(self.entry_points@, name@, self.entry_points@.len());
        }
        None
    }

    /// Sets what is required of the entry point `name`.
    pub(crate) fn set_entry(&mut self, name: &String, need: FunctionReq)
        ensures
            final(self)@.found == old(self)@.found,
            final(self)@.entries == old(self)@.entries.insert(name@, need@),
    {
        let ghost before = self.entry_points@;
        let mut i: usize = 0;
        while i < self.entry_points.len() && self.entry_points[i].0 != *name
            invariant
                i <= self.entry_points.len(),
                forall|j: int| 0 <= j < i ==> (#[trigger] self.entry_points[j]).0@ != name@,
            decreases self.entry_points.len() - i,
        {
            i = i + 1;
        }
        let entry = (name.clone(), need);
        if i < self.entry_points.len() {
            self.entry_points.set(i, entry);
        } else {
            self.entry_points.push(entry);
        }
        proof {
            let after = self.entry_points@;
            lemma_entry_first(after, name@, i as int, after.len());
            assert forall|other: Seq<char>| other != name@ implies #[trigger] entry_at(
                after,
                other,
                after.len(),
            ) == entry_at(before, other, before.len()) by {
                lemma_entry_same(after, before, other, before.len());
            }
            assert(self@.entries =~= old(self)@.entries.insert(name@, need@));
        }
    }
}

} // verus!
