//! The module that is left once all that is not required has been taken out.
use crate::derive::{
    compact, constants_moved, globals_moved, handles_for, move_constants, move_globals, move_types,
    types_moved,
};
use crate::ir::{EntryPoint, Function, Module};
use crate::live::Pruner;
use crate::need::FnNeed;
use crate::prune::{prunable, pruned};
use crate::remap::{compacted, lemma_rank, rank, HandleMaps, Handles};
use crate::uses::{and_function, complete, keep_for, kept_for, use_function, Item};
use std::collections::HashSet;
use vstd::prelude::*;

verus! {

/// The functions whose bodies are required.
pub open spec fn kept_functions(functions: Map<usize, FnNeed>) -> Set<usize> {
    Set::new(|h: usize| functions.contains_key(h) && functions[h].body.is_required())
}

/// What the kept functions among the first `n` use once they have been
/// pruned.
pub open spec fn function_roots(
    functions: Map<usize, FnNeed>,
    source: Seq<Function>,
    n: nat,
) -> Seq<Item>
    decreases n,
{
    if n == 0 {
        Seq::empty()
    } else {
        let before = function_roots(functions, source, (n - 1) as nat);
        if kept_functions(functions).contains((n - 1) as usize) {
            and_function(before, functions[(n - 1) as usize], source[n - 1])
        } else {
            before
        }
    }
}

/// What the kept entry points among the first `n` use once they have been
/// pruned, besides `items`.
pub open spec fn entry_roots(
    items: Seq<Item>,
    entries: Map<Seq<char>, FnNeed>,
    source: Seq<EntryPoint>,
    n: nat,
) -> Seq<Item>
    decreases n,
{
    if n == 0 {
        items
    } else {
        let before = entry_roots(items, entries, source, (n - 1) as nat);
        if entries.contains_key(source[n - 1].name@) {
            and_function(before, entries[source[n - 1].name@], source[n - 1].function)
        } else {
            before
        }
    }
}

/// What the kept functions and entry points use once they have been pruned.
pub open spec fn roots(
    functions: Map<usize, FnNeed>,
    entries: Map<Seq<char>, FnNeed>,
    source: Module,
) -> Seq<Item> {
    entry_roots(
        function_roots(functions, source.functions@, source.functions@.len()),
        entries,
        source.entry_points@,
        source.entry_points@.len(),
    )
}

/// The new handles of what is kept of the module.
pub open spec fn new_handles(
    functions: Map<usize, FnNeed>,
    entries: Map<Seq<char>, FnNeed>,
    source: Module,
) -> Handles {
    let kept = kept_for(source, roots(functions, entries, source));
    Handles {
        types: compacted(kept.types, source.types@.len()),
        constants: compacted(kept.constants, source.constants@.len()),
        globals: compacted(kept.globals, source.global_variables@.len()),
        functions: compacted(kept_functions(functions), source.functions@.len()),
    }
}

/// Whether each kept function among the first `n` can be pruned.
pub open spec fn functions_prunable(
    functions: Map<usize, FnNeed>,
    source: Seq<Function>,
    n: nat,
    handles: Handles,
) -> bool {
    forall|h: usize|
        h < n && #[trigger] kept_functions(functions).contains(h) ==> prunable(
            functions[h],
            source[h as int],
            handles,
        )
}

/// Whether each kept entry point among the first `n` can be pruned.
pub open spec fn entries_prunable(
    entries: Map<Seq<char>, FnNeed>,
    source: Seq<EntryPoint>,
    n: nat,
    handles: Handles,
) -> bool {
    forall|i: int|
        0 <= i < n && entries.contains_key((#[trigger] source[i]).name@) ==> prunable(
            entries[source[i].name@],
            source[i].function,
            handles,
        )
}

/// Whether the module can be rewritten: it has all that is left uses, and what
/// is left of each function and entry point can be pruned.
pub open spec fn module_rewritable(
    functions: Map<usize, FnNeed>,
    entries: Map<Seq<char>, FnNeed>,
    source: Module,
) -> bool {
    let handles = new_handles(functions, entries, source);
    &&& complete(source, roots(functions, entries, source))
    &&& functions_prunable(functions, source.functions@, source.functions@.len(), handles)
    &&& entries_prunable(entries, source.entry_points@, source.entry_points@.len(), handles)
}

/// Whether `new` are the kept functions among the first `n`, in their order,
/// each pruned to what is required of it.
pub open spec fn functions_pruned(
    functions: Map<usize, FnNeed>,
    source: Seq<Function>,
    n: nat,
    handles: Handles,
    new: Seq<Function>,
) -> bool {
    let kept = kept_functions(functions);
    &&& new.len() == rank(kept, n)
    &&& forall|h: usize|
        h < n && #[trigger] kept.contains(h) ==> pruned(
            functions[h],
            source[h as int],
            handles,
            new[rank(kept, h as nat) as int],
        )
}

/// The places of the kept entry points.
pub open spec fn kept_entries(
    entries: Map<Seq<char>, FnNeed>,
    source: Seq<EntryPoint>,
) -> Set<usize> {
    Set::new(|i: usize| i < source.len() && entries.contains_key(source[i as int].name@))
}

/// Whether `new` is the entry point pruned to `need`.
pub open spec fn entry_pruned(
    need: FnNeed,
    entry: EntryPoint,
    handles: Handles,
    new: EntryPoint,
) -> bool {
    &&& new.name@ == entry.name@
    &&& new.stage == entry.stage
    &&& new.early_depth_test == entry.early_depth_test
    &&& new.workgroup_size == entry.workgroup_size
    &&& pruned(need, entry.function, handles, new.function)
}

/// Whether `new` are the kept entry points among the first `n`, in their
/// order, each pruned to what is required of it.
pub open spec fn entries_pruned(
    entries: Map<Seq<char>, FnNeed>,
    source: Seq<EntryPoint>,
    n: nat,
    handles: Handles,
    new: Seq<EntryPoint>,
) -> bool {
    let kept = kept_entries(entries, source);
    &&& new.len() == rank(kept, n)
    &&& forall|i: usize|
        i < n && #[trigger] kept.contains(i) ==> entry_pruned(
            entries[source[i as int].name@],
            source[i as int],
            handles,
            new[rank(kept, i as nat) as int],
        )
}

/// Whether `new` is what is left of the module: the kept functions and entry
/// points, pruned, and the types, constants and global variables that they
/// use, directly or not, all in their order.
pub open spec fn module_rewritten(
    functions: Map<usize, FnNeed>,
    entries: Map<Seq<char>, FnNeed>,
    source: Module,
    new: Module,
) -> bool {
    let kept = kept_for(source, roots(functions, entries, source));
    let handles = new_handles(functions, entries, source);
    &&& types_moved(kept.types, source.types@, source.types@.len(), handles, new.types@)
    &&& constants_moved(
        kept.constants,
        source.constants@,
        source.constants@.len(),
        handles,
        new.constants@,
    )
    &&& globals_moved(
        kept.globals,
        source.global_variables@,
        source.global_variables@.len(),
        handles,
        new.global_variables@,
    )
    &&& functions_pruned(
        functions,
        source.functions@,
        source.functions@.len(),
        handles,
        new.functions@,
    )
    &&& entries_pruned(
        entries,
        source.entry_points@,
        source.entry_points@.len(),
        handles,
        new.entry_points@,
    )
}

impl Pruner {
    /// Whether the function `h` is kept.
    fn keeps_function(&self, h: usize) -> (r: bool)
        ensures
            r == kept_functions(self@.found.functions).contains(h),
    {
        assert(self@.found.functions.contains_key(h) == self.functions@.contains_key(h));
        match self.functions.get(&h) {
            Some(req) => req.body_required.is_required(),
            None => false,
        }
    }

    /// What is left of the module. `None` where the module lacks something
    /// that is left uses, or some function cannot be pruned.
    pub fn try_rewrite(&self, source: &Module) -> (r: Option<Module>)
        ensures
            match r {
                Some(new) => module_rewritable(self@.found.functions, self@.entries, *source)
                    && module_rewritten(self@.found.functions, self@.entries, *source, new),
                None => !module_rewritable(self@.found.functions, self@.entries, *source),
            },
    {
        let ghost functions = self@.found.functions;
        let ghost entries = self@.entries;
        let ghost kept_fns = kept_functions(functions);

        let mut items: Vec<Item> = Vec::new();
        let mut kept: HashSet<usize> = HashSet::new();
        let mut h: usize = 0;
        while h < source.functions.len()
            invariant
                h <= source.functions.len(),
                functions == self@.found.functions,
                kept_fns == kept_functions(functions),
                items@ == function_roots(functions, source.functions@, h as nat),
                forall|g: usize| #[trigger] kept@.contains(g) <==> g < h && kept_fns.contains(g),
            decreases source.functions.len() - h,
        {
            if self.keeps_function(h) {
                kept.insert(h);
                assert(self.functions@.contains_key(h));
                use_function(&mut items, self.functions.get(&h).unwrap(), &source.functions[h]);
            }
            h = h + 1;
        }
        let ghost of_functions = items@;
        let mut i: usize = 0;
        while i < source.entry_points.len()
            invariant
                i <= source.entry_points.len(),
                entries == self@.entries,
                items@ == entry_roots(of_functions, entries, source.entry_points@, i as nat),
            decreases source.entry_points.len() - i,
        {
            let entry = &source.entry_points[i];
            match self.get_entry(&entry.name) {
                Some(need) => use_function(&mut items, need, &entry.function),
                None => (),
            }
            i = i + 1;
        }
        let ghost all = roots(functions, entries, *source);
        assert(items@ == all);

        let keep = match keep_for(source, &items) {
            Some(keep) => keep,
            None => {
                return None;
            },
        };
        let handles = HandleMaps {
            types: compact(&keep.types, source.types.len()),
            constants: compact(&keep.constants, source.constants.len()),
            globals: compact(&keep.globals, source.global_variables.len()),
            functions: compact(&kept, source.functions.len()),
        };
        proof {
            lemma_compacted_below(kept@, kept_fns, source.functions@.len());
        }
        assert(handles@ == new_handles(functions, entries, *source));

        let mut new_functions: Vec<Function> = Vec::new();
        let mut h: usize = 0;
        while h < source.functions.len()
            invariant
                h <= source.functions.len(),
                functions == self@.found.functions,
                entries == self@.entries,
                handles@ == new_handles(functions, entries, *source),
                kept_fns == kept_functions(functions),
                functions_prunable(functions, source.functions@, h as nat, handles@),
                functions_pruned(
                    functions,
                    source.functions@,
                    h as nat,
                    handles@,
                    new_functions@,
                ),
            decreases source.functions.len() - h,
        {
            if self.keeps_function(h) {
                assert(self.functions@.contains_key(h));
                match self.functions.get(&h).unwrap().prune(&source.functions[h], &handles) {
                    Some(new) => {
                        new_functions.push(new);
                        assert forall|g: usize|
                            g < h + 1 && #[trigger] kept_fns.contains(g) implies pruned(
                            functions[g],
                            source.functions@[g as int],
                            handles@,
                            new_functions@[rank(kept_fns, g as nat) as int],
                        ) by {
                            if g < h {
                                lemma_rank(kept_fns, g as nat, h as nat);
                            }
                        }
                    },
                    None => {
                        assert(kept_fns.contains(h) && !prunable(
                            functions[h],
                            source.functions@[h as int],
                            handles@,
                        ));
                        return None;
                    },
                }
            }
            h = h + 1;
        }

        let ghost kept_eps = kept_entries(entries, source.entry_points@);
        let mut new_entries: Vec<EntryPoint> = Vec::new();
        let mut i: usize = 0;
        while i < source.entry_points.len()
            invariant
                i <= source.entry_points.len(),
                functions == self@.found.functions,
                entries == self@.entries,
                handles@ == new_handles(functions, entries, *source),
                kept_eps == kept_entries(entries, source.entry_points@),
                entries_prunable(entries, source.entry_points@, i as nat, handles@),
                entries_pruned(
                    entries,
                    source.entry_points@,
                    i as nat,
                    handles@,
                    new_entries@,
                ),
            decreases source.entry_points.len() - i,
        {
            let entry = &source.entry_points[i];
            match self.get_entry(&entry.name) {
                Some(need) => {
                    assert(kept_eps.contains(i));
                    match need.prune(&entry.function, &handles) {
                        Some(function) => {
                            new_entries.push(
                                EntryPoint {
                                    name: entry.name.clone(),
                                    stage: entry.stage,
                                    early_depth_test: entry.early_depth_test,
                                    workgroup_size: entry.workgroup_size,
                                    function,
                                },
                            );
                            assert forall|g: usize|
                                g < i + 1 && #[trigger] kept_eps.contains(g) implies entry_pruned(
                                entries[source.entry_points@[g as int].name@],
                                source.entry_points@[g as int],
                                handles@,
                                new_entries@[rank(kept_eps, g as nat) as int],
                            ) by {
                                if g < i {
                                    lemma_rank(kept_eps, g as nat, i as nat);
                                }
                            }
                        },
                        None => {
                            assert(!prunable(
                                entries[source.entry_points@[i as int].name@],
                                source.entry_points@[i as int].function,
                                handles@,
                            ));
                            return None;
                        },
                    }
                },
                None => {
                    assert(!kept_eps.contains(i));
                },
            }
            i = i + 1;
        }

        assert(handles_for(*source, all, handles@));
        Some(
            Module {
                types: move_types(source, &keep.types, &handles, Ghost(all)),
                constants: move_constants(source, &keep.constants, &handles, Ghost(all)),
                global_variables: move_globals(source, &keep.globals, &handles, Ghost(all)),
                functions: new_functions,
                entry_points: new_entries,
            },
        )
    }

    /// What is left of the module.
    pub fn rewrite(&self, source: &Module) -> (new: Module)
        requires
            module_rewritable(self@.found.functions, self@.entries, *source),
        ensures
            module_rewritten(self@.found.functions, self@.entries, *source, new),
    {
        self.try_rewrite(source).unwrap()
    }
}

/// Handles from `n` on do not matter for the first `n` new handles.
proof fn lemma_compacted_below(a: Set<usize>, b: Set<usize>, n: nat)
    requires
        n <= usize::MAX,
        forall|h: usize| h < n ==> (#[trigger] a.contains(h) <==> b.contains(h)),
    ensures
        compacted(a, n) == compacted(b, n),
{
    assert forall|h: usize| h < n implies rank(a, h as nat) == rank(b, h as nat) by {
        lemma_rank_below(a, b, h as nat);
    }
    assert(compacted(a, n) =~= compacted(b, n));
}

/// Handles from `n` on do not count among the first `n`.
proof fn lemma_rank_below(a: Set<usize>, b: Set<usize>, n: nat)
    requires
        n <= usize::MAX,
        forall|h: usize| h < n ==> (#[trigger] a.contains(h) <==> b.contains(h)),
    ensures
        rank(a, n) == rank(b, n),
    decreases n,
{
    if n > 0 {
        lemma_rank_below(a, b, (n - 1) as nat);
        assert(a.contains((n - 1) as usize) <==> b.contains((n - 1) as usize));
    }
}

} // verus!
