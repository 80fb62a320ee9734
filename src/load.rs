use vstd::prelude::*;

use crate::coordinator::Dep;
use crate::module_ids::{id_in, lemma_id_in_contains, name_in, registered, ModuleId, ModuleIdStore};

verus! {

/// What went wrong reading a file.
#[derive(Clone, Copy, Debug, PartialEq, Eq, Structural)]
pub enum FileErrorKind {
    NotFound,
    PermissionDenied,
    Other,
}

/// A problem found while building a module.
#[derive(Debug)]
pub enum BuildProblem {
    FileNotFound(String),
}

/// A problem that ends a load.
#[derive(Debug)]
pub enum LoadingProblem {
    /// The file could not be read.
    FileProblem { filename: String, error: FileErrorKind },
    /// The file's header could not be parsed.
    ParsingFailed { filename: String, fail: String },
    /// The event channel closed before the root module was solved.
    MsgChannelDied,
}

/// Registers a module whose header declares `declared_name` and imports
/// `imports`: the module's id, and each import with its id, in order.
/// Names seen before keep their ids; new names get fresh ones.
pub fn register_header(
    store: &mut ModuleIdStore,
    declared_name: &String,
    imports: &Vec<String>,
) -> (r: (ModuleId, Vec<Dep>))
    requires
        old(store).wf(),
        old(store)@.len() + imports@.len() + 2 < u64::MAX,
    ensures
        final(store).wf(),
        old(store)@.is_prefix_of(final(store)@),
        final(store)@ == registered(
            old(store)@,
            seq![declared_name@] + imports@.map_values(|s: String| s@),
        ),
        name_in(final(store)@, r.0.id) == Some(declared_name@),
        r.1@.len() == imports@.len(),
        forall|i: int| #![trigger r.1@[i]]
            0 <= i < imports@.len() ==> r.1@[i].name@ == imports@[i]@ && name_in(
                final(store)@,
                r.1@[i].id.id,
            ) == Some(imports@[i]@),
        forall|n: Seq<char>| #[trigger] id_in(old(store)@, n) is Some ==> id_in(final(store)@, n)
            == id_in(old(store)@, n),
{
    let ghost start = store@;
    let ghost add = seq![declared_name@] + imports@.map_values(|s: String| s@);
    proof {
        lemma_id_in_contains(start, declared_name@);
        assert(add.subrange(0, 1).drop_last() =~= Seq::<Seq<char>>::empty());
        assert(add.subrange(0, 1).last() == declared_name@);
    }
    let module_id = store.get_or_create_id(declared_name);
    assert(registered(start, add.subrange(0, 1).drop_last()) == start);
    assert(store@ == registered(start, add.subrange(0, 1)));
    let mut deps: Vec<Dep> = Vec::new();
    let mut i: usize = 0;
    while i < imports.len()
        invariant
            store.wf(),
            i <= imports@.len(),
            start.len() + imports@.len() + 2 < u64::MAX,
            store@.len() <= start.len() + 1 + i,
            start.is_prefix_of(store@),
            add == seq![declared_name@] + imports@.map_values(|s: String| s@),
            store@ == registered(start, add.subrange(0, i + 1)),
            name_in(store@, module_id.id) == Some(declared_name@),
            deps@.len() == i,
            forall|j: int| #![trigger deps@[j]]
                0 <= j < i ==> deps@[j].name@ == imports@[j]@ && name_in(store@, deps@[j].id.id)
                    == Some(imports@[j]@),
        decreases imports@.len() - i,
    {
        let ghost before = store@;
        proof {
            lemma_id_in_contains(before, imports@[i as int]@);
            let sub = add.subrange(0, i + 2);
            assert(sub.drop_last() =~= add.subrange(0, i + 1));
            assert(sub.last() == add[i + 1]);
            assert(add[i + 1] == imports@[i as int]@);
        }
        let id = store.get_or_create_id(&imports[i]);
        proof {
            assert(before.is_prefix_of(store@));
            assert forall|j: int| #![trigger deps@[j]] 0 <= j < i implies name_in(store@, deps@[j].id.id)
                == Some(imports@[j]@) by {
                assert(store@[deps@[j].id.id - 1] == before[deps@[j].id.id - 1]);
            }
            assert(store@[module_id.id - 1] == before[module_id.id - 1]);
        }
        deps.push(Dep { name: imports[i].clone(), id });
        i += 1;
    }
    proof {
        assert(add.subrange(0, imports@.len() as int + 1) =~= add);
        assert forall|n: Seq<char>| #[trigger] id_in(start, n) is Some implies id_in(store@, n) == id_in(
            start,
            n,
        ) by {
            let k = choose|k: int| 0 <= k < start.len() && start[k] == n;
            assert(store@[k] == n);
            let k2 = choose|k2: int| 0 <= k2 < store@.len() && store@[k2] == n;
            if k2 != k {
                assert(store@[k2] != store@[k]);
            }
        }
    }
    (module_id, deps)
}

} // verus!
