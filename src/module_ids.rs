use vstd::prelude::*;

verus! {

/// Identifier of a module within one load: a dense, nonzero integer.
#[derive(Clone, Copy, Debug, PartialEq, Eq, Hash, Structural)]
pub struct ModuleId {
    pub id: u64,
}

/// Interns module names: the module named `names[k]` has id `k + 1`.
#[derive(Debug)]
pub struct ModuleIdStore {
    names: Vec<String>,
}

/// No name occurs twice.
pub open spec fn distinct_names(names: Seq<Seq<char>>) -> bool {
    forall|i: int, j: int| 0 <= i < names.len() && 0 <= j < names.len() && i != j
        ==> #[trigger] names[i] != #[trigger] names[j]
}

/// The id that a registry with contents `names` gives to `name`, if any.
pub open spec fn id_in(names: Seq<Seq<char>>, name: Seq<char>) -> Option<u64> {
    if exists|i: int| 0 <= i < names.len() && names[i] == name {
        let i = choose|i: int| 0 <= i < names.len() && names[i] == name;
        Some((i + 1) as u64)
    } else {
        None
    }
}

/// The contents of a registry holding `names` after registering each of
/// `add` in order: a name not present yet is appended, and gets the next id.
pub open spec fn registered(names: Seq<Seq<char>>, add: Seq<Seq<char>>) -> Seq<Seq<char>>
    decreases add.len(),
{
    if add.len() == 0 {
        names
    } else {
        let prev = registered(names, add.drop_last());
        if prev.contains(add.last()) {
            prev
        } else {
            prev.push(add.last())
        }
    }
}

/// A name has an id exactly when the registry holds it.
pub proof fn lemma_id_in_contains(names: Seq<Seq<char>>, name: Seq<char>)
    ensures
        id_in(names, name) is Some <==> names.contains(name),
{
}

/// The name that a registry with contents `names` gives to `id`, if any.
pub open spec fn name_in(names: Seq<Seq<char>>, id: u64) -> Option<Seq<char>> {
    if 1 <= id <= names.len() {
        Some(names[id - 1])
    } else {
        None
    }
}

impl View for ModuleIdStore {
    type V = Seq<Seq<char>>;

    closed spec fn view(&self) -> Seq<Seq<char>> {
        self.names@.map_values(|s: String| s@)
    }
}

impl ModuleIdStore {
    /// Well-formed: names are distinct and every id fits in a `u64`.
    pub open spec fn wf(&self) -> bool {
        distinct_names(self@) && self@.len() < u64::MAX
    }

    /// An empty registry.
    pub fn new() -> (r: ModuleIdStore)
        ensures
            r.wf(),
            r@ == Seq::<Seq<char>>::empty(),
    {
        let r = ModuleIdStore { names: Vec::new() };
        assert(r@ =~= Seq::<Seq<char>>::empty());
        r
    }

    /// The number of ids handed out so far.
    pub fn len(&self) -> (r: usize)
        ensures
            r == self@.len(),
    {
        self.names.len()
    }

    /// The id of `name`, if it has one.
    pub fn lookup(&self, name: &String) -> (r: Option<ModuleId>)
        requires
            self.wf(),
        ensures
            r is Some <==> id_in(self@, name@) is Some,
            r is Some ==> r->Some_0.id == id_in(self@, name@)->Some_0,
    {
        let mut i: usize = 0;
        while i < self.names.len()
            invariant
                self.wf(),
                i <= self.names.len(),
                forall|k: int| 0 <= k < i ==> self@[k] != name@,
            decreases self.names.len() - i,
        {
            if self.names[i] == *name {
                proof {
                    assert(self@[i as int] == name@);
                    let j = choose|j: int| 0 <= j < self@.len() && self@[j] == name@;
                    assert(j == i);
                }
                return Some(ModuleId { id: (i + 1) as u64 });
            }
            i += 1;
        }
        None
    }

    /// The id of `name`; a name seen for the first time gets the next id,
    /// one above every id handed out before.
    pub fn get_or_create_id(&mut self, name: &String) -> (r: ModuleId)
        requires
            old(self).wf(),
            old(self)@.len() + 1 < u64::MAX,
        ensures
            final(self).wf(),
            id_in(old(self)@, name@) is Some ==> {
                &&& r.id == id_in(old(self)@, name@)->Some_0
                &&& final(self)@ == old(self)@
            },
            id_in(old(self)@, name@) is None ==> {
                &&& r.id == old(self)@.len() + 1
                &&& final(self)@ == old(self)@.push(name@)
            },
            name_in(final(self)@, r.id) == Some(name@),
    {
        match self.lookup(name) {
            Some(id) => {
                proof {
                    let i = choose|i: int| 0 <= i < self@.len() && self@[i] == name@;
                    assert(self@[i] == name@);
                }
                id
            },
            None => {
                let ghost before = self@;
                self.names.push(name.clone());
                proof {
                    assert(self@ =~= before.push(name@));
                    assert forall|i: int, j: int|
                        0 <= i < self@.len() && 0 <= j < self@.len() && i != j
                        implies #[trigger] self@[i] != #[trigger] self@[j] by {
                        if i < before.len() && j < before.len() {
                            assert(before[i] != before[j]);
                        } else if i < before.len() {
                            assert(before[i] != name@);
                        } else {
                            assert(before[j] != name@);
                        }
                    }
                }
                ModuleId { id: self.names.len() as u64 }
            },
        }
    }

    /// The name of `id`, present for every id this registry handed out.
    pub fn name_of(&self, id: ModuleId) -> (r: Option<&String>)
        ensures
            r is Some <==> name_in(self@, id.id) is Some,
            r is Some ==> r->Some_0@ == name_in(self@, id.id)->Some_0,
    {
        if 1 <= id.id && id.id <= self.names.len() as u64 {
            Some(&self.names[(id.id - 1) as usize])
        } else {
            None
        }
    }
}

/// Names and ids correspond one to one: in a well-formed registry a name has
/// id `id` exactly when `id` is the id of that name.
pub proof fn lemma_registry_bijection(names: Seq<Seq<char>>, id: u64, name: Seq<char>)
    requires
        distinct_names(names),
        names.len() < u64::MAX,
    ensures
        id_in(names, name) == Some(id) <==> name_in(names, id) == Some(name),
{
    if id_in(names, name) == Some(id) {
        let i = choose|i: int| 0 <= i < names.len() && names[i] == name;
        assert(i + 1 == id);
    }
    if name_in(names, id) == Some(name) {
        let k = id - 1;
        assert(0 <= k < names.len() && names[k] == name);
        let i = choose|i: int| 0 <= i < names.len() && names[i] == name;
        if i != k {
            assert(names[i] != names[k]);
        }
    }
}

/// Ids are never reused: registering a name keeps the name of every id
/// handed out before, and the new id is above all of them.
pub proof fn lemma_ids_stable(names: Seq<Seq<char>>, name: Seq<char>, id: u64)
    requires
        name_in(names, id) is Some,
    ensures
        name_in(names.push(name), id) == name_in(names, id),
        id < names.push(name).len(),
{
}

} // verus!
