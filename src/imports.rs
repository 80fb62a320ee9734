use vstd::prelude::*;

verus! {

/// A span of source text.
#[derive(Clone, Copy, Debug, PartialEq, Eq, Structural)]
pub struct Region {
    pub start_line: u32,
    pub end_line: u32,
    pub start_col: u16,
    pub end_col: u16,
}

/// A value with the region it was parsed from.
pub struct Located<T> {
    pub region: Region,
    pub value: T,
}

/// One name in a header's exposes list, possibly wrapped in spaces.
pub enum ExposesEntry {
    Ident(String),
    SpaceBefore(Box<ExposesEntry>),
    SpaceAfter(Box<ExposesEntry>),
}

/// One entry of a header's imports list: a module and the names it exposes
/// unqualified, possibly wrapped in spaces.
pub enum ImportsEntry {
    Module(String, Vec<Located<ExposesEntry>>),
    SpaceBefore(Box<ImportsEntry>),
    SpaceAfter(Box<ImportsEntry>),
}

/// A value binding qualified by the module that defines it.
#[derive(Clone, Debug)]
pub struct Symbol {
    pub module_name: String,
    pub ident: String,
}

/// Where a load reads sources from.
pub struct Env {
    pub src_dir: String,
}

/// The name an exposes entry stands for, spaces ignored.
pub open spec fn exposed_ident(e: ExposesEntry) -> Seq<char>
    decreases e,
{
    match e {
        ExposesEntry::Ident(s) => s@,
        ExposesEntry::SpaceBefore(sub) => exposed_ident(*sub),
        ExposesEntry::SpaceAfter(sub) => exposed_ident(*sub),
    }
}

/// The module an imports entry names, spaces ignored.
pub open spec fn imported_module(e: ImportsEntry) -> Seq<char>
    decreases e,
{
    match e {
        ImportsEntry::Module(name, _) => name@,
        ImportsEntry::SpaceBefore(sub) => imported_module(*sub),
        ImportsEntry::SpaceAfter(sub) => imported_module(*sub),
    }
}

/// The names an imports entry exposes, spaces ignored.
pub open spec fn imported_exposes(e: ImportsEntry) -> Seq<Located<ExposesEntry>>
    decreases e,
{
    match e {
        ImportsEntry::Module(_, exposes) => exposes@,
        ImportsEntry::SpaceBefore(sub) => imported_exposes(*sub),
        ImportsEntry::SpaceAfter(sub) => imported_exposes(*sub),
    }
}

/// What a name is bound to, as seen in contracts: the symbol's module and
/// identifier, and the region the name was exposed at.
pub type Binding = (Seq<char>, Seq<char>, Region);

/// A scope entry as seen in contracts: the unqualified name and its binding.
pub type ScopeItem = (Seq<char>, Binding);

#[verifier::external_type_specification]
#[verifier::external_body]
#[verifier::reject_recursive_types(K)]
#[verifier::reject_recursive_types(V)]
#[verifier::reject_recursive_types(S)]
pub struct ExImHashMap<K, V, S>(im::HashMap<K, V, S>);

/// What a scope holds: each unqualified name to its symbol's module and
/// identifier and the region it was exposed at.
pub uninterp spec fn scope_contents(m: im::HashMap<String, (Symbol, Region)>) -> Map<
    Seq<char>,
    Binding,
>;

/// Relies on im::HashMap::insert: afterwards `k` maps to `v` and every other
/// key keeps its value (an earlier value of `k` is overwritten).
#[verifier::external_body]
fn scope_insert(m: &mut im::HashMap<String, (Symbol, Region)>, k: String, v: (Symbol, Region))
    ensures
        scope_contents(*final(m)) == scope_contents(*old(m)).insert(
            k@,
            (v.0.module_name@, v.0.ident@, v.1),
        ),
{
    m.insert(k, v);
}

/// `m` with each of `items` bound in turn; a later item for a name replaces
/// an earlier one.
pub open spec fn bind_all(m: Map<Seq<char>, Binding>, items: Seq<ScopeItem>) -> Map<
    Seq<char>,
    Binding,
>
    decreases items.len(),
{
    if items.len() == 0 {
        m
    } else {
        bind_all(m, items.drop_last()).insert(items.last().0, items.last().1)
    }
}

/// The scope entries that exposing `exposes` of module `module_name` adds.
pub open spec fn exposed_items(module_name: Seq<char>, exposes: Seq<Located<ExposesEntry>>) -> Seq<
    ScopeItem,
> {
    exposes.map_values(
        |e: Located<ExposesEntry>|
            (exposed_ident(e.value), (module_name, exposed_ident(e.value), e.region)),
    )
}

/// The scope entry that exposing `entry` of module `module_name` at
/// `region` adds: the exposed name, and its symbol qualified by the module.
pub fn expose(module_name: &String, entry: &ExposesEntry, region: Region) -> (r: (
    String,
    (Symbol, Region),
))
    ensures
        r.0@ == exposed_ident(*entry),
        r.1.0.ident@ == exposed_ident(*entry),
        r.1.0.module_name@ == module_name@,
        r.1.1 == region,
    decreases entry,
{
    match entry {
        ExposesEntry::Ident(ident) => {
            let symbol = Symbol { module_name: module_name.clone(), ident: ident.clone() };
            (ident.clone(), (symbol, region))
        },
        ExposesEntry::SpaceBefore(sub_entry) => expose(module_name, sub_entry, region),
        ExposesEntry::SpaceAfter(sub_entry) => expose(module_name, sub_entry, region),
    }
}

/// The module an imports entry names; every name it exposes is added to
/// `scope`, in order, bound to that module.
pub fn load_import(
    env: &Env,
    region: Region,
    entry: &ImportsEntry,
    scope: &mut im::HashMap<String, (Symbol, Region)>,
) -> (r: String)
    ensures
        r@ == imported_module(*entry),
        scope_contents(*final(scope)) == bind_all(
            scope_contents(*old(scope)),
            exposed_items(imported_module(*entry), imported_exposes(*entry)),
        ),
    decreases entry,
{
    match entry {
        ImportsEntry::Module(module_name, exposes) => {
            let mut i: usize = 0;
            while i < exposes.len()
                invariant
                    i <= exposes@.len(),
                    scope_contents(*scope) == bind_all(
                        scope_contents(*old(scope)),
                        exposed_items(module_name@, exposes@.subrange(0, i as int)),
                    ),
                decreases exposes@.len() - i,
            {
                let loc_entry = &exposes[i];
                let (key, value) = expose(module_name, &loc_entry.value, loc_entry.region);
                scope_insert(scope, key, value);
                proof {
                    assert(exposes@.subrange(0, i + 1) =~= exposes@.subrange(0, i as int).push(
                        exposes@[i as int],
                    ));
                    assert(exposed_items(module_name@, exposes@.subrange(0, i + 1))
                        =~= exposed_items(module_name@, exposes@.subrange(0, i as int)).push(
                        (
                            exposed_ident(exposes@[i as int].value),
                            (module_name@, exposed_ident(exposes@[i as int].value), exposes@[i as int].region),
                        ),
                    ));
                    let items = exposed_items(module_name@, exposes@.subrange(0, i + 1));
                    assert(items.drop_last() =~= exposed_items(module_name@, exposes@.subrange(0, i as int)));
                }
                i += 1;
            }
            proof {
                assert(exposes@.subrange(0, exposes@.len() as int) =~= exposes@);
            }
            module_name.clone()
        },
        ImportsEntry::SpaceBefore(sub_entry) => load_import(env, region, sub_entry, scope),
        ImportsEntry::SpaceAfter(sub_entry) => load_import(env, region, sub_entry, scope),
    }
}

/// Binding `a` and then `b` binds `a + b`.
pub proof fn lemma_bind_all_append(m: Map<Seq<char>, Binding>, a: Seq<ScopeItem>, b: Seq<ScopeItem>)
    ensures
        bind_all(bind_all(m, a), b) == bind_all(m, a + b),
    decreases b.len(),
{
    if b.len() == 0 {
        assert(a + b =~= a);
    } else {
        lemma_bind_all_append(m, a, b.drop_last());
        assert((a + b).drop_last() =~= a + b.drop_last());
        assert((a + b).last() == b.last());
    }
}

/// The scope entries that a header's imports add, in order.
pub open spec fn import_items(imports: Seq<(Region, ImportsEntry)>) -> Seq<ScopeItem>
    decreases imports.len(),
{
    if imports.len() == 0 {
        Seq::empty()
    } else {
        import_items(imports.drop_last()) + exposed_items(
            imported_module(imports.last().1),
            imported_exposes(imports.last().1),
        )
    }
}

/// The modules a header's imports name, in order; every name they expose
/// is added to `scope`, bound to its module's symbol.
pub fn scope_from_imports(
    env: &Env,
    imports: &Vec<(Region, ImportsEntry)>,
    scope: &mut im::HashMap<String, (Symbol, Region)>,
) -> (r: Vec<String>)
    ensures
        r@.map_values(|s: String| s@) == imports@.map_values(
            |e: (Region, ImportsEntry)| imported_module(e.1),
        ),
        scope_contents(*final(scope)) == bind_all(scope_contents(*old(scope)), import_items(imports@)),
{
    let mut deps: Vec<String> = Vec::new();
    let mut i: usize = 0;
    while i < imports.len()
        invariant
            i <= imports@.len(),
            deps@.map_values(|s: String| s@) == imports@.subrange(0, i as int).map_values(
                |e: (Region, ImportsEntry)| imported_module(e.1),
            ),
            scope_contents(*scope) == bind_all(
                scope_contents(*old(scope)),
                import_items(imports@.subrange(0, i as int)),
            ),
        decreases imports@.len() - i,
    {
        let ghost before = scope_contents(*scope);
        let ghost before_deps = deps@;
        let (region, entry) = &imports[i];
        let name = load_import(env, *region, entry, scope);
        deps.push(name);
        proof {
            let sub = imports@.subrange(0, i as int);
            let sub1 = imports@.subrange(0, i + 1);
            assert(sub1.drop_last() =~= sub);
            assert(sub1.last() == imports@[i as int]);
            assert(*entry == imports@[i as int].1);
            assert(deps@ == before_deps.push(name));
            let dv = deps@.map_values(|s: String| s@);
            let bv = before_deps.map_values(|s: String| s@);
            let iv = sub1.map_values(|e: (Region, ImportsEntry)| imported_module(e.1));
            let jv = sub.map_values(|e: (Region, ImportsEntry)| imported_module(e.1));
            assert(bv == jv);
            assert(bv.len() == before_deps.len());
            assert(jv.len() == sub.len());
            assert(sub.len() == i);
            assert(dv.len() == iv.len());
            assert forall|k: int| 0 <= k < dv.len() implies #[trigger] dv[k] == iv[k] by {
                assert(dv[k] == deps@[k]@);
                assert(iv[k] == imported_module(sub1[k].1));
                if k < i {
                    assert(deps@[k] == before_deps[k]);
                    assert(bv[k] == before_deps[k]@);
                    assert(bv[k] == jv[k]);
                    assert(jv[k] == imported_module(sub[k].1));
                    assert(sub1[k] == sub[k]);
                } else {
                    assert(deps@[k] == name);
                }
            }
            assert(dv =~= iv);
            lemma_bind_all_append(
                scope_contents(*old(scope)),
                import_items(sub),
                exposed_items(imported_module(*entry), imported_exposes(*entry)),
            );
            assert(deps@.map_values(|s: String| s@) =~= sub1.map_values(
                |e: (Region, ImportsEntry)| imported_module(e.1),
            ));
        }
        i += 1;
    }
    proof {
        assert(imports@.subrange(0, imports@.len() as int) =~= imports@);
    }
    deps
}

} // verus!
