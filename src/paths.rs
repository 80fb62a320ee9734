use vstd::prelude::*;

verus! {

/// The character between the parts of a dotted module name like `Foo.Bar.Baz`.
pub const MODULE_SEPARATOR: char = '.';

/// The character between the parts of a path.
pub const PATH_SEPARATOR: char = '/';

/// The module name with each dot turned into a path separator.
pub open spec fn dots_to_dirs(name: Seq<char>) -> Seq<char> {
    name.map_values(|c: char| if c == MODULE_SEPARATOR { PATH_SEPARATOR } else { c })
}

/// Where the source of module `name` lives under `src_dir`:
/// `src_dir/Foo/Bar/Baz.roc` for `Foo.Bar.Baz`.
pub open spec fn source_path(src_dir: Seq<char>, name: Seq<char>) -> Seq<char> {
    src_dir + seq![PATH_SEPARATOR] + dots_to_dirs(name) + seq!['.', 'r', 'o', 'c']
}

/// The path of the source file of module `module_name` under `src_dir`.
pub fn module_file_path(src_dir: &String, module_name: &String) -> (r: String)
    ensures
        r@ == source_path(src_dir@, module_name@),
{
    let name = module_name.as_str();
    let n = name.unicode_len();
    let mut out = src_dir.clone();
    proof {
        reveal_strlit("/");
        reveal_strlit(".roc");
    }
    out.append("/");
    let mut i: usize = 0;
    while i < n
        invariant
            n == name@.len(),
            name@ == module_name@,
            i <= n,
            out@ == src_dir@ + seq![PATH_SEPARATOR] + dots_to_dirs(name@.subrange(0, i as int)),
        decreases n - i,
    {
        let c = name.get_char(i);
        let ghost before = out@;
        if c == MODULE_SEPARATOR {
            proof {
                reveal_strlit("/");
            }
            out.append("/");
            assert(out@ =~= before.push(PATH_SEPARATOR));
        } else {
            let one = name.substring_char(i, i + 1);
            assert(one@ =~= seq![c]);
            out.append(one);
            assert(out@ =~= before.push(c));
        }
        proof {
            assert(name@.subrange(0, i + 1) =~= name@.subrange(0, i as int).push(c));
            assert(dots_to_dirs(name@.subrange(0, i + 1)) =~= dots_to_dirs(
                name@.subrange(0, i as int),
            ).push(if c == MODULE_SEPARATOR { PATH_SEPARATOR } else { c }));
        }
        i += 1;
    }
    out.append(".roc");
    assert(name@.subrange(0, n as int) =~= name@);
    assert(out@ =~= source_path(src_dir@, module_name@));
    out
}

} // verus!
