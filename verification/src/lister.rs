//! The directory lister's pure part: which enumerated entry names are
//! printed, and how its command line is read.

use crate::render::copy_bytes;
use vstd::prelude::*;

verus! {

/// A hidden entry: its name begins with the conventional `.` marker byte.
pub open spec fn is_hidden(name: Seq<u8>) -> bool {
    name.len() > 0 && name[0] == 46u8
}

/// An entry is listed when all entries are asked for, or it is not hidden.
pub open spec fn is_listed(name: Seq<u8>, show_all: bool) -> bool {
    show_all || !is_hidden(name)
}

/// The names kept from index `i` on, in enumeration order.
pub open spec fn listed_from(names: Seq<Seq<u8>>, show_all: bool, i: int) -> Seq<Seq<u8>>
    decreases names.len() - i,
{
    if i < 0 || i >= names.len() {
        Seq::empty()
    } else if is_listed(names[i], show_all) {
        seq![names[i]] + listed_from(names, show_all, i + 1)
    } else {
        listed_from(names, show_all, i + 1)
    }
}

/// Everything the lister prints: the enumerated names in their order, with
/// the hidden ones left out unless all are asked for.
pub open spec fn listed_entries(names: Seq<Seq<u8>>, show_all: bool) -> Seq<Seq<u8>> {
    listed_from(names, show_all, 0)
}

/// Tests whether an entry name is hidden.
pub fn entry_hidden(name: &[u8]) -> (r: bool)
    ensures
        r == is_hidden(name@),
{
    name.len() > 0 && name[0] == 46u8
}

/// The lister's filter: keeps, in enumeration order, exactly the entries
/// that are listed under the flag.
pub fn filter_entries(names: &Vec<Vec<u8>>, show_all: bool) -> (r: Vec<Vec<u8>>)
    ensures
        r.deep_view() == listed_entries(names.deep_view(), show_all),
{
    let ghost dl: Seq<Seq<u8>> = names.deep_view();
    let mut r: Vec<Vec<u8>> = Vec::new();
    let n: usize = names.len();
    proof {
        assert(r.deep_view() + listed_from(dl, show_all, 0) =~= listed_entries(dl, show_all));
    }
    let mut i: usize = 0;
    while i < n
        invariant
            n == names@.len(),
            dl == names.deep_view(),
            dl.len() == n,
            i <= n,
            r.deep_view() + listed_from(dl, show_all, i as int) == listed_entries(dl, show_all),
        decreases n - i,
    {
        let ghost r0: Seq<Seq<u8>> = r.deep_view();
        proof {
            assert(dl[i as int] =~= names@[i as int]@);
        }
        if show_all || !entry_hidden((&names[i]).as_slice()) {
            let kept: Vec<u8> = copy_bytes((&names[i]).as_slice());
            r.push(kept);
            proof {
                assert(kept.deep_view() =~= kept@);
                assert(r.deep_view() =~= r0.push(dl[i as int]));
                assert(r0.push(dl[i as int]) + listed_from(dl, show_all, i + 1) =~= r0
                    + listed_from(dl, show_all, i as int));
            }
        } else {
            proof {
                assert(listed_from(dl, show_all, i as int) == listed_from(dl, show_all, i + 1));
            }
        }
        i = i + 1;
    }
    r
}

/// The `-a` flag, as its two bytes.
pub open spec fn all_flag() -> Seq<u8> {
    seq![45u8, 97u8]
}

/// Some argument after the program name is the `-a` flag.
pub open spec fn wants_all_upto(args: Seq<Seq<u8>>, end: int) -> bool {
    exists|j: int| 1 <= j < end && args[j] == all_flag()
}

/// The flag may appear anywhere among the arguments.
pub open spec fn wants_all(args: Seq<Seq<u8>>) -> bool {
    wants_all_upto(args, args.len() as int)
}

/// The chosen path among the first `end` arguments: the last one after the
/// program name that is not the flag; `.` when there is none.
pub open spec fn chosen_path_upto(args: Seq<Seq<u8>>, end: int) -> Seq<u8>
    decreases end,
{
    if end <= 1 {
        seq![46u8]
    } else if args[end - 1] != all_flag() {
        args[end - 1]
    } else {
        chosen_path_upto(args, end - 1)
    }
}

/// The path the lister reads: every non-flag argument overwrites it, so
/// the last one wins; the default is the current directory `.`.
pub open spec fn chosen_path(args: Seq<Seq<u8>>) -> Seq<u8> {
    chosen_path_upto(args, args.len() as int)
}

/// Compares an argument with the `-a` flag.
fn is_all_flag(arg: &[u8]) -> (r: bool)
    ensures
        r == (arg@ == all_flag()),
{
    if arg.len() == 2 && arg[0] == 45u8 && arg[1] == 97u8 {
        proof {
            assert(arg@ =~= all_flag());
        }
        true
    } else {
        proof {
            if arg@ == all_flag() {
                assert(arg@.len() == 2);
                assert(arg@[0] == 45u8);
                assert(arg@[1] == 97u8);
            }
        }
        false
    }
}

/// The lister's argument scan, a fold over the arguments after the program
/// name: `-a`, recognized anywhere, turns hidden entries on; every other
/// argument overwrites the single path, so the last one takes effect.
pub fn parse_ls_args(args: &Vec<Vec<u8>>) -> (r: (bool, Vec<u8>))
    ensures
        r.0 == wants_all(args.deep_view()),
        r.1@ == chosen_path(args.deep_view()),
{
    let ghost dl: Seq<Seq<u8>> = args.deep_view();
    let mut path: Vec<u8> = Vec::new();
    path.push(46u8);
    proof {
        assert(path@ =~= chosen_path_upto(dl, 1));
        assert(path@ =~= chosen_path_upto(dl, 0));
    }
    let n: usize = args.len();
    if n == 0 {
        return (false, path);
    }
    let mut show_all: bool = false;
    let mut i: usize = 1;
    while i < n
        invariant
            n == args@.len(),
            dl == args.deep_view(),
            dl.len() == n,
            1 <= i <= n,
            show_all == wants_all_upto(dl, i as int),
            path@ == chosen_path_upto(dl, i as int),
        decreases n - i,
    {
        proof {
            assert(dl[i as int] =~= args@[i as int]@);
        }
        if is_all_flag((&args[i]).as_slice()) {
            show_all = true;
            proof {
                assert(wants_all_upto(dl, i + 1));
                assert(chosen_path_upto(dl, i + 1) == chosen_path_upto(dl, i as int));
            }
        } else {
            path = copy_bytes((&args[i]).as_slice());
            proof {
                assert(wants_all_upto(dl, i + 1) == wants_all_upto(dl, i as int)) by {
                    if wants_all_upto(dl, i + 1) {
                        let j = choose|j: int| 1 <= j < i + 1 && dl[j] == all_flag();
                        assert(j < i);
                        assert(wants_all_upto(dl, i as int));
                    }
                    if wants_all_upto(dl, i as int) {
                        let j = choose|j: int| 1 <= j < i && dl[j] == all_flag();
                        assert(1 <= j < i + 1 && dl[j] == all_flag());
                        assert(wants_all_upto(dl, i + 1));
                    }
                }
                assert(path@ == chosen_path_upto(dl, i + 1));
            }
        }
        i = i + 1;
    }
    (show_all, path)
}

} // verus!
