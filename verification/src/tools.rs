//! The text formats of the tools that the analysis queries: what the link
//! diagnostic tool, the ELF metadata tool and the package manager print, and
//! what is read from it.

use vstd::prelude::*;
use vstd::string::StringSliceAdditionalSpecFns;
use crate::text::{copy_bytes, views, split, lines, first_token, has_suffix, index_of, through_first, SLASH, SPACE, split_lines, split_bytes, lemma_split_nonempty, ends_with, token, cut_after, find_byte, copy_range, bytes_eq};

verus! {

/// The text `=> not found`, which ends a line that reports an unresolved library.
pub open spec fn not_found_marker() -> Seq<u8> {
    "=> not found".spec_bytes()
}

/// The text `.so`, after which a library name carries its version.
pub open spec fn so_marker() -> Seq<u8> {
    ".so".spec_bytes()
}

/// The provider name `?`, which stands for an unknown provider.
pub open spec fn unknown_provider() -> Seq<u8> {
    "?".spec_bytes()
}

/// The sonames that the lines `ls` report as unresolved, in order: of each line
/// that ends with `=> not found`, the first token.
pub open spec fn unresolved_in(ls: Seq<Seq<u8>>) -> Seq<Seq<u8>>
    decreases ls.len(),
{
    if ls.len() == 0 {
        Seq::empty()
    } else {
        let before = unresolved_in(ls.drop_last());
        if has_suffix(ls.last(), not_found_marker()) {
            before.push(first_token(ls.last()))
        } else {
            before
        }
    }
}

/// The sonames that an output of the link diagnostic tool reports as unresolved.
pub open spec fn unresolved(output: Seq<u8>) -> Seq<Seq<u8>> {
    unresolved_in(lines(output))
}

/// The name under which the provider of a soname is looked up: the part after
/// the last `/`, cut after its first `.so`.
pub open spec fn lookup_key_of(soname: Seq<u8>) -> Seq<u8> {
    through_first(split(soname, SLASH).last(), so_marker())
}

/// The package named by a line `<repo>/<package>` of the owner query: what
/// follows the first `/`. A line without `/` names none.
pub open spec fn owner_in_line(line: Seq<u8>) -> Option<Seq<u8>> {
    let i = index_of(line, SLASH, 0);
    if i < line.len() {
        Some(line.subrange(i + 1, line.len() as int))
    } else {
        None
    }
}

/// The packages named by the lines of an owner query, if every line names one.
pub open spec fn owners_in(ls: Seq<Seq<u8>>) -> Option<Seq<Seq<u8>>>
    decreases ls.len(),
{
    if ls.len() == 0 {
        Some(Seq::empty())
    } else {
        match (owners_in(ls.drop_last()), owner_in_line(ls.last())) {
            (Some(before), Some(owner)) => Some(before.push(owner)),
            _ => None,
        }
    }
}

/// The paths in the lines `<package> <path>` of a file listing: of each line
/// with at least two fields between single spaces, the second field.
pub open spec fn listed_paths_in(ls: Seq<Seq<u8>>) -> Seq<Seq<u8>>
    decreases ls.len(),
{
    if ls.len() == 0 {
        Seq::empty()
    } else {
        let before = listed_paths_in(ls.drop_last());
        let fields = split(ls.last(), SPACE);
        if fields.len() >= 2 {
            before.push(fields[1])
        } else {
            before
        }
    }
}

/// The provider list that is recorded for a soname: what the owner query
/// found, or the single unknown provider where it failed or found nothing.
pub open spec fn recorded_providers(found: Option<Seq<Seq<u8>>>) -> Seq<Seq<u8>> {
    match found {
        Some(list) if list.len() > 0 => list,
        _ => seq![unknown_provider()],
    }
}

/// Whether a missing soname is a direct dependency, given the output of the
/// ELF metadata tool where it ran with success: the soname is one of the printed
/// lines. Without an output the dependency counts as direct.
pub open spec fn direct_by(needed: Option<Seq<u8>>, soname: Seq<u8>) -> bool {
    match needed {
        Some(output) => lines(output).contains(soname),
        None => true,
    }
}

/// Reads the unresolved sonames from the output of the link diagnostic tool.
/// Where the tool did not end with success, nothing is reported.
pub fn get_missing_dependencies(success: bool, output: &[u8]) -> (r: Vec<Vec<u8>>)
    ensures
        success ==> views(r@) == unresolved(output@),
        !success ==> r@.len() == 0,
{
    let mut found: Vec<Vec<u8>> = Vec::new();
    if !success {
        return found;
    }
    let marker = "=> not found".as_bytes();
    let ls = split_lines(output);
    let ghost all = lines(output@);
    let mut i: usize = 0;
    proof {
        assert(all.subrange(0, 0) =~= Seq::<Seq<u8>>::empty());
        assert(views(found@) =~= Seq::<Seq<u8>>::empty());
    }
    while i < ls.len()
        invariant
            i <= ls@.len(),
            views(ls@) == all,
            marker@ == not_found_marker(),
            views(found@) == unresolved_in(all.subrange(0, i as int)),
        decreases ls@.len() - i,
    {
        proof {
            assert(views(ls@).len() == ls@.len());
            assert(all.subrange(0, i + 1).drop_last() =~= all.subrange(0, i as int));
            assert(all.subrange(0, i + 1).last() == ls@[i as int]@);
        }
        if ends_with(ls[i].as_slice(), marker) {
            let t = token(ls[i].as_slice());
            let ghost old_found = found@;
            found.push(t);
            proof {
                assert(views(found@) =~= views(old_found).push(t@));
            }
        }
        i += 1;
    }
    proof {
        assert(views(ls@).len() == ls@.len());
        assert(all.subrange(0, i as int) =~= all);
    }
    found
}

/// The name under which the provider of `soname` is looked up.
pub fn lookup_key(soname: &[u8]) -> (r: Vec<u8>)
    ensures
        r@ == lookup_key_of(soname@),
{
    let parts = split_bytes(soname, SLASH);
    proof {
        lemma_split_nonempty(soname@, SLASH);
        assert(views(parts@).len() == parts@.len());
        assert(views(parts@).last() == parts@[parts@.len() - 1]@);
    }
    cut_after(parts[parts.len() - 1].as_slice(), ".so".as_bytes())
}

/// Reads the provider packages from the output of the owner query. The result is
/// `None` where a line holds no `/`.
#[verifier::loop_isolation(false)]
pub fn parse_owners(output: &[u8]) -> (r: Option<Vec<Vec<u8>>>)
    ensures
        match r {
            Some(list) => owners_in(lines(output@)) == Some(views(list@)),
            None => owners_in(lines(output@)).is_none(),
        },
{
    let ls = split_lines(output);
    let ghost all = lines(output@);
    let mut found: Vec<Vec<u8>> = Vec::new();
    let mut i: usize = 0;
    proof {
        assert(all.subrange(0, 0) =~= Seq::<Seq<u8>>::empty());
        assert(views(found@) =~= Seq::<Seq<u8>>::empty());
    }
    while i < ls.len()
        invariant
            i <= ls@.len(),
            views(ls@) == all,
            owners_in(all.subrange(0, i as int)) == Some(views(found@)),
        decreases ls@.len() - i,
    {
        proof {
            assert(views(ls@).len() == ls@.len());
            assert(all.subrange(0, i + 1).drop_last() =~= all.subrange(0, i as int));
            assert(all.subrange(0, i + 1).last() == ls@[i as int]@);
        }
        let line = ls[i].as_slice();
        let at = find_byte(line, SLASH, 0);
        if at >= line.len() {
            proof {
                assert(owner_in_line(all.subrange(0, i + 1).last()).is_none());
                assert(owners_in(all.subrange(0, i + 1)).is_none());
                lemma_owners_none(all, i + 1);
                assert(owners_in(lines(output@)).is_none());
            }
            return None;
        }
        let owner = copy_range(line, at + 1, line.len());
        let ghost old_found = found@;
        found.push(owner);
        proof {
            assert(views(found@) =~= views(old_found).push(owner@));
        }
        i += 1;
    }
    proof {
        assert(views(ls@).len() == ls@.len());
        assert(all.subrange(0, i as int) =~= all);
    }
    Some(found)
}

/// Once a line names no owner, no longer list of lines names its owners.
pub proof fn lemma_owners_none(ls: Seq<Seq<u8>>, n: int)
    requires
        0 <= n <= ls.len(),
        owners_in(ls.subrange(0, n)).is_none(),
    ensures
        owners_in(ls).is_none(),
    decreases ls.len() - n,
{
    if n < ls.len() {
        assert(ls.subrange(0, n + 1).drop_last() =~= ls.subrange(0, n));
        lemma_owners_none(ls, n + 1);
    } else {
        assert(ls.subrange(0, n) =~= ls);
    }
}

/// The provider list that is recorded for a soname, given what the owner query
/// found (`None` where it failed).
pub fn providers_or_unknown(found: Option<Vec<Vec<u8>>>) -> (r: Vec<Vec<u8>>)
    ensures
        views(r@) == recorded_providers(
            match found {
                Some(list) => Some(views(list@)),
                None => None,
            },
        ),
{
    match found {
        Some(list) => {
            if list.len() > 0 {
                proof {
                    assert(views(list@).len() == list@.len());
                }
                return list;
            }
            proof {
                assert(views(list@).len() == list@.len());
            }
        },
        None => {},
    }
    let unknown = copy_bytes("?".as_bytes());
    let r: Vec<Vec<u8>> = vec![unknown];
    proof {
        assert(views(r@) =~= seq![unknown_provider()]);
    }
    r
}

/// Reads the file paths from the package manager's listing of a package's files.
pub fn parse_file_listing(output: &[u8]) -> (r: Vec<Vec<u8>>)
    ensures
        views(r@) == listed_paths_in(lines(output@)),
{
    let ls = split_lines(output);
    let ghost all = lines(output@);
    let mut found: Vec<Vec<u8>> = Vec::new();
    let mut i: usize = 0;
    proof {
        assert(all.subrange(0, 0) =~= Seq::<Seq<u8>>::empty());
        assert(views(found@) =~= Seq::<Seq<u8>>::empty());
    }
    while i < ls.len()
        invariant
            i <= ls@.len(),
            views(ls@) == all,
            views(found@) == listed_paths_in(all.subrange(0, i as int)),
        decreases ls@.len() - i,
    {
        proof {
            assert(views(ls@).len() == ls@.len());
            assert(all.subrange(0, i + 1).drop_last() =~= all.subrange(0, i as int));
            assert(all.subrange(0, i + 1).last() == ls@[i as int]@);
        }
        let fields = split_bytes(ls[i].as_slice(), SPACE);
        proof {
            assert(views(fields@).len() == fields@.len());
        }
        if fields.len() >= 2 {
            let path = copy_range(fields[1].as_slice(), 0, fields[1].len());
            let ghost old_found = found@;
            found.push(path);
            proof {
                assert(fields@[1]@.subrange(0, fields@[1]@.len() as int) =~= fields@[1]@);
                assert(views(fields@)[1] == fields@[1]@);
                assert(views(found@) =~= views(old_found).push(path@));
            }
        }
        i += 1;
    }
    proof {
        assert(views(ls@).len() == ls@.len());
        assert(all.subrange(0, i as int) =~= all);
    }
    found
}

/// Reads the names of the foreign packages from the package manager's output:
/// one name per line.
pub fn get_aur_packages(output: &[u8]) -> (r: Vec<Vec<u8>>)
    ensures
        views(r@) == lines(output@),
{
    split_lines(output)
}

/// Whether the missing `dep` is a direct dependency of an artifact, given the
/// output of the ELF metadata tool for the artifact, or `None` where the tool
/// is absent or failed.
#[verifier::loop_isolation(false)]
pub fn is_direct_dep(needed: Option<Vec<u8>>, dep: &[u8]) -> (r: bool)
    ensures
        r == direct_by(
            match needed {
                Some(output) => Some(output@),
                None => None,
            },
            dep@,
        ),
        needed.is_none() ==> r,
{
    match needed {
        None => true,
        Some(output) => {
            let ls = split_lines(output.as_slice());
            let ghost all = lines(output@);
            let mut i: usize = 0;
            while i < ls.len()
                invariant
                    i <= ls@.len(),
                    views(ls@) == all,
                    forall|j: int| 0 <= j < i ==> all[j] != dep@,
                decreases ls@.len() - i,
            {
                proof {
                    assert(views(ls@).len() == ls@.len());
                    assert(all[i as int] == ls@[i as int]@);
                }
                if bytes_eq(ls[i].as_slice(), dep) {
                    proof {
                        assert(all[i as int] == dep@);
                        assert(all.contains(dep@));
                    }
                    return true;
                }
                i += 1;
            }
            proof {
                assert(views(ls@).len() == ls@.len());
            }
            false
        },
    }
}

} // verus!
