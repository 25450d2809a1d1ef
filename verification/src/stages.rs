//! The first two stages of the analysis: from a package to its artifacts, and
//! from an artifact to its missing dependencies, with the progress that each
//! stage reports.

use vstd::prelude::*;
use vstd::string::StringSliceAdditionalSpecFns;
use crate::text::{views, count, has_prefix, has_suffix, SLASH, copy_bytes, count_byte, starts_with, ends_with};
use crate::tools::{so_marker, recorded_providers, providers_or_unknown};

verus! {

/// What the filesystem tells of a path: whether it is a regular file, and its
/// permission bits.
#[derive(Clone, Copy, Debug)]
pub struct FileStat {
    pub is_file: bool,
    pub mode: u32,
}

/// A file of a package: its path after one symlink hop, and what the
/// filesystem tells of that path, if anything.
#[derive(Debug)]
pub struct Candidate {
    pub path: Vec<u8>,
    pub stat: Option<FileStat>,
}

/// An artifact of a package that waits for its link analysis.
#[derive(Debug)]
pub struct ExecFileWork {
    /// The package that owns the artifact.
    pub package: Vec<u8>,
    /// The path of the artifact.
    pub exec_filepath: Vec<u8>,
    /// Whether this is the last artifact of its package.
    pub package_last: bool,
}

/// What the first stage does for one package: the work it hands on, and by how
/// much it advances the progress indicator itself.
#[derive(Debug)]
pub struct PackagePlan {
    pub work: Vec<ExecFileWork>,
    pub progress: u64,
}

/// A library that an artifact of a package lacks, with the packages that provide it.
#[derive(Debug)]
pub struct MissingDep {
    pub package: Vec<u8>,
    pub exec_filepath: Vec<u8>,
    pub soname: Vec<u8>,
    pub providers: Vec<Vec<u8>>,
}

/// The directory prefix `/opt/`.
pub open spec fn opt_dir() -> Seq<u8> {
    "/opt/".spec_bytes()
}

/// The directory prefix `/usr/share/`.
pub open spec fn usr_share_dir() -> Seq<u8> {
    "/usr/share/".spec_bytes()
}

/// A path under a directory whose programs bring their own libraries.
pub open spec fn blacklisted(path: Seq<u8>) -> bool {
    has_prefix(path, opt_dir()) || has_prefix(path, usr_share_dir())
}

/// Some class of users may execute a file of this mode.
pub open spec fn has_exec_bit(mode: u32) -> bool {
    mode & 0o111 != 0
}

/// A shared object directly in a library directory: three `/` and the ending `.so`.
pub open spec fn is_top_level_so(path: Seq<u8>) -> bool {
    count(path, SLASH) == 3 && has_suffix(path, so_marker())
}

/// The file is an artifact: a regular file that is executable or a top-level
/// shared object.
pub open spec fn qualifies(path: Seq<u8>, stat: Option<FileStat>) -> bool {
    match stat {
        Some(st) => st.is_file && (has_exec_bit(st.mode) || is_top_level_so(path)),
        None => false,
    }
}

/// The paths of the candidates that are artifacts, in order.
pub open spec fn artifacts_of(cs: Seq<Candidate>) -> Seq<Seq<u8>>
    decreases cs.len(),
{
    if cs.len() == 0 {
        Seq::empty()
    } else {
        let before = artifacts_of(cs.drop_last());
        if qualifies(cs.last().path@, cs.last().stat) {
            before.push(cs.last().path@)
        } else {
            before
        }
    }
}

/// The paths that are not blacklisted, in order.
pub open spec fn allowed(paths: Seq<Seq<u8>>) -> Seq<Seq<u8>>
    decreases paths.len(),
{
    if paths.len() == 0 {
        Seq::empty()
    } else {
        let before = allowed(paths.drop_last());
        if blacklisted(paths.last()) {
            before
        } else {
            before.push(paths.last())
        }
    }
}

/// The number of work items that are marked as the last of their package.
pub open spec fn last_flags(work: Seq<ExecFileWork>) -> nat
    decreases work.len(),
{
    if work.len() == 0 {
        0
    } else {
        last_flags(work.drop_last()) + if work.last().package_last { 1nat } else { 0nat }
    }
}

/// The plan is that of the package `package` with the artifacts `kept`: one
/// work item for each artifact, in order, the last one marked, and one advance
/// of the progress indicator exactly if there is no work.
pub open spec fn plans(plan: PackagePlan, package: Seq<u8>, kept: Seq<Seq<u8>>) -> bool {
    &&& plan.work@.len() == kept.len()
    &&& forall|i: int|
        0 <= i < kept.len() ==> {
            &&& (#[trigger] plan.work@[i]).package@ == package
            &&& plan.work@[i].exec_filepath@ == kept[i]
            &&& plan.work@[i].package_last == (i == kept.len() - 1)
        }
    &&& plan.progress == if kept.len() == 0 { 1u64 } else { 0u64 }
}

/// The last work item of a plan is marked, and no other; a plan without work
/// advances the progress indicator once, any other not at all.
pub open spec fn well_planned(plan: PackagePlan) -> bool {
    &&& forall|i: int|
        0 <= i < plan.work@.len() ==> (#[trigger] plan.work@[i]).package_last == (i
            == plan.work@.len() - 1)
    &&& plan.progress == if plan.work@.len() == 0 { 1u64 } else { 0u64 }
}

/// How often the progress indicator advances for the package of a plan: in the
/// first stage, and in the second after each work item that is marked as last.
pub open spec fn advances(plan: PackagePlan) -> nat {
    plan.progress as nat + last_flags(plan.work@)
}

/// How often the progress indicator advances in a run with these plans, one
/// for each package, and `links` enabled service links.
pub open spec fn total_advances(all: Seq<PackagePlan>, links: nat) -> nat
    decreases all.len(),
{
    if all.len() == 0 {
        links
    } else {
        total_advances(all.drop_last(), links) + advances(all.last())
    }
}

/// Whether the file at `path` with the filesystem's answer `stat` is an artifact.
pub fn is_artifact(path: &[u8], stat: Option<FileStat>) -> (r: bool)
    ensures
        r == qualifies(path@, stat),
{
    match stat {
        None => false,
        Some(st) => {
            if !st.is_file {
                return false;
            }
            if st.mode & 0o111 != 0 {
                return true;
            }
            count_byte(path, SLASH) == 3 && ends_with(path, ".so".as_bytes())
        },
    }
}

/// The path that stands for a listed file: the target of the symlink at
/// `path`, or `path` itself where it is no symlink or cannot be read.
pub fn resolve_one_hop(path: Vec<u8>, link_target: Option<Vec<u8>>) -> (r: Vec<u8>)
    ensures
        r@ == match link_target {
            Some(t) => t@,
            None => path@,
        },
{
    match link_target {
        Some(t) => t,
        None => path,
    }
}

/// The artifacts among the files of a package, in the order of the listing.
pub fn get_package_linked_files(candidates: &Vec<Candidate>) -> (r: Vec<Vec<u8>>)
    ensures
        views(r@) == artifacts_of(candidates@),
{
    let mut kept: Vec<Vec<u8>> = Vec::new();
    let mut i: usize = 0;
    proof {
        assert(candidates@.subrange(0, 0) =~= Seq::<Candidate>::empty());
        assert(views(kept@) =~= Seq::<Seq<u8>>::empty());
    }
    while i < candidates.len()
        invariant
            i <= candidates@.len(),
            views(kept@) == artifacts_of(candidates@.subrange(0, i as int)),
        decreases candidates@.len() - i,
    {
        proof {
            assert(candidates@.subrange(0, i + 1).drop_last() =~= candidates@.subrange(0, i as int));
        }
        if is_artifact(candidates[i].path.as_slice(), candidates[i].stat) {
            let path = copy_bytes(candidates[i].path.as_slice());
            let ghost old_kept = kept@;
            kept.push(path);
            proof {
                assert(views(kept@) =~= views(old_kept).push(path@));
            }
        }
        i += 1;
    }
    proof {
        assert(candidates@.subrange(0, i as int) =~= candidates@);
    }
    kept
}

/// Whether `path` lies under a blacklisted directory.
pub fn is_blacklisted(path: &[u8]) -> (r: bool)
    ensures
        r == blacklisted(path@),
{
    starts_with(path, "/opt/".as_bytes()) || starts_with(path, "/usr/share/".as_bytes())
}

/// The artifacts that are not blacklisted, in order.
pub fn drop_blacklisted(artifacts: &Vec<Vec<u8>>) -> (r: Vec<Vec<u8>>)
    ensures
        views(r@) == allowed(views(artifacts@)),
{
    let ghost all = views(artifacts@);
    let mut kept: Vec<Vec<u8>> = Vec::new();
    let mut i: usize = 0;
    proof {
        assert(all.subrange(0, 0) =~= Seq::<Seq<u8>>::empty());
        assert(views(kept@) =~= Seq::<Seq<u8>>::empty());
    }
    while i < artifacts.len()
        invariant
            i <= artifacts@.len(),
            all == views(artifacts@),
            views(kept@) == allowed(all.subrange(0, i as int)),
        decreases artifacts@.len() - i,
    {
        proof {
            assert(all.subrange(0, i + 1).drop_last() =~= all.subrange(0, i as int));
            assert(all.subrange(0, i + 1).last() == artifacts@[i as int]@);
        }
        if !is_blacklisted(artifacts[i].as_slice()) {
            let path = copy_bytes(artifacts[i].as_slice());
            let ghost old_kept = kept@;
            kept.push(path);
            proof {
                assert(views(kept@) =~= views(old_kept).push(path@));
            }
        }
        i += 1;
    }
    proof {
        assert(all.subrange(0, i as int) =~= all);
    }
    kept
}

/// Plans the first stage for one package, given its artifacts or `None` where
/// the listing failed. Each artifact that is not blacklisted becomes a work
/// item, in order, and the last one is marked. Where no work is left, the
/// stage advances the progress indicator itself.
pub fn plan_package(package: &[u8], artifacts: Option<Vec<Vec<u8>>>) -> (plan: PackagePlan)
    ensures
        plans(
            plan,
            package@,
            match artifacts {
                Some(a) => allowed(views(a@)),
                None => Seq::empty(),
            },
        ),
        well_planned(plan),
{
    let kept: Vec<Vec<u8>> = match &artifacts {
        Some(a) => drop_blacklisted(a),
        None => Vec::new(),
    };
    proof {
        assert(views(kept@).len() == kept@.len());
        if artifacts.is_none() {
            assert(views(kept@) =~= Seq::<Seq<u8>>::empty());
        }
    }
    let n = kept.len();
    let mut work: Vec<ExecFileWork> = Vec::new();
    let mut i: usize = 0;
    while i < n
        invariant
            i <= n,
            n == kept@.len(),
            work@.len() == i,
            forall|j: int|
                0 <= j < i ==> {
                    &&& (#[trigger] work@[j]).package@ == package@
                    &&& work@[j].exec_filepath@ == kept@[j]@
                    &&& work@[j].package_last == (j == n - 1)
                },
        decreases n - i,
    {
        work.push(
            ExecFileWork {
                package: copy_bytes(package),
                exec_filepath: copy_bytes(kept[i].as_slice()),
                package_last: i == n - 1,
            },
        );
        i += 1;
    }
    let progress: u64 = if n == 0 { 1 } else { 0 };
    PackagePlan { work, progress }
}

/// The finding of the second stage for one unresolved soname of an artifact,
/// given what the owner query found for the soname's lookup key (`None` where
/// the query failed).
pub fn missing_dep(work: &ExecFileWork, soname: &[u8], owners: Option<Vec<Vec<u8>>>) -> (r: MissingDep)
    ensures
        r.package@ == work.package@,
        r.exec_filepath@ == work.exec_filepath@,
        r.soname@ == soname@,
        views(r.providers@) == recorded_providers(
            match owners {
                Some(list) => Some(views(list@)),
                None => None,
            },
        ),
{
    MissingDep {
        package: copy_bytes(work.package.as_slice()),
        exec_filepath: copy_bytes(work.exec_filepath.as_slice()),
        soname: copy_bytes(soname),
        providers: providers_or_unknown(owners),
    }
}

/// By how much the second stage advances the progress indicator after it has
/// handled a work item.
pub fn progress_after(work: &ExecFileWork) -> (r: u64)
    ensures
        r == if work.package_last { 1u64 } else { 0u64 },
{
    if work.package_last {
        1
    } else {
        0
    }
}

/// A path is among the artifacts exactly if some candidate holds it and qualifies.
pub proof fn lemma_artifacts_exact(cs: Seq<Candidate>, path: Seq<u8>)
    ensures
        artifacts_of(cs).contains(path) <==> exists|i: int|
            0 <= i < cs.len() && (#[trigger] cs[i]).path@ == path && qualifies(path, cs[i].stat),
    decreases cs.len(),
{
    if cs.len() > 0 {
        let front = cs.drop_last();
        lemma_artifacts_exact(front, path);
        let before = artifacts_of(front);
        if artifacts_of(cs).contains(path) {
            let k = choose|k: int| 0 <= k < artifacts_of(cs).len() && artifacts_of(cs)[k] == path;
            if k < before.len() {
                assert(before[k] == path);
                assert(before.contains(path));
                let i = choose|i: int|
                    0 <= i < front.len() && (#[trigger] front[i]).path@ == path && qualifies(
                        path,
                        front[i].stat,
                    );
                assert(cs[i] == front[i]);
            } else {
                assert(cs[cs.len() - 1].path@ == path);
            }
        }
        if exists|i: int|
            0 <= i < cs.len() && (#[trigger] cs[i]).path@ == path && qualifies(path, cs[i].stat) {
            let i = choose|i: int|
                0 <= i < cs.len() && (#[trigger] cs[i]).path@ == path && qualifies(path, cs[i].stat);
            if i < front.len() {
                assert(front[i] == cs[i]);
                assert(before.contains(path));
                let k = choose|k: int| 0 <= k < before.len() && before[k] == path;
                assert(artifacts_of(cs)[k] == path);
            } else {
                assert(artifacts_of(cs)[before.len() as int] == path);
            }
        }
    }
}

/// Only the last item of a well planned work list is marked.
pub proof fn lemma_last_flags(work: Seq<ExecFileWork>, n: int)
    requires
        work.len() <= n,
        forall|i: int| 0 <= i < work.len() ==> (#[trigger] work[i]).package_last == (i == n - 1),
    ensures
        last_flags(work) == if work.len() == n && n > 0 { 1nat } else { 0nat },
    decreases work.len(),
{
    if work.len() > 0 {
        let front = work.drop_last();
        assert forall|i: int| 0 <= i < front.len() implies (#[trigger] front[i]).package_last == (i
            == n - 1) by {
            assert(front[i] == work[i]);
        }
        lemma_last_flags(front, n);
    }
}

/// For each package the progress indicator advances exactly once: in the first
/// stage where the package leaves no work, else in the second stage after the
/// package's last artifact.
pub proof fn lemma_one_advance_per_package(plan: PackagePlan)
    requires
        well_planned(plan),
    ensures
        advances(plan) == 1,
{
    lemma_last_flags(plan.work@, plan.work@.len() as int);
}

/// Over a whole run the progress indicator advances once for each package and
/// once for each enabled service link.
pub proof fn lemma_progress_total(all: Seq<PackagePlan>, links: nat)
    requires
        forall|i: int| 0 <= i < all.len() ==> well_planned(#[trigger] all[i]),
    ensures
        total_advances(all, links) == all.len() + links,
    decreases all.len(),
{
    if all.len() > 0 {
        let front = all.drop_last();
        assert forall|i: int| 0 <= i < front.len() implies well_planned(#[trigger] front[i]) by {
            assert(front[i] == all[i]);
        }
        lemma_progress_total(front, links);
        lemma_one_advance_per_package(all.last());
    }
}

} // verus!
