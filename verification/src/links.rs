//! Enabled service links: following a link to its target, and the links that
//! are reported as broken.

use vstd::prelude::*;
use crate::text::{views, copy_bytes};

verus! {

/// What a path is, as far as a link's validity depends on it.
#[derive(Clone, Copy, Debug)]
pub enum FileKind {
    File,
    Symlink,
    Other,
}

/// What was found when one hop of a link was followed.
#[derive(Clone, Copy, Debug)]
pub enum LinkEvent {
    /// The path could not be read as a link.
    Unreadable,
    /// The link was read, and nothing is known of its target.
    NoTarget,
    /// The link was read, and its target is of this kind.
    Target(FileKind),
}

/// What follows from one hop of a link.
#[derive(Clone, Copy, Debug)]
pub enum LinkVerdict {
    /// The link leads to a regular file.
    Valid,
    /// The link leads to nothing.
    Broken,
    /// The target is a link itself, which is to be followed next.
    Follow,
    /// The link could not be judged.
    Failed,
}

/// The verdict that an event leads to.
pub open spec fn verdict_of(event: LinkEvent) -> LinkVerdict {
    match event {
        LinkEvent::Unreadable => LinkVerdict::Failed,
        LinkEvent::NoTarget => LinkVerdict::Broken,
        LinkEvent::Target(FileKind::File) => LinkVerdict::Valid,
        LinkEvent::Target(FileKind::Symlink) => LinkVerdict::Follow,
        LinkEvent::Target(FileKind::Other) => LinkVerdict::Failed,
    }
}

/// An enabled service link with the verdict on it.
#[derive(Debug)]
pub struct ServiceLink {
    pub path: Vec<u8>,
    pub verdict: LinkVerdict,
}

/// The paths of the links whose verdict is that they are broken, in order.
pub open spec fn broken_among(links: Seq<ServiceLink>) -> Seq<Seq<u8>>
    decreases links.len(),
{
    if links.len() == 0 {
        Seq::empty()
    } else {
        let before = broken_among(links.drop_last());
        if links.last().verdict is Broken {
            before.push(links.last().path@)
        } else {
            before
        }
    }
}

/// Judges one hop of a link.
pub fn is_valid_link(event: LinkEvent) -> (r: LinkVerdict)
    ensures
        r == verdict_of(event),
{
    match event {
        LinkEvent::Unreadable => LinkVerdict::Failed,
        LinkEvent::NoTarget => LinkVerdict::Broken,
        LinkEvent::Target(FileKind::File) => LinkVerdict::Valid,
        LinkEvent::Target(FileKind::Symlink) => LinkVerdict::Follow,
        LinkEvent::Target(FileKind::Other) => LinkVerdict::Failed,
    }
}

/// The enabled service links that are reported as broken: those with the
/// verdict that they lead to nothing. A link that could not be judged is not
/// reported.
pub fn broken_service_links(links: &Vec<ServiceLink>) -> (r: Vec<Vec<u8>>)
    ensures
        views(r@) == broken_among(links@),
{
    let mut out: Vec<Vec<u8>> = Vec::new();
    let mut i: usize = 0;
    proof {
        assert(links@.subrange(0, 0) =~= Seq::<ServiceLink>::empty());
        assert(views(out@) =~= Seq::<Seq<u8>>::empty());
    }
    while i < links.len()
        invariant
            i <= links@.len(),
            views(out@) == broken_among(links@.subrange(0, i as int)),
        decreases links@.len() - i,
    {
        proof {
            assert(links@.subrange(0, i + 1).drop_last() =~= links@.subrange(0, i as int));
        }
        match links[i].verdict {
            LinkVerdict::Broken => {
                let link = copy_bytes(links[i].path.as_slice());
                let ghost before = out@;
                out.push(link);
                proof {
                    assert(views(out@) =~= views(before).push(link@));
                }
            },
            _ => {},
        }
        i += 1;
    }
    proof {
        assert(links@.subrange(0, i as int) =~= links@);
    }
    out
}

} // verus!
