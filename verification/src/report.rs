//! The report of the analysis: one line for each missing library, one for each
//! broken package and one for the transitively broken packages. A line is a
//! sequence of spans, each with the role of its text, so that a terminal can
//! colour it.

use vstd::prelude::*;
use vstd::string::StringSliceAdditionalSpecFns;
use crate::text::{views, has_prefix, copy_bytes, append, starts_with};
use crate::stages::MissingDep;
use crate::table::NameSet;
use crate::aggregate::{Aggregation, Users, PacSourceMap};

verus! {

/// The role of a piece of text in a report line.
#[derive(Clone, Copy, Debug, PartialEq, Eq)]
pub enum Style {
    /// Words of the report itself.
    Plain,
    /// The name of a library, or of a transitively broken package.
    Library,
    /// The name of a broken package.
    Package,
    /// The name of a package that provides a library.
    Provider,
}

/// A piece of text with its role.
#[derive(Debug)]
pub struct Span {
    pub style: Style,
    pub text: Vec<u8>,
}

/// The roles and texts of the spans of a line.
pub open spec fn span_views(line: Seq<Span>) -> Seq<(Style, Seq<u8>)> {
    line.map_values(|s: Span| (s.style, s.text@))
}

/// The spans of each line.
pub open spec fn line_views(lines: Seq<Vec<Span>>) -> Seq<Seq<(Style, Seq<u8>)>> {
    lines.map_values(|l: Vec<Span>| span_views(l@))
}

/// The text of a line: the texts of its spans, one after the other.
pub open spec fn text_of(line: Seq<(Style, Seq<u8>)>) -> Seq<u8>
    decreases line.len(),
{
    if line.len() == 0 {
        Seq::empty()
    } else {
        text_of(line.drop_last()) + line.last().1
    }
}

/// A line with one more span for each of the first `n` packages: a space, then the name.
pub open spec fn with_users(acc: Seq<(Style, Seq<u8>)>, packages: Seq<Seq<u8>>, n: int) -> Seq<
    (Style, Seq<u8>),
>
    decreases n,
{
    if n <= 0 {
        acc
    } else {
        with_users(acc, packages, n - 1).push((Style::Plain, " ".spec_bytes())).push(
            (Style::Package, packages[n - 1]),
        )
    }
}

/// The line for a missing library: `package[s] need rebuild because of missing
/// <soname>: <package> <package> ...`, with the plural for more than one package.
pub open spec fn lib_line_of(soname: Seq<u8>, packages: Seq<Seq<u8>>) -> Seq<(Style, Seq<u8>)> {
    with_users(
        seq![
            (
                Style::Plain,
                if packages.len() > 1 {
                    "packages need rebuild because of missing ".spec_bytes()
                } else {
                    "package need rebuild because of missing ".spec_bytes()
                },
            ),
            (Style::Library, soname),
            (Style::Plain, ":".spec_bytes()),
        ],
        packages,
        packages.len() as int,
    )
}

/// A line with the spans of one more miss: the soname, ` from <provider>` where
/// a provider is known, and `;` unless the miss is the last.
pub open spec fn with_miss(
    acc: Seq<(Style, Seq<u8>)>,
    soname: Seq<u8>,
    sources: Map<Seq<u8>, Seq<u8>>,
    last: bool,
) -> Seq<(Style, Seq<u8>)> {
    let named = acc.push((Style::Library, soname));
    let sourced = if sources.dom().contains(soname) {
        named.push((Style::Plain, " from ".spec_bytes())).push((Style::Provider, sources[soname]))
    } else {
        named
    };
    if last {
        sourced
    } else {
        sourced.push((Style::Plain, ";".spec_bytes()))
    }
}

/// A line with the spans of the first `n` misses.
pub open spec fn with_misses(
    acc: Seq<(Style, Seq<u8>)>,
    sonames: Seq<Seq<u8>>,
    sources: Map<Seq<u8>, Seq<u8>>,
    n: int,
) -> Seq<(Style, Seq<u8>)>
    decreases n,
{
    if n <= 0 {
        acc
    } else {
        with_miss(
            with_misses(acc, sonames, sources, n - 1),
            sonames[n - 1],
            sources,
            n == sonames.len(),
        )
    }
}

/// The line for a broken package: `package <package> misses <soname>[ from
/// <provider>];<soname>[ from <provider>]...`.
pub open spec fn pac_line_of(
    package: Seq<u8>,
    sonames: Seq<Seq<u8>>,
    sources: Map<Seq<u8>, Seq<u8>>,
) -> Seq<(Style, Seq<u8>)> {
    with_misses(
        seq![
            (Style::Plain, "package ".spec_bytes()),
            (Style::Package, package),
            (Style::Plain, " misses ".spec_bytes()),
        ],
        sonames,
        sources,
        sonames.len() as int,
    )
}

/// A line with the spans of the first `n` names: before the first the words
/// `transitively broken packages: `, before each other `, `.
pub open spec fn with_names(acc: Seq<(Style, Seq<u8>)>, names: Seq<Seq<u8>>, n: int) -> Seq<
    (Style, Seq<u8>),
>
    decreases n,
{
    if n <= 0 {
        acc
    } else {
        with_names(acc, names, n - 1).push(
            (
                Style::Plain,
                if n == 1 {
                    "transitively broken packages: ".spec_bytes()
                } else {
                    ", ".spec_bytes()
                },
            ),
        ).push((Style::Library, names[n - 1]))
    }
}

/// The line for the transitively broken packages, where there is one.
pub open spec fn transitive_line_of(names: Seq<Seq<u8>>) -> Option<Seq<(Style, Seq<u8>)>> {
    if names.len() == 0 {
        None
    } else {
        Some(with_names(Seq::empty(), names, names.len() as int))
    }
}

/// The lines for the first `n` missing libraries.
pub open spec fn lib_lines_of(agg: Aggregation, n: int) -> Seq<Seq<(Style, Seq<u8>)>> {
    Seq::new(
        n as nat,
        |i: int| lib_line_of(agg.lib_map.listed()[i], agg.lib_map.tables()[i].listed()),
    )
}

/// The lines for the first `n` broken packages.
pub open spec fn pac_lines_of(agg: Aggregation, n: int) -> Seq<Seq<(Style, Seq<u8>)>> {
    Seq::new(
        n as nat,
        |i: int|
            pac_line_of(
                agg.pac_map.listed()[i],
                agg.pac_map.sets()[i].listed(),
                agg.pac_source_map@,
            ),
    )
}

/// The whole report: the lines for the missing libraries, those for the broken
/// packages, and the line for the transitively broken packages where there
/// are any.
pub open spec fn report_of(agg: Aggregation, transitive: Seq<Seq<u8>>) -> Seq<
    Seq<(Style, Seq<u8>)>,
> {
    let body = lib_lines_of(agg, agg.lib_map.listed().len() as int) + pac_lines_of(
        agg,
        agg.pac_map.listed().len() as int,
    );
    match transitive_line_of(transitive) {
        Some(line) => body.push(line),
        None => body,
    }
}

/// The parts with `sep` between them.
pub open spec fn joined(parts: Seq<Seq<u8>>, sep: Seq<u8>) -> Seq<u8>
    decreases parts.len(),
{
    if parts.len() == 0 {
        Seq::empty()
    } else if parts.len() == 1 {
        parts[0]
    } else {
        joined(parts.drop_last(), sep) + sep + parts.last()
    }
}

/// The line that is printed for each finding as it comes in: the providers,
/// the soname, the package and the artifact, with single spaces between them.
pub open spec fn finding_line_of(dep: MissingDep) -> Seq<u8> {
    joined(views(dep.providers@), " ".spec_bytes()) + " ".spec_bytes() + dep.soname@
        + " ".spec_bytes() + dep.package@ + " ".spec_bytes() + dep.exec_filepath@
}

/// An argument that asks for the dump of the views: it begins with `-v` or `--v`.
pub open spec fn verbose_flag(arg: Seq<u8>) -> bool {
    has_prefix(arg, "-v".spec_bytes()) || has_prefix(arg, "--v".spec_bytes())
}

/// Whether a command line argument asks for the dump of the views.
pub fn is_verbose_flag(arg: &[u8]) -> (r: bool)
    ensures
        r == verbose_flag(arg@),
{
    starts_with(arg, "-v".as_bytes()) || starts_with(arg, "--v".as_bytes())
}

/// Joins `parts` with `sep` between them.
pub fn join(parts: &Vec<Vec<u8>>, sep: &[u8]) -> (r: Vec<u8>)
    ensures
        r@ == joined(views(parts@), sep@),
{
    let ghost all = views(parts@);
    let mut out: Vec<u8> = Vec::new();
    let mut i: usize = 0;
    proof {
        assert(all.subrange(0, 0) =~= Seq::<Seq<u8>>::empty());
    }
    while i < parts.len()
        invariant
            i <= parts@.len(),
            all == views(parts@),
            out@ == joined(all.subrange(0, i as int), sep@),
        decreases parts@.len() - i,
    {
        proof {
            assert(all.subrange(0, i + 1).drop_last() =~= all.subrange(0, i as int));
            assert(all.subrange(0, i + 1).last() == parts@[i as int]@);
            assert(all.subrange(0, i + 1)[0] == all[0]);
        }
        if i > 0 {
            append(&mut out, sep);
        }
        append(&mut out, parts[i].as_slice());
        proof {
            if i == 0 {
                assert(out@ =~= parts@[0]@);
            }
        }
        i += 1;
    }
    proof {
        assert(all.subrange(0, i as int) =~= all);
    }
    out
}

/// The line that is printed for a finding as it comes in.
pub fn finding_line(dep: &MissingDep) -> (r: Vec<u8>)
    ensures
        r@ == finding_line_of(*dep),
{
    let mut out = join(&dep.providers, " ".as_bytes());
    append(&mut out, " ".as_bytes());
    append(&mut out, dep.soname.as_slice());
    append(&mut out, " ".as_bytes());
    append(&mut out, dep.package.as_slice());
    append(&mut out, " ".as_bytes());
    append(&mut out, dep.exec_filepath.as_slice());
    out
}

/// Adds a span to a line.
pub fn push_span(line: &mut Vec<Span>, style: Style, text: &[u8])
    ensures
        span_views(final(line)@) == span_views(old(line)@).push((style, text@)),
{
    line.push(Span { style, text: copy_bytes(text) });
    proof {
        assert(span_views(line@) =~= span_views(old(line)@).push((style, text@)));
    }
}

/// The line for the missing library `soname` with the packages that need it.
pub fn lib_line(soname: &[u8], users: &Users) -> (r: Vec<Span>)
    ensures
        span_views(r@) == lib_line_of(soname@, users.listed()),
{
    let n = users.len();
    let mut line: Vec<Span> = Vec::new();
    if n > 1 {
        push_span(&mut line, Style::Plain, "packages need rebuild because of missing ".as_bytes());
    } else {
        push_span(&mut line, Style::Plain, "package need rebuild because of missing ".as_bytes());
    }
    push_span(&mut line, Style::Library, soname);
    push_span(&mut line, Style::Plain, ":".as_bytes());
    let ghost head = span_views(line@);
    proof {
        assert(head =~= seq![
            (
                Style::Plain,
                if users.listed().len() > 1 {
                    "packages need rebuild because of missing ".spec_bytes()
                } else {
                    "package need rebuild because of missing ".spec_bytes()
                },
            ),
            (Style::Library, soname@),
            (Style::Plain, ":".spec_bytes()),
        ]);
    }
    let mut i: usize = 0;
    while i < n
        invariant
            i <= n,
            n == users.listed().len(),
            span_views(line@) == with_users(head, users.listed(), i as int),
        decreases n - i,
    {
        push_span(&mut line, Style::Plain, " ".as_bytes());
        push_span(&mut line, Style::Package, users.package(i).as_slice());
        i += 1;
    }
    line
}

/// The line for the broken `package` with its misses and their providers.
pub fn pac_line(package: &[u8], misses: &NameSet, sources: &PacSourceMap) -> (r: Vec<Span>)
    requires
        sources.wf(),
    ensures
        span_views(r@) == pac_line_of(package@, misses.listed(), sources@),
{
    let n = misses.len();
    let mut line: Vec<Span> = Vec::new();
    push_span(&mut line, Style::Plain, "package ".as_bytes());
    push_span(&mut line, Style::Package, package);
    push_span(&mut line, Style::Plain, " misses ".as_bytes());
    let ghost head = span_views(line@);
    proof {
        assert(head =~= seq![
            (Style::Plain, "package ".spec_bytes()),
            (Style::Package, package@),
            (Style::Plain, " misses ".spec_bytes()),
        ]);
    }
    let mut i: usize = 0;
    while i < n
        invariant
            i <= n,
            n == misses.listed().len(),
            sources.wf(),
            span_views(line@) == with_misses(head, misses.listed(), sources@, i as int),
        decreases n - i,
    {
        let soname = misses.get(i);
        push_span(&mut line, Style::Library, soname.as_slice());
        match sources.get(soname.as_slice()) {
            Some(provider) => {
                push_span(&mut line, Style::Plain, " from ".as_bytes());
                push_span(&mut line, Style::Provider, provider.as_slice());
            },
            None => {},
        }
        if i + 1 < n {
            push_span(&mut line, Style::Plain, ";".as_bytes());
        }
        i += 1;
    }
    line
}

/// The line for the transitively broken packages; none where there are none.
pub fn transitive_line(names: &NameSet) -> (r: Option<Vec<Span>>)
    ensures
        match r {
            Some(line) => transitive_line_of(names.listed()) == Some(span_views(line@)),
            None => transitive_line_of(names.listed()).is_none(),
        },
{
    let n = names.len();
    if n == 0 {
        return None;
    }
    let mut line: Vec<Span> = Vec::new();
    proof {
        assert(span_views(line@) =~= Seq::<(Style, Seq<u8>)>::empty());
    }
    let mut i: usize = 0;
    while i < n
        invariant
            i <= n,
            n == names.listed().len(),
            span_views(line@) == with_names(Seq::empty(), names.listed(), i as int),
        decreases n - i,
    {
        if i == 0 {
            push_span(&mut line, Style::Plain, "transitively broken packages: ".as_bytes());
        } else {
            push_span(&mut line, Style::Plain, ", ".as_bytes());
        }
        push_span(&mut line, Style::Library, names.get(i).as_slice());
        i += 1;
    }
    Some(line)
}

/// The whole report of an aggregation and its transitive set.
pub fn report(agg: &Aggregation, transitive: &NameSet) -> (r: Vec<Vec<Span>>)
    requires
        agg.wf(),
    ensures
        line_views(r@) == report_of(*agg, transitive.listed()),
{
    let mut lines: Vec<Vec<Span>> = Vec::new();
    let n = agg.lib_map.len();
    let mut i: usize = 0;
    proof {
        assert(line_views(lines@) =~= lib_lines_of(*agg, 0));
    }
    while i < n
        invariant
            i <= n,
            n == agg.lib_map.listed().len(),
            n == agg.lib_map.tables().len(),
            line_views(lines@) == lib_lines_of(*agg, i as int),
        decreases n - i,
    {
        let line = lib_line(agg.lib_map.soname(i).as_slice(), agg.lib_map.users(i));
        let ghost old_lines = lines@;
        let ghost added = span_views(line@);
        lines.push(line);
        proof {
            let a = line_views(lines@);
            let b = lib_lines_of(*agg, i + 1);
            assert(line_views(old_lines).len() == i);
            assert forall|k: int| 0 <= k < a.len() implies a[k] == b[k] by {
                if k < i {
                    assert(a[k] == line_views(old_lines)[k]);
                    assert(lib_lines_of(*agg, i as int)[k] == b[k]);
                } else {
                    assert(a[k] == added);
                }
            }
            assert(a =~= b);
        }
        i += 1;
    }
    let ghost head = line_views(lines@);
    let m = agg.pac_map.len();
    let mut j: usize = 0;
    proof {
        assert(line_views(lines@) =~= head + pac_lines_of(*agg, 0));
    }
    while j < m
        invariant
            j <= m,
            m == agg.pac_map.listed().len(),
            m == agg.pac_map.sets().len(),
            agg.wf(),
            line_views(lines@) == head + pac_lines_of(*agg, j as int),
        decreases m - j,
    {
        let line = pac_line(
            agg.pac_map.package(j).as_slice(),
            agg.pac_map.misses_at(j),
            &agg.pac_source_map,
        );
        let ghost old_lines = lines@;
        let ghost added = span_views(line@);
        lines.push(line);
        proof {
            let a = line_views(lines@);
            let b = head + pac_lines_of(*agg, j + 1);
            let before = head + pac_lines_of(*agg, j as int);
            assert(line_views(old_lines).len() == head.len() + j);
            assert forall|k: int| 0 <= k < a.len() implies a[k] == b[k] by {
                if k < head.len() + j {
                    assert(a[k] == line_views(old_lines)[k]);
                    assert(before[k] == b[k]);
                } else {
                    assert(a[k] == added);
                    assert(b[k] == pac_lines_of(*agg, j + 1)[j as int]);
                }
            }
            assert(a =~= b);
        }
        j += 1;
    }
    match transitive_line(transitive) {
        Some(line) => {
            let ghost body = line_views(lines@);
            lines.push(line);
            proof {
                assert(line_views(lines@) =~= body.push(span_views(line@)));
            }
        },
        None => {},
    }
    lines
}

/// The text of a line without the roles of its parts.
pub fn plain_text(line: &Vec<Span>) -> (r: Vec<u8>)
    ensures
        r@ == text_of(span_views(line@)),
{
    let mut out: Vec<u8> = Vec::new();
    let ghost all = span_views(line@);
    let mut i: usize = 0;
    proof {
        assert(all.subrange(0, 0) =~= Seq::<(Style, Seq<u8>)>::empty());
    }
    while i < line.len()
        invariant
            i <= line@.len(),
            all == span_views(line@),
            out@ == text_of(all.subrange(0, i as int)),
        decreases line@.len() - i,
    {
        proof {
            assert(all.subrange(0, i + 1).drop_last() =~= all.subrange(0, i as int));
            assert(all.subrange(0, i + 1).last().1 == line@[i as int].text@);
        }
        let text = &line[i].text;
        let ghost before = out@;
        let mut k: usize = 0;
        while k < text.len()
            invariant
                k <= text@.len(),
                out@ == before + text@.subrange(0, k as int),
            decreases text@.len() - k,
        {
            out.push(text[k]);
            proof {
                assert(out@ =~= before + text@.subrange(0, k + 1));
            }
            k += 1;
        }
        proof {
            assert(text@.subrange(0, k as int) =~= text@);
        }
        i += 1;
    }
    proof {
        assert(all.subrange(0, i as int) =~= all);
    }
    out
}

} // verus!
