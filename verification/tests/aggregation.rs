use check_broken_packages::aggregate::{aggregate, Aggregation, Classified};
use check_broken_packages::report::{
    finding_line, is_verbose_flag, join, lib_line, pac_line, plain_text, report, transitive_line,
    Span, Style,
};
use check_broken_packages::stages::MissingDep;
use check_broken_packages::table::NameSet;

fn b(s: &str) -> Vec<u8> {
    s.as_bytes().to_vec()
}

fn bs(items: &[&str]) -> Vec<Vec<u8>> {
    items.iter().map(|s| b(s)).collect()
}

fn dep(package: &str, file: &str, soname: &str, providers: &[&str]) -> MissingDep {
    MissingDep {
        package: b(package),
        exec_filepath: b(file),
        soname: b(soname),
        providers: bs(providers),
    }
}

fn classify(deps: Vec<MissingDep>, direct: &[bool]) -> Vec<Classified> {
    assert_eq!(deps.len(), direct.len());
    deps.into_iter().zip(direct.iter()).map(|(dep, d)| Classified { dep, direct: *d }).collect()
}

fn names(set: &NameSet) -> Vec<Vec<u8>> {
    (0..set.len()).map(|i| set.get(i).clone()).collect()
}

fn texts(lines: &Vec<Vec<Span>>) -> Vec<String> {
    lines.iter().map(|l| String::from_utf8(plain_text(l)).unwrap()).collect()
}

#[test]
fn direct_miss_is_reported_by_library_and_by_package() {
    let mut agg = Aggregation::new();
    agg.record(&dep("demo", "/usr/bin/demo", "libavcodec.so.57", &["ffmpeg"]), true);
    assert_eq!(agg.lib_map.len(), 1);
    assert_eq!(agg.lib_map.files_of(b"libavcodec.so.57", b"demo"), bs(&["/usr/bin/demo"]));
    assert_eq!(agg.lib_map.users(0).len(), 1);
    assert_eq!(agg.pac_map.len(), 1);
    assert!(agg.pac_map.contains_key(b"demo"));
    assert!(agg.pac_map.misses(b"demo", b"libavcodec.so.57"));
    assert_eq!(names(agg.pac_map.misses_at(0)), bs(&["libavcodec.so.57"]));
    assert_eq!(agg.pac_source_map.get(b"libavcodec.so.57"), Some(&b("ffmpeg")));
    assert_eq!(agg.transitive().len(), 0);
}

#[test]
fn transitive_miss_is_reported_by_package_only() {
    let mut agg = Aggregation::new();
    agg.record(&dep("demo", "/usr/bin/demo", "libavcodec.so.57", &["ffmpeg"]), false);
    assert_eq!(agg.lib_map.len(), 0);
    assert!(agg.lib_map.files_of(b"libavcodec.so.57", b"demo").is_empty());
    assert!(!agg.pac_map.contains_key(b"demo"));
    assert!(!agg.pac_map.misses(b"demo", b"libavcodec.so.57"));
    assert_eq!(names(&agg.transitive()), bs(&["demo"]));
    assert_eq!(agg.pac_source_map.get(b"libavcodec.so.57"), Some(&b("ffmpeg")));
}

#[test]
fn transitive_miss_beside_a_direct_one() {
    let mut agg = Aggregation::new();
    agg.record(&dep("demo", "/usr/bin/demo", "libavcodec.so.57", &["ffmpeg"]), false);
    agg.record(&dep("demo", "/usr/bin/demo", "libx264.so.1", &["x264"]), true);
    agg.record(&dep("other", "/usr/bin/other", "libavcodec.so.57", &["ffmpeg"]), false);
    assert!(agg.pac_map.contains_key(b"demo"));
    assert!(agg.pac_map.misses(b"demo", b"libx264.so.1"));
    assert!(!agg.pac_map.misses(b"demo", b"libavcodec.so.57"));
    let transitive = agg.transitive();
    assert_eq!(names(&transitive), bs(&["other"]));
    assert!(agg.candidates.contains(b"demo"));
    assert!(!transitive.contains(b"demo"));
}

#[test]
fn package_view_and_transitive_set_are_disjoint() {
    let deps = vec![
        dep("a", "/usr/bin/a", "lib1.so.1", &["p1"]),
        dep("b", "/usr/bin/b", "lib1.so.1", &["p1"]),
        dep("a", "/usr/bin/a2", "lib2.so.1", &["?"]),
        dep("c", "/usr/bin/c", "lib3.so.1", &[]),
        dep("b", "/usr/bin/b", "lib3.so.1", &[]),
    ];
    let deps = classify(deps, &[true, false, false, false, true]);
    let agg = aggregate(&deps);
    let transitive = agg.transitive();
    for p in ["a", "b", "c"] {
        assert_ne!(agg.pac_map.contains_key(p.as_bytes()), transitive.contains(p.as_bytes()));
    }
    assert_eq!(names(&transitive), bs(&["c"]));
    for c in deps.iter() {
        if c.direct {
            assert!(agg.pac_map.misses(&c.dep.package, &c.dep.soname));
            assert!(!transitive.contains(&c.dep.package));
        } else {
            assert!(agg.candidates.contains(&c.dep.package));
        }
    }
}

#[test]
fn artifacts_are_gathered_with_duplicates() {
    let mut agg = Aggregation::new();
    agg.record(&dep("demo", "/usr/bin/demo", "libz.so.1", &["zlib"]), true);
    agg.record(&dep("demo", "/usr/bin/demo2", "libz.so.1", &["zlib"]), true);
    agg.record(&dep("demo", "/usr/bin/demo", "libz.so.1", &["zlib"]), true);
    agg.record(&dep("tool", "/usr/bin/tool", "libz.so.1", &["zlib"]), true);
    assert_eq!(
        agg.lib_map.files_of(b"libz.so.1", b"demo"),
        bs(&["/usr/bin/demo", "/usr/bin/demo2", "/usr/bin/demo"])
    );
    assert_eq!(agg.lib_map.files_of(b"libz.so.1", b"tool"), bs(&["/usr/bin/tool"]));
    assert!(agg.lib_map.files_of(b"libz.so.1", b"none").is_empty());
    assert_eq!(agg.lib_map.len(), 1);
    assert_eq!(agg.lib_map.users(0).len(), 2);
    assert_eq!(names(agg.pac_map.misses_at(0)), bs(&["libz.so.1"]));
}

#[test]
fn later_provider_replaces_earlier() {
    let mut agg = Aggregation::new();
    agg.record(&dep("demo", "/usr/bin/demo", "libz.so.1", &["zlib", "zlib-ng"]), true);
    assert_eq!(agg.pac_source_map.get(b"libz.so.1"), Some(&b("zlib")));
    agg.record(&dep("tool", "/usr/bin/tool", "libz.so.1", &["zlib-ng"]), false);
    assert_eq!(agg.pac_source_map.get(b"libz.so.1"), Some(&b("zlib-ng")));
    agg.record(&dep("tool", "/usr/bin/tool", "libz.so.1", &[]), false);
    assert_eq!(agg.pac_source_map.get(b"libz.so.1"), Some(&b("zlib-ng")));
    assert_eq!(agg.pac_source_map.get(b"libother.so"), None);
}

#[test]
fn aggregate_equals_recording_in_turn() {
    let deps = vec![
        dep("demo", "/usr/bin/demo", "libavcodec.so.57", &["ffmpeg"]),
        dep("demo", "/usr/bin/demo", "libavutil.so.55", &["ffmpeg"]),
    ];
    let agg = aggregate(&classify(deps, &[true, true]));
    assert_eq!(names(agg.pac_map.misses_at(0)), bs(&["libavcodec.so.57", "libavutil.so.55"]));
    assert_eq!(agg.lib_map.len(), 2);
    assert_eq!(agg.lib_map.soname(0), &b("libavcodec.so.57"));
    assert_eq!(agg.lib_map.soname(1), &b("libavutil.so.55"));
    let none = aggregate(&Vec::new());
    assert_eq!(none.lib_map.len(), 0);
    assert_eq!(none.pac_map.len(), 0);
    assert_eq!(none.transitive().len(), 0);
}

#[test]
fn report_lines_have_the_documented_text() {
    let deps = vec![
        dep("demo", "/usr/bin/demo", "libavcodec.so.57", &["ffmpeg"]),
        dep("tool", "/usr/bin/tool", "libavcodec.so.57", &["ffmpeg"]),
        dep("demo", "/usr/bin/demo", "libmystery.so.1", &[]),
        dep("tool", "/usr/bin/tool", "libdeep.so.2", &["deep"]),
        dep("third", "/usr/bin/third", "libdeep.so.2", &["deep"]),
        dep("fourth", "/usr/bin/fourth", "libdeep.so.2", &["deep"]),
    ];
    let agg = aggregate(&classify(deps, &[true, true, true, false, false, false]));
    let transitive = agg.transitive();
    let lines = report(&agg, &transitive);
    assert_eq!(
        texts(&lines),
        vec![
            "packages need rebuild because of missing libavcodec.so.57: demo tool".to_string(),
            "package need rebuild because of missing libmystery.so.1: demo".to_string(),
            "package demo misses libavcodec.so.57 from ffmpeg;libmystery.so.1".to_string(),
            "package tool misses libavcodec.so.57 from ffmpeg".to_string(),
            "transitively broken packages: third, fourth".to_string(),
        ]
    );
    let first = &lines[0];
    assert_eq!(first[1].style, Style::Library);
    assert_eq!(first[1].text, b("libavcodec.so.57"));
    assert_eq!(first[4].style, Style::Package);
    assert_eq!(first[4].text, b("demo"));
    let third = &lines[2];
    assert_eq!(third[1].style, Style::Package);
    assert_eq!(third[5].style, Style::Provider);
    assert_eq!(third[5].text, b("ffmpeg"));
}

#[test]
fn report_has_no_transitive_line_without_members() {
    let agg = aggregate(&classify(vec![dep("demo", "/usr/bin/demo", "libz.so.1", &["?"])], &[true]));
    let transitive = agg.transitive();
    assert!(transitive_line(&transitive).is_none());
    let lines = report(&agg, &transitive);
    assert_eq!(
        texts(&lines),
        vec![
            "package need rebuild because of missing libz.so.1: demo".to_string(),
            "package demo misses libz.so.1 from ?".to_string(),
        ]
    );
    assert_eq!(
        String::from_utf8(plain_text(&lib_line(b"libz.so.1", agg.lib_map.users(0)))).unwrap(),
        "package need rebuild because of missing libz.so.1: demo"
    );
    assert_eq!(
        String::from_utf8(plain_text(&pac_line(b"demo", agg.pac_map.misses_at(0), &agg.pac_source_map)))
            .unwrap(),
        "package demo misses libz.so.1 from ?"
    );
    assert!(report(&Aggregation::new(), &NameSet::new()).is_empty());
}

#[test]
fn name_set_holds_each_name_once() {
    let mut set = NameSet::new();
    assert_eq!(set.len(), 0);
    assert!(!set.contains(b"a"));
    set.insert(b"a");
    set.insert(b"b");
    set.insert(b"a");
    assert_eq!(names(&set), bs(&["a", "b"]));
    assert!(set.contains(b"a"));
    assert!(!set.contains(b"c"));
}

#[test]
fn finding_line_lists_providers_soname_package_and_file() {
    assert_eq!(
        finding_line(&dep("demo", "/usr/bin/demo", "libz.so.1", &["zlib", "zlib-ng"])),
        b("zlib zlib-ng libz.so.1 demo /usr/bin/demo")
    );
    assert_eq!(
        finding_line(&dep("demo", "/usr/bin/demo", "libz.so.1", &["?"])),
        b("? libz.so.1 demo /usr/bin/demo")
    );
    assert_eq!(
        finding_line(&dep("demo", "/usr/bin/demo", "libz.so.1", &[])),
        b(" libz.so.1 demo /usr/bin/demo")
    );
    assert_eq!(join(&bs(&["a", "", "b"]), b", "), b("a, , b"));
    assert!(is_verbose_flag(b"-v"));
    assert!(is_verbose_flag(b"-vv"));
    assert!(is_verbose_flag(b"--verbose"));
    assert!(is_verbose_flag(b"--v"));
    assert!(!is_verbose_flag(b"--quiet"));
    assert!(!is_verbose_flag(b"v"));
    assert!(!is_verbose_flag(b""));
}

#[test]
fn all_direct_findings_leave_no_transitive_package() {
    let deps = classify(
        vec![
            dep("a", "/usr/bin/a", "lib1.so.1", &["?"]),
            dep("b", "/usr/bin/b", "lib2.so.1", &["?"]),
            dep("a", "/usr/bin/a", "lib2.so.1", &["?"]),
        ],
        &[true, true, true],
    );
    let agg = aggregate(&deps);
    assert_eq!(agg.candidates.len(), 0);
    assert_eq!(agg.transitive().len(), 0);
    assert!(agg.pac_map.misses(b"a", b"lib1.so.1"));
    assert!(agg.pac_map.misses(b"a", b"lib2.so.1"));
    assert!(agg.pac_map.misses(b"b", b"lib2.so.1"));
    assert!(!agg.pac_map.misses(b"b", b"lib1.so.1"));
}
