use check_broken_packages::pool::{pool_sizes, pool_sizes_for};
use check_broken_packages::stages::{
    drop_blacklisted, get_package_linked_files, is_artifact, is_blacklisted, missing_dep,
    plan_package, progress_after, resolve_one_hop, Candidate, ExecFileWork, FileStat,
};
use check_broken_packages::tools::{
    get_missing_dependencies, lookup_key, parse_owners,
};

fn b(s: &str) -> Vec<u8> {
    s.as_bytes().to_vec()
}

fn bs(items: &[&str]) -> Vec<Vec<u8>> {
    items.iter().map(|s| b(s)).collect()
}

fn file(mode: u32) -> Option<FileStat> {
    Some(FileStat { is_file: true, mode })
}

#[test]
fn executable_files_are_artifacts() {
    assert!(is_artifact(b"/usr/bin/demo", file(0o755)));
    assert!(is_artifact(b"/usr/bin/demo", file(0o100)));
    assert!(is_artifact(b"/usr/bin/demo", file(0o010)));
    assert!(is_artifact(b"/usr/bin/demo", file(0o001)));
    assert!(!is_artifact(b"/usr/bin/demo", file(0o644)));
}

#[test]
fn top_level_shared_object_is_artifact() {
    assert!(is_artifact(b"/usr/lib/libdemo.so", file(0o644)));
    assert!(!is_artifact(b"/usr/lib/libdemo.so.1", file(0o644)));
    assert!(!is_artifact(b"/usr/lib/demo/libdemo.so", file(0o644)));
    assert!(!is_artifact(b"/lib/libdemo.so", file(0o644)));
}

#[test]
fn only_regular_existing_files_are_artifacts() {
    assert!(!is_artifact(b"/usr/bin/demo", None));
    assert!(!is_artifact(b"/usr/bin", Some(FileStat { is_file: false, mode: 0o755 })));
    assert!(!is_artifact(b"/usr/lib/libdemo.so", Some(FileStat { is_file: false, mode: 0o644 })));
}

#[test]
fn symlinks_are_resolved_one_hop() {
    assert_eq!(resolve_one_hop(b("/usr/lib/libx.so"), Some(b("libx.so.1"))), b("libx.so.1"));
    assert_eq!(resolve_one_hop(b("/usr/bin/demo"), None), b("/usr/bin/demo"));
}

#[test]
fn artifact_filter_keeps_order() {
    let candidates = vec![
        Candidate { path: b("/usr/"), stat: Some(FileStat { is_file: false, mode: 0o755 }) },
        Candidate { path: b("/usr/bin/demo"), stat: file(0o755) },
        Candidate { path: b("/usr/share/doc/demo/README"), stat: file(0o644) },
        Candidate { path: b("/usr/lib/libdemo.so"), stat: file(0o644) },
        Candidate { path: b("/usr/bin/gone"), stat: None },
        Candidate { path: b("/opt/demo/bin/demo"), stat: file(0o755) },
    ];
    assert_eq!(
        get_package_linked_files(&candidates),
        bs(&["/usr/bin/demo", "/usr/lib/libdemo.so", "/opt/demo/bin/demo"])
    );
    assert!(get_package_linked_files(&Vec::new()).is_empty());
}

#[test]
fn blacklist_is_by_prefix() {
    assert!(is_blacklisted(b"/opt/demo/bin/demo"));
    assert!(is_blacklisted(b"/usr/share/demo/run"));
    assert!(!is_blacklisted(b"/usr/bin/demo"));
    assert!(!is_blacklisted(b"/opt"));
    assert!(!is_blacklisted(b"/home/opt/demo"));
    assert_eq!(
        drop_blacklisted(&bs(&["/opt/a", "/usr/bin/b", "/usr/share/c", "/usr/lib/d.so"])),
        bs(&["/usr/bin/b", "/usr/lib/d.so"])
    );
}

#[test]
fn blacklisted_package_advances_progress_once() {
    let plan = plan_package(b"demo", Some(bs(&["/opt/demo/bin/demo"])));
    assert!(plan.work.is_empty());
    assert_eq!(plan.progress, 1);
}

#[test]
fn failed_or_empty_listing_advances_progress_once() {
    let failed = plan_package(b"demo", None);
    assert!(failed.work.is_empty());
    assert_eq!(failed.progress, 1);
    let empty = plan_package(b"demo", Some(Vec::new()));
    assert!(empty.work.is_empty());
    assert_eq!(empty.progress, 1);
}

#[test]
fn shared_object_is_submitted() {
    let candidates = vec![Candidate { path: b("/usr/lib/libdemo.so"), stat: file(0o644) }];
    let plan = plan_package(b"demo", Some(get_package_linked_files(&candidates)));
    assert_eq!(plan.progress, 0);
    assert_eq!(plan.work.len(), 1);
    assert_eq!(plan.work[0].package, b("demo"));
    assert_eq!(plan.work[0].exec_filepath, b("/usr/lib/libdemo.so"));
    assert!(plan.work[0].package_last);
}

#[test]
fn last_work_item_is_marked() {
    let plan = plan_package(
        b"demo",
        Some(bs(&["/usr/bin/a", "/opt/x", "/usr/bin/b", "/usr/bin/c", "/usr/share/y"])),
    );
    assert_eq!(plan.progress, 0);
    let paths: Vec<Vec<u8>> = plan.work.iter().map(|w| w.exec_filepath.clone()).collect();
    assert_eq!(paths, bs(&["/usr/bin/a", "/usr/bin/b", "/usr/bin/c"]));
    let flags: Vec<bool> = plan.work.iter().map(|w| w.package_last).collect();
    assert_eq!(flags, vec![false, false, true]);
    assert!(plan.work.iter().all(|w| w.package == b("demo")));
}

#[test]
fn progress_advances_once_per_package() {
    let listings = vec![
        None,
        Some(Vec::new()),
        Some(bs(&["/opt/only"])),
        Some(bs(&["/usr/bin/a"])),
        Some(bs(&["/usr/bin/a", "/usr/bin/b", "/usr/share/c"])),
    ];
    let packages = listings.len() as u64;
    let links: u64 = 4;
    let mut advanced: u64 = 0;
    for listing in listings {
        let plan = plan_package(b"demo", listing);
        let mut for_package = plan.progress;
        for work in plan.work.iter() {
            for_package += progress_after(work);
        }
        assert_eq!(for_package, 1);
        advanced += for_package;
    }
    advanced += links;
    assert_eq!(advanced, packages + links);
}

#[test]
fn missing_dep_carries_the_work_and_the_providers() {
    let work = ExecFileWork { package: b("demo"), exec_filepath: b("/usr/bin/demo"), package_last: true };
    let sonames = get_missing_dependencies(true, b"\tlibavcodec.so.57 => not found\n");
    assert_eq!(sonames.len(), 1);
    assert_eq!(lookup_key(&sonames[0]), b("libavcodec.so"));
    let dep = missing_dep(&work, &sonames[0], parse_owners(b"extra/ffmpeg\n"));
    assert_eq!(dep.package, b("demo"));
    assert_eq!(dep.exec_filepath, b("/usr/bin/demo"));
    assert_eq!(dep.soname, b("libavcodec.so.57"));
    assert_eq!(dep.providers, bs(&["ffmpeg"]));
    let unknown = missing_dep(&work, &sonames[0], parse_owners(b""));
    assert_eq!(unknown.providers, bs(&["?"]));
    let failed = missing_dep(&work, &sonames[0], None);
    assert_eq!(failed.providers, bs(&["?"]));
    assert_eq!(progress_after(&work), 1);
    let inner = ExecFileWork { package: b("demo"), exec_filepath: b("/usr/bin/x"), package_last: false };
    assert_eq!(progress_after(&inner), 0);
}

#[test]
fn pool_sizes_follow_cores_and_packages() {
    let a = pool_sizes_for(8, 3);
    assert_eq!((a.stage_a, a.stage_b), (3, 8));
    let c = pool_sizes_for(4, 100);
    assert_eq!((c.stage_a, c.stage_b), (4, 4));
    let none = pool_sizes_for(4, 0);
    assert_eq!((none.stage_a, none.stage_b), (0, 4));
    let here = pool_sizes(2);
    assert!(here.stage_b >= 1);
    assert_eq!(here.stage_a, std::cmp::min(here.stage_b, 2));
    assert_eq!(pool_sizes(0).stage_a, 0);
}
