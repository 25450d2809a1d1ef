use check_broken_packages::links::{
    broken_service_links, is_valid_link, FileKind, LinkEvent, LinkVerdict, ServiceLink,
};
use check_broken_packages::python::{
    get_broken_python_packages, get_python_version, has_finding, parse_u8, parse_version, render_u8,
    PythonFinding, PythonPackageVersion, VersionError,
};
use check_broken_packages::tools::parse_owners;

fn b(s: &str) -> Vec<u8> {
    s.as_bytes().to_vec()
}

fn bs(items: &[&str]) -> Vec<Vec<u8>> {
    items.iter().map(|s| b(s)).collect()
}

fn pairs(found: &Vec<PythonFinding>) -> Vec<(Vec<u8>, Vec<u8>)> {
    found.iter().map(|f| (f.package.clone(), f.dir.clone())).collect()
}

#[test]
fn version_is_read_from_the_version_line() {
    let info = "Name            : python\nVersion         : 3.12.1-1\nDescription     : The Python programming language\n";
    assert_eq!(
        get_python_version(true, info.as_bytes()),
        Ok(PythonPackageVersion { major: 3, minor: 12, release: 1, package: 1 })
    );
    assert_eq!(
        get_python_version(true, b"Version:3.11.8-2:x\nVersion : 9.9.9-9\n"),
        Ok(PythonPackageVersion { major: 3, minor: 11, release: 8, package: 2 })
    );
}

#[test]
fn version_errors() {
    assert_eq!(get_python_version(false, b"Version : 3.12.1-1\n"), Err(VersionError::QueryFailed));
    assert_eq!(get_python_version(true, b"Name : python\n"), Err(VersionError::NoVersionLine));
    assert_eq!(get_python_version(true, b""), Err(VersionError::NoVersionLine));
    assert_eq!(get_python_version(true, b"Version 3.12.1-1\n"), Err(VersionError::NoVersionValue));
    assert_eq!(get_python_version(true, b"Version : x.12.1-1\n"), Err(VersionError::BadMajor));
    assert_eq!(get_python_version(true, b"Version : \n"), Err(VersionError::BadMajor));
    assert_eq!(get_python_version(true, b"Version : 3\n"), Err(VersionError::BadMinor));
    assert_eq!(get_python_version(true, b"Version : 3.x.1-1\n"), Err(VersionError::BadMinor));
    assert_eq!(get_python_version(true, b"Version : 3.12\n"), Err(VersionError::NoRelease));
    assert_eq!(get_python_version(true, b"Version : 3.12.rc-1\n"), Err(VersionError::BadRelease));
    assert_eq!(get_python_version(true, b"Version : 3.12.1\n"), Err(VersionError::BadPackage));
    assert_eq!(get_python_version(true, b"Version : 3.12.1-a\n"), Err(VersionError::BadPackage));
    assert_eq!(get_python_version(true, b"Version : 3.12.1-256\n"), Err(VersionError::BadPackage));
    assert_eq!(parse_version(b"300.1.1-1"), Err(VersionError::BadMajor));
}

#[test]
fn numbers_below_256() {
    assert_eq!(parse_u8(b"0"), Some(0));
    assert_eq!(parse_u8(b"255"), Some(255));
    assert_eq!(parse_u8(b"+7"), Some(7));
    assert_eq!(parse_u8(b"007"), Some(7));
    assert_eq!(parse_u8(b"0000000000000000000000012"), Some(12));
    assert_eq!(parse_u8(b"256"), None);
    assert_eq!(parse_u8(b"99999999999999999999"), None);
    assert_eq!(parse_u8(b""), None);
    assert_eq!(parse_u8(b"+"), None);
    assert_eq!(parse_u8(b"-1"), None);
    assert_eq!(parse_u8(b"1 "), None);
    assert_eq!(parse_u8(b"++1"), None);
    assert_eq!(render_u8(0), b("0"));
    assert_eq!(render_u8(9), b("9"));
    assert_eq!(render_u8(10), b("10"));
    assert_eq!(render_u8(99), b("99"));
    assert_eq!(render_u8(100), b("100"));
    assert_eq!(render_u8(255), b("255"));
}

#[test]
fn version_texts() {
    let v = PythonPackageVersion { major: 3, minor: 12, release: 1, package: 1 };
    assert_eq!(v.to_text(), b("3.12.1-1"));
    assert_eq!(v.python_dir(), b("/usr/lib/python3.12"));
    assert_eq!(v.python_glob(), b("/usr/lib/python3*"));
    assert!(v.ignores_dir(b"/usr/lib/python3.11"));
    assert!(!v.ignores_dir(b"/usr/lib/python3.12"));
    assert!(v.ignores_dir(b"/usr/lib/python3"));
}

#[test]
fn stale_interpreter_directory_is_reported_once_per_package() {
    let v = get_python_version(true, b"Version : 3.12.1-1\n").unwrap();
    let dir = b("/usr/lib/python3.11");
    assert!(v.ignores_dir(&dir));
    let owners = parse_owners(b"aur/demo\naur/demo\naur/demo\n").unwrap();
    let mut found: Vec<PythonFinding> = Vec::new();
    get_broken_python_packages(&mut found, &dir, &owners);
    assert_eq!(pairs(&found), vec![(b("demo"), b("/usr/lib/python3.11"))]);
    get_broken_python_packages(&mut found, &dir, &bs(&["demo", "other"]));
    get_broken_python_packages(&mut found, b"/usr/lib/python3.10", &bs(&["demo"]));
    assert_eq!(
        pairs(&found),
        vec![
            (b("demo"), b("/usr/lib/python3.11")),
            (b("other"), b("/usr/lib/python3.11")),
            (b("demo"), b("/usr/lib/python3.10")),
        ]
    );
    assert!(has_finding(&found, b"other", b"/usr/lib/python3.11"));
    assert!(!has_finding(&found, b"other", b"/usr/lib/python3.10"));
}

#[test]
fn link_to_nothing_is_broken() {
    assert!(matches!(is_valid_link(LinkEvent::NoTarget), LinkVerdict::Broken));
    assert!(matches!(is_valid_link(LinkEvent::Target(FileKind::File)), LinkVerdict::Valid));
    assert!(matches!(is_valid_link(LinkEvent::Target(FileKind::Symlink)), LinkVerdict::Follow));
    assert!(matches!(is_valid_link(LinkEvent::Target(FileKind::Other)), LinkVerdict::Failed));
    assert!(matches!(is_valid_link(LinkEvent::Unreadable), LinkVerdict::Failed));
}

#[test]
fn only_broken_links_are_reported() {
    let links = vec![
        ServiceLink {
            path: b("/etc/systemd/system/multi-user.target.wants/foo.service"),
            verdict: is_valid_link(LinkEvent::NoTarget),
        },
        ServiceLink {
            path: b("/etc/systemd/system/multi-user.target.wants/bar.service"),
            verdict: is_valid_link(LinkEvent::Target(FileKind::File)),
        },
        ServiceLink {
            path: b("/etc/systemd/system/multi-user.target.wants/odd.service"),
            verdict: is_valid_link(LinkEvent::Unreadable),
        },
        ServiceLink {
            path: b("/etc/systemd/user/default.target.wants/gone.service"),
            verdict: LinkVerdict::Broken,
        },
    ];
    assert_eq!(
        broken_service_links(&links),
        bs(&[
            "/etc/systemd/system/multi-user.target.wants/foo.service",
            "/etc/systemd/user/default.target.wants/gone.service",
        ])
    );
    assert!(broken_service_links(&Vec::new()).is_empty());
}
