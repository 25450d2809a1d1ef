use check_broken_packages::text::{count_byte, cut_after, ends_with, split_bytes, split_lines, starts_with, token, trim_start};
use check_broken_packages::tools::{
    get_aur_packages, get_missing_dependencies, is_direct_dep, lookup_key, parse_file_listing,
    parse_owners, providers_or_unknown,
};

fn b(s: &str) -> Vec<u8> {
    s.as_bytes().to_vec()
}

fn bs(items: &[&str]) -> Vec<Vec<u8>> {
    items.iter().map(|s| b(s)).collect()
}

#[test]
fn test_get_missing_dependencies() {
    let ldd_output = "	linux-vdso.so.1 (0x00007ffea89a7000)
	libavdevice.so.57 => not found
	libavfilter.so.6 => not found
	libavformat.so.57 => not found
	libavcodec.so.57 => not found
	libavresample.so.3 => not found
	libpostproc.so.54 => not found
	libswresample.so.2 => not found
	libswscale.so.4 => not found
	libavutil.so.55 => not found
	libm.so.6 => /usr/lib/libm.so.6 (0x00007f4bd9cc3000)
	libpthread.so.0 => /usr/lib/libpthread.so.0 (0x00007f4bd9ca2000)
	libc.so.6 => /usr/lib/libc.so.6 (0x00007f4bd9add000)
	/lib64/ld-linux-x86-64.so.2 => /usr/lib64/ld-linux-x86-64.so.2 (0x00007f4bda08d000)
";
    let missing_deps = get_missing_dependencies(true, ldd_output.as_bytes());
    assert_eq!(
        missing_deps,
        bs(&[
            "libavdevice.so.57",
            "libavfilter.so.6",
            "libavformat.so.57",
            "libavcodec.so.57",
            "libavresample.so.3",
            "libpostproc.so.54",
            "libswresample.so.2",
            "libswscale.so.4",
            "libavutil.so.55"
        ])
    );
}

#[test]
fn missing_dependencies_of_failed_tool_are_none() {
    let out = "\tlibfoo.so.1 => not found\n";
    assert!(get_missing_dependencies(false, out.as_bytes()).is_empty());
    assert_eq!(get_missing_dependencies(true, out.as_bytes()), bs(&["libfoo.so.1"]));
}

#[test]
fn missing_dependencies_skip_leading_whitespace() {
    let out = "  \t libbar.so.2 => not found\nlibbaz.so => not found\r\nlibqux.so.1 => not found (0x1)\n";
    assert_eq!(
        get_missing_dependencies(true, out.as_bytes()),
        bs(&["libbar.so.2", "libbaz.so"])
    );
    assert!(get_missing_dependencies(true, b"").is_empty());
}

#[test]
fn lines_follow_line_feeds() {
    assert_eq!(split_lines(b""), Vec::<Vec<u8>>::new());
    assert_eq!(split_lines(b"\n"), bs(&[""]));
    assert_eq!(split_lines(b"a\nb"), bs(&["a", "b"]));
    assert_eq!(split_lines(b"a\nb\n"), bs(&["a", "b"]));
    assert_eq!(split_lines(b"a\r\n\nb\r"), bs(&["a", "", "b\r"]));
}

#[test]
fn split_keeps_empty_pieces() {
    assert_eq!(split_bytes(b"", b'/'), bs(&[""]));
    assert_eq!(split_bytes(b"/a//b/", b'/'), bs(&["", "a", "", "b", ""]));
    assert_eq!(split_bytes(b"abc", b'/'), bs(&["abc"]));
}

#[test]
fn text_helpers() {
    assert!(starts_with(b"/opt/x", b"/opt/"));
    assert!(!starts_with(b"/op", b"/opt/"));
    assert!(starts_with(b"abc", b""));
    assert!(ends_with(b"libx.so", b".so"));
    assert!(!ends_with(b"so", b".so"));
    assert_eq!(count_byte(b"/usr/lib/libdemo.so", b'/'), 3);
    assert_eq!(count_byte(b"", b'/'), 0);
    assert_eq!(token(b"\t libx.so.1 => not found"), b("libx.so.1"));
    assert_eq!(token(b"   "), b(""));
    assert_eq!(trim_start(b" \t 3.12.1-1"), b("3.12.1-1"));
    assert_eq!(cut_after(b"libfoo.so.3.so", b".so"), b("libfoo.so"));
    assert_eq!(cut_after(b"libfoo", b".so"), b("libfoo"));
    assert_eq!(cut_after(b"so", b".so"), b("so"));
}

#[test]
fn lookup_key_drops_version_suffix() {
    assert_eq!(lookup_key(b"libfoo.so.3"), b("libfoo.so"));
    assert_eq!(lookup_key(b"libavcodec.so.57"), b("libavcodec.so"));
    assert_eq!(lookup_key(b"/usr/lib/libbar.so.1.2"), b("libbar.so"));
    assert_eq!(lookup_key(b"libplain"), b("libplain"));
    assert_eq!(lookup_key(b"dir/"), b(""));
    assert_eq!(lookup_key(b""), b(""));
}

#[test]
fn owners_are_read_after_the_first_slash() {
    assert_eq!(parse_owners(b"extra/ffmpeg\n"), Some(bs(&["ffmpeg"])));
    assert_eq!(
        parse_owners(b"extra/ffmpeg\ncore/glibc\n"),
        Some(bs(&["ffmpeg", "glibc"]))
    );
    assert_eq!(parse_owners(b"a/b/c\n"), Some(bs(&["b/c"])));
    assert_eq!(parse_owners(b""), Some(Vec::new()));
    assert_eq!(parse_owners(b"extra/ffmpeg\nnoslash\n"), None);
}

#[test]
fn unknown_provider_stands_for_no_owner() {
    assert_eq!(providers_or_unknown(Some(Vec::new())), bs(&["?"]));
    assert_eq!(providers_or_unknown(None), bs(&["?"]));
    assert_eq!(
        providers_or_unknown(Some(bs(&["ffmpeg", "ffmpeg4"]))),
        bs(&["ffmpeg", "ffmpeg4"])
    );
    assert_eq!(providers_or_unknown(parse_owners(b"")), bs(&["?"]));
}

#[test]
fn file_listing_gives_second_field() {
    let out = "demo /usr/\ndemo /usr/bin/demo\nnopath\ndemo /usr/lib/libdemo.so extra\ndemo  x\n";
    assert_eq!(
        parse_file_listing(out.as_bytes()),
        bs(&["/usr/", "/usr/bin/demo", "/usr/lib/libdemo.so", ""])
    );
}

#[test]
fn foreign_packages_one_per_line() {
    assert_eq!(get_aur_packages(b"demo\nother-git\n"), bs(&["demo", "other-git"]));
    assert!(get_aur_packages(b"").is_empty());
}

#[test]
fn directness_defaults_to_direct() {
    assert!(is_direct_dep(None, b"libavcodec.so.57"));
    assert!(is_direct_dep(None, b""));
}

#[test]
fn directness_needs_a_whole_line() {
    let needed = b("libavcodec.so.57\nlibc.so.6\n");
    assert!(is_direct_dep(Some(needed.clone()), b"libavcodec.so.57"));
    assert!(is_direct_dep(Some(needed.clone()), b"libc.so.6"));
    assert!(!is_direct_dep(Some(needed.clone()), b"libavcodec.so"));
    assert!(!is_direct_dep(Some(needed), b"libm.so.6"));
    assert!(!is_direct_dep(Some(Vec::new()), b"libm.so.6"));
}
