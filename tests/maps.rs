use process_consistency::error::Error;
use process_consistency::maps::get_executable_regions;

const PATH: &str = "/proc/self/maps";

const SAMPLE: &str = "\
55d0c0a00000-55d0c0a02000 r--p 00000000 08:01 1311 /usr/bin/app
55d0c0a02000-55d0c0a08000 r-xp 00002000 08:01 1311 /usr/bin/app
55d0c0a08000-55d0c0a0a000 rw-p 00008000 08:01 1311 /usr/bin/app
7f1e2c000000-7f1e2c021000 rwxp 00000000 00:00 0 /memfd:jit (deleted)
7f1e2d200000-7f1e2d390000 r-xp 00028000 08:01 2222 /usr/lib/libc.so.6
7f1e2d600000-7f1e2d610000 r-xp 00001000 08:01 3333 /usr/lib/libm.so.6
7ffd5b3f0000-7ffd5b3f2000 r-xp 00000000 00:00 0                          [vdso]
";

const OWN_EXE: &[u8] = b"/usr/bin/app";

fn regions(skip_libs: bool, include_writable_code: bool) -> Vec<process_consistency::region::Region> {
    get_executable_regions(PATH, SAMPLE.as_bytes(), Some(OWN_EXE), skip_libs, include_writable_code)
        .unwrap()
}

#[test]
fn mod_test_all_combinations() {
    println!("{:#?}", regions(false, false));
    println!("----");
    println!("{:#?}", regions(true, false));
    assert!(regions(false, false).len() > 2);
    assert!(regions(false, true).len() > 2);
    assert!(regions(true, false).len() <= 2);
    assert!(regions(true, true).len() <= 2);
}

#[test]
fn sample_selects_readable_executable_lines() {
    let r = get_executable_regions(PATH, SAMPLE.as_bytes(), None, false, false).unwrap();
    assert_eq!(r.len(), 4);
    assert_eq!(r[0].start, 0x55d0c0a02000);
    assert_eq!(r[0].end, 0x55d0c0a08000);
    assert_eq!(r[0].source, "/usr/bin/app");
    assert_eq!(r[1].source, "/usr/lib/libc.so.6");
    assert_eq!(r[3].source, "[vdso]");
}

#[test]
fn sample_writable_code_adds_rwx_lines() {
    let without = get_executable_regions(PATH, SAMPLE.as_bytes(), None, false, false).unwrap();
    let with = get_executable_regions(PATH, SAMPLE.as_bytes(), None, false, true).unwrap();
    assert_eq!(with.len(), 5);
    assert!(with.len() >= without.len());
    assert_eq!(with[1].start, 0x7f1e2c000000);
    assert_eq!(with[1].source, "/memfd:jit");
}

#[test]
fn sample_skip_libs_keeps_own_executable() {
    let exe = b"/usr/bin/app".to_vec();
    let all = get_executable_regions(PATH, SAMPLE.as_bytes(), Some(&exe), false, false).unwrap();
    let own = get_executable_regions(PATH, SAMPLE.as_bytes(), Some(&exe), true, false).unwrap();
    assert_eq!(own.len(), 1);
    assert!(own.len() <= all.len());
    assert!(own.iter().all(|r| r.source == "/usr/bin/app"));
}

#[test]
fn skip_libs_without_known_path_keeps_everything() {
    let all = get_executable_regions(PATH, SAMPLE.as_bytes(), None, true, false).unwrap();
    assert_eq!(all.len(), 4);
}

#[test]
fn empty_table_has_no_regions() {
    let r = get_executable_regions(PATH, b"", None, false, false).unwrap();
    assert!(r.is_empty());
}

#[test]
fn last_line_without_newline_is_read() {
    let r = get_executable_regions(PATH, b"10-20 r-xp 0 0:0 1 /bin/x", None, false, false).unwrap();
    assert_eq!(r.len(), 1);
    assert_eq!(r[0].start, 0x10);
    assert_eq!(r[0].end, 0x20);
}

#[test]
fn upper_case_hex_is_read() {
    let r = get_executable_regions(PATH, b"AB-Cf r-xp 0 0:0 1 /bin/x\n", None, false, false).unwrap();
    assert_eq!(r[0].start, 0xab);
    assert_eq!(r[0].end, 0xcf);
}

fn assert_format_error(content: &[u8]) {
    match get_executable_regions(PATH, content, None, false, true) {
        Err(Error::ProcFsFormatError { path }) => assert_eq!(path, PATH),
        other => panic!("expected a format error, got {:?}", other),
    }
}

#[test]
fn missing_path_is_a_format_error() {
    assert_format_error(b"1000-2000 r-xp 00000000 00:00 0\n");
}

#[test]
fn missing_dash_is_a_format_error() {
    assert_format_error(b"10002000 r-xp 0 0:0 1 /bin/x\n");
}

#[test]
fn bad_hex_is_a_format_error() {
    assert_format_error(b"10g0-2000 r-xp 0 0:0 1 /bin/x\n");
    assert_format_error(b"-2000 r-xp 0 0:0 1 /bin/x\n");
    assert_format_error(b"1000- r-xp 0 0:0 1 /bin/x\n");
}

#[test]
fn address_overflow_is_a_format_error() {
    assert_format_error(b"0-10000000000000000 r-xp 0 0:0 1 /bin/x\n");
}

#[test]
fn end_before_start_is_a_format_error() {
    assert_format_error(b"2000-1000 r-xp 0 0:0 1 /bin/x\n");
}

#[test]
fn line_with_one_field_is_a_format_error() {
    assert_format_error(b"1000-2000\n");
}

#[test]
fn malformed_unselected_line_is_skipped() {
    let r = get_executable_regions(PATH, b"zz-yy r--p\n10-20 r-xp 0 0:0 1 /bin/x\n", None, false, false)
        .unwrap();
    assert_eq!(r.len(), 1);
}

#[test]
fn one_malformed_line_fails_the_whole_scan() {
    let content = b"10-20 r-xp 0 0:0 1 /bin/x\n30-40 r-xp 0 0:0 1\n50-60 r-xp 0 0:0 1 /bin/y\n";
    assert!(get_executable_regions(PATH, content, None, false, false).is_err());
}
