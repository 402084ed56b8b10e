use process_consistency::benchmark::BenchmarkResult;
use process_consistency::checker::{ProcessConsistencyChecker, NANOS_PER_SEC};
use process_consistency::fingerprint::Hash as Fingerprint;
use process_consistency::maps::get_executable_regions;
use process_consistency::module::{
    modules_to_walk, MemoryInfo, Module, PAGE_EXECUTE_READ, PAGE_EXECUTE_READWRITE,
    PAGE_EXECUTE_WRITECOPY,
};
use process_consistency::region::Region;
use process_consistency::tracker::RegionTracker;

const SAMPLE: &str = "\
55d0c0a00000-55d0c0a02000 r--p 00000000 08:01 1311 /usr/bin/app
55d0c0a02000-55d0c0a08000 r-xp 00002000 08:01 1311 /usr/bin/app
7f1e2d200000-7f1e2d390000 r-xp 00028000 08:01 2222 /usr/lib/libc.so.6
7ffd5b3f0000-7ffd5b3f2000 r-xp 00000000 00:00 0                          [vdso]
";

fn region(start: usize, end: usize, source: &str) -> Region {
    Region { start, end, source: source.to_string() }
}

fn to_hex(h: Fingerprint) -> String {
    h.inner().iter().map(|b| format!("{:02x}", b)).collect()
}

#[test]
fn it_works() {
    let regions = get_executable_regions("/proc/self/maps", SAMPLE.as_bytes(), None, false, false)
        .unwrap();
    let code = vec![0x90u8; 4096];
    for _ in &regions {
        let _ = Fingerprint::of_bytes(&code);
    }
    println!("{:?}", BenchmarkResult::new(10, 20, regions).unwrap());
}

#[test]
fn fingerprint_of_empty_input_is_the_blake3_digest() {
    assert_eq!(
        to_hex(Fingerprint::of_bytes(&[])),
        "af1349b9f5f9a1a6a0404dea36dcc9499bcb25c9adc112b7cc9a93cae41f3262"
    );
}

#[test]
fn fingerprint_is_stable_and_sees_mutation() {
    let mut code = vec![0xc3u8; 256];
    let a = Fingerprint::of_bytes(&code);
    let b = Fingerprint::of_bytes(&code);
    assert!(a == b);
    assert_eq!(a.inner(), b.inner());
    code[100] ^= 1;
    let c = Fingerprint::of_bytes(&code);
    assert!(a != c);
    assert_ne!(a.inner().to_vec(), code[..32].to_vec());
}

#[test]
fn first_observation_reports_nothing() {
    let mut t = RegionTracker::new();
    let regions = vec![region(0x1000, 0x2000, "/bin/a"), region(0x3000, 0x4000, "/lib/b")];
    let hashes = vec![Fingerprint::of_bytes(b"one"), Fingerprint::of_bytes(b"two")];
    let events = t.check_iteration(&regions, &hashes, 1);
    assert!(events.is_empty());
    assert_eq!(t.tracked_regions().len(), 2);
}

#[test]
fn mutation_is_reported_once_with_previous_time() {
    let mut t = RegionTracker::new();
    let regions = vec![region(0x1000, 0x2000, "/bin/a"), region(0x3000, 0x4000, "/lib/b")];
    let first = vec![Fingerprint::of_bytes(b"one"), Fingerprint::of_bytes(b"two")];
    assert!(t.check_iteration(&regions, &first, 100).is_empty());
    let second = vec![Fingerprint::of_bytes(b"one"), Fingerprint::of_bytes(b"two!")];
    let events = t.check_iteration(&regions, &second, 200);
    assert_eq!(events.len(), 1);
    let e = &events[0];
    assert!(*e.region == regions[1]);
    assert!(e.old_hash == first[1]);
    assert!(e.new_hash == second[1]);
    assert!(e.old_hash != e.new_hash);
    assert_eq!(e.old_hash_computed_at, 100);
    let third = t.check_iteration(&regions, &second, 300);
    assert!(third.is_empty());
}

#[test]
fn disappeared_region_is_dropped_silently() {
    let mut t = RegionTracker::new();
    let both = vec![region(0x1000, 0x2000, "/bin/a"), region(0x3000, 0x4000, "/lib/b")];
    let hashes = vec![Fingerprint::of_bytes(b"one"), Fingerprint::of_bytes(b"two")];
    t.check_iteration(&both, &hashes, 1);
    let only_a = vec![region(0x1000, 0x2000, "/bin/a")];
    let events = t.check_iteration(&only_a, &[Fingerprint::of_bytes(b"one")], 2);
    assert!(events.is_empty());
    let kept = t.tracked_regions();
    assert_eq!(kept.len(), 1);
    assert!(kept[0] == only_a[0]);
    // seen again later, it is a first sighting once more
    let events = t.check_iteration(&both, &[Fingerprint::of_bytes(b"one"), Fingerprint::of_bytes(b"changed")], 3);
    assert!(events.is_empty());
}

#[test]
fn observe_and_prune_step_by_step() {
    let mut t = RegionTracker::new();
    let a = region(1, 2, "a");
    assert!(t.observe(&a, Fingerprint::of_bytes(b"x"), 5).is_none());
    let e = t.observe(&a, Fingerprint::of_bytes(b"y"), 6).unwrap();
    assert_eq!(e.old_hash_computed_at, 5);
    t.prune(7);
    assert!(t.is_empty());
}

#[test]
fn search_once_reuses_tracked_regions() {
    let mut c = ProcessConsistencyChecker::new();
    let mut t = RegionTracker::new();
    assert!(c.needs_search(&t));
    c.search_once(true);
    assert!(c.needs_search(&t));
    t.check_iteration(&[region(1, 2, "a")], &[Fingerprint::of_bytes(b"x")], 1);
    assert!(!c.needs_search(&t));
    c.search_once(false);
    assert!(c.needs_search(&t));
}

#[test]
fn sleep_is_clamped_to_zero() {
    let mut c = ProcessConsistencyChecker::new();
    c.check_period(1000);
    assert_eq!(c.sleep_nanos(300), 700);
    assert_eq!(c.sleep_nanos(1000), 0);
    assert_eq!(c.sleep_nanos(5000), 0);
    assert_eq!(c.sleep_nanos(u64::MAX), 0);
}

#[test]
fn builder_sets_each_option() {
    let c = ProcessConsistencyChecker::new();
    assert!(!c.config.search_once && !c.config.skip_libs && !c.config.include_writable_code);
    assert_eq!(c.config.check_period_nanos, NANOS_PER_SEC);
    assert!(ProcessConsistencyChecker::default() == c);
    let mut d = ProcessConsistencyChecker::new();
    d.skip_libs(true).search_once(true).include_writable_code(true).check_period(60 * NANOS_PER_SEC);
    let cfg = d.config();
    assert!(cfg.skip_libs && cfg.search_once && cfg.include_writable_code);
    assert_eq!(cfg.check_period_nanos, 60 * NANOS_PER_SEC);
}

#[test]
fn benchmark_sums_region_sizes() {
    let regions = vec![region(0x1000, 0x3000, "/bin/a"), region(0x5000, 0x5800, "/lib/b"), region(7, 7, "z")];
    let b = BenchmarkResult::new(3, 4, regions).unwrap();
    assert_eq!(b.hashed_bytes, 0x2000 + 0x800);
    assert_eq!(b.scan_time_nanos, 3);
    assert_eq!(b.hash_time_nanos, 4);
    assert_eq!(b.regions.len(), 3);
    let total: isize = b.regions.iter().map(|r| (r.end - r.start) as isize).sum();
    assert_eq!(b.hashed_bytes, total);
}

#[test]
fn benchmark_of_sample_table_is_not_empty() {
    let regions = get_executable_regions("/proc/self/maps", SAMPLE.as_bytes(), None, false, false)
        .unwrap();
    let b = BenchmarkResult::new(0, 0, regions).unwrap();
    assert!(!b.regions.is_empty());
    assert_eq!(b.hashed_bytes, 0x6000 + 0x190000 + 0x2000);
}

#[test]
fn benchmark_rejects_reversed_region_and_overflow() {
    assert!(BenchmarkResult::new(0, 0, vec![region(10, 5, "x")]).is_none());
    let big = vec![region(0, usize::MAX / 2 + 1, "x")];
    assert!(BenchmarkResult::new(0, 0, big).is_none());
    let two = vec![region(0, usize::MAX / 4 + 1, "x"), region(0, usize::MAX / 4 + 1, "y")];
    assert!(BenchmarkResult::new(0, 0, two).is_none());
    assert_eq!(BenchmarkResult::new(0, 0, vec![]).unwrap().hashed_bytes, 0);
}

fn module(base: usize, size: u32) -> Module {
    Module {
        module_id: 1,
        process_id: 2,
        base_addr: base,
        base_size: size,
        module_name: "app.exe".to_string(),
        exe_path: "C:\\app.exe".to_string(),
    }
}

#[test]
fn module_walk_reports_executable_segments() {
    let m = module(0x10000, 0x5000);
    assert_eq!(m.end(), Some(0x15000));
    let info = MemoryInfo { base_address: 0x10000, region_size: 0x1000, protect: 0x02 };
    let (r, next) = m.walk_step(0x10000, &info, false);
    assert!(r.is_none());
    assert_eq!(next, Some(0x11000));
    let info = MemoryInfo { base_address: 0x11000, region_size: 0x2000, protect: PAGE_EXECUTE_READ };
    let (r, next) = m.walk_step(0x11000, &info, false);
    let r = r.unwrap();
    assert_eq!((r.start, r.end), (0x11000, 0x13000));
    assert_eq!(r.source, "C:\\app.exe");
    assert_eq!(next, Some(0x13000));
    let info = MemoryInfo { base_address: 0x13000, region_size: 0x9000, protect: PAGE_EXECUTE_WRITECOPY };
    let (r, next) = m.walk_step(0x13000, &info, false);
    assert_eq!(r.unwrap().end, 0x15000);
    assert_eq!(next, None);
}

#[test]
fn module_walk_writable_code_only_when_asked() {
    let m = module(0x10000, 0x1000);
    let info = MemoryInfo { base_address: 0x10000, region_size: 0x1000, protect: PAGE_EXECUTE_READWRITE };
    assert!(m.walk_step(0x10000, &info, false).0.is_none());
    assert!(m.walk_step(0x10000, &info, true).0.is_some());
    assert_eq!(module(usize::MAX, 1).end(), None);
}

#[test]
fn skip_libs_walks_the_executable_only() {
    let mods = vec![module(0x10000, 0x1000), module(0x20000, 0x1000)];
    let one = modules_to_walk(mods.clone(), true);
    assert_eq!(one.len(), 1);
    assert_eq!(one[0].base_addr, 0x10000);
    assert_eq!(modules_to_walk(mods, false).len(), 2);
    assert!(modules_to_walk(vec![], true).is_empty());
}
