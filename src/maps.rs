//! The executable regions listed in a process's mapping table.
//!
//! The table has one line per mapping: `start-end perms offset dev inode [path]`,
//! with the addresses in hex. A line is selected when its permissions begin with
//! `r-x`, or also `rwx` when writable code is included.
use vstd::prelude::*;

use crate::error::Error;
use crate::region::{Region, RegionView};
use crate::text::{
    bytes_equal, fields, find_byte, first_index, hex_value, is_hex, lemma_first_index_bounds,
    parse_hex, spans, split_fields,
};

verus! {

/// What `String::from_utf8_lossy` makes of the bytes.
pub uninterp spec fn utf8_lossy(bytes: Seq<u8>) -> Seq<char>;

/// Relies on `String::from_utf8_lossy`: the text depends on the bytes alone.
#[verifier::external_body]
fn string_from_bytes(bytes: &[u8]) -> (r: String)
    ensures
        r@ == utf8_lossy(bytes@),
{
    String::from_utf8_lossy(bytes).into_owned()
}

/// Whether the permission field marks readable executable code (`r-x`), or
/// writable executable code (`rwx`) when `writable` holds. The bytes 114, 45,
/// 119 and 120 are `r`, `-`, `w` and `x`.
pub open spec fn is_selected_perm(p: Seq<u8>, writable: bool) -> bool {
    &&& p.len() >= 3
    &&& p[0] == 114u8
    &&& p[2] == 120u8
    &&& (p[1] == 45u8 || (writable && p[1] == 119u8))
}

/// The region that one line of the table describes: `Err` when the line is
/// malformed, `Ok(None)` when it is not selected.
pub open spec fn line_region(line: Seq<u8>, exe: Option<Seq<u8>>, writable: bool) -> Result<
    Option<RegionView>,
    (),
> {
    let f = fields(line);
    if f.len() < 2 {
        Err(())
    } else if !is_selected_perm(f[1], writable) {
        Ok(None)
    } else {
        let range = f[0];
        let d = first_index(range, 45u8);
        let lo = range.subrange(0, d);
        let hi = range.subrange(d + 1, range.len() as int);
        if d >= range.len() || !is_hex(lo) || !is_hex(hi) {
            Err(())
        } else if hex_value(lo) > usize::MAX || hex_value(hi) > usize::MAX {
            Err(())
        } else if hex_value(hi) < hex_value(lo) || f.len() < 6 {
            Err(())
        } else if exe is Some && f[5] != exe->0 {
            Ok(None)
        } else {
            Ok(Some(RegionView { start: hex_value(lo) as int, end: hex_value(hi) as int, source: utf8_lossy(f[5]) }))
        }
    }
}

/// The regions of `content` line by line; the first malformed line makes it `Err`.
pub open spec fn scan_regions(content: Seq<u8>, exe: Option<Seq<u8>>, writable: bool) -> Result<
    Seq<RegionView>,
    (),
>
    decreases content.len(),
{
    if content.len() == 0 {
        Ok(seq![])
    } else {
        let n = first_index(content, 10u8);
        let rest = if 0 <= n < content.len() {
            content.subrange(n + 1, content.len() as int)
        } else {
            seq![]
        };
        match line_region(content.subrange(0, n), exe, writable) {
            Err(_) => Err(()),
            Ok(o) => match scan_regions(rest, exe, writable) {
                Err(_) => Err(()),
                Ok(rs) => Ok(
                    match o {
                        Some(x) => seq![x] + rs,
                        None => rs,
                    },
                ),
            },
        }
    }
}

/// `done` followed by the outcome `r` of the remaining lines.
pub open spec fn prepend(done: Seq<RegionView>, r: Result<Seq<RegionView>, ()>) -> Result<
    Seq<RegionView>,
    (),
> {
    match r {
        Ok(rs) => Ok(done + rs),
        Err(_) => Err(()),
    }
}

/// The views of a sequence of regions.
pub open spec fn views(v: Seq<Region>) -> Seq<RegionView> {
    v.map_values(|x: Region| x@)
}

/// The path filter in force: the executable's own path when libraries are skipped.
pub open spec fn exe_filter(own_exe: Option<&[u8]>, skip_libs: bool) -> Option<Seq<u8>> {
    match own_exe {
        Some(e) if skip_libs => Some(e@),
        _ => None,
    }
}

/// Whether an executable line outcome matches its model.
pub open spec fn line_matches(r: Result<Option<Region>, ()>, m: Result<Option<RegionView>, ()>) -> bool {
    match (r, m) {
        (Err(_), Err(_)) => true,
        (Ok(None), Ok(None)) => true,
        (Ok(Some(x)), Ok(Some(y))) => x@ == y,
        _ => false,
    }
}

fn parse_line(c: &[u8], a: usize, b: usize, exe: Option<&[u8]>, writable: bool) -> (r: Result<
    Option<Region>,
    (),
>)
    requires
        a <= b <= c@.len(),
    ensures
        line_matches(
            r,
            line_region(
                c@.subrange(a as int, b as int),
                match exe {
                    Some(e) => Some(e@),
                    None => None,
                },
                writable,
            ),
        ),
{
    let ghost line = c@.subrange(a as int, b as int);
    let ghost f = fields(line);
    let f_bounds = split_fields(c, a, b);
    if f_bounds.len() < 2 {
        return Err(());
    }
    let (perm_start, perm_end) = f_bounds[1];
    proof {
        assert(spans(c@, a, b, f_bounds@[1], f[1]));
    }
    // the bytes of `r`, `-`, `x` and `w`
    let selected = perm_end - perm_start >= 3 && c[perm_start] == 114 && c[perm_start + 2] == 120 && (c[perm_start + 1] == 45 || (
    writable && c[perm_start + 1] == 119));
    proof {
        if perm_end - perm_start >= 3 {
            assert(f[1][0] == c@[perm_start as int]);
            assert(f[1][1] == c@[perm_start + 1]);
            assert(f[1][2] == c@[perm_start + 2]);
        }
    }
    if !selected {
        return Ok(None);
    }
    let (r0, r1) = f_bounds[0];
    proof {
        assert(spans(c@, a, b, f_bounds@[0], f[0]));
    }
    let d = find_byte(c, r0, r1, 45);
    let ghost range = f[0];
    proof {
        assert(range =~= c@.subrange(r0 as int, r1 as int));
    }
    if d >= r1 {
        return Err(());
    }
    let lo = parse_hex(c, r0, d);
    let hi = parse_hex(c, d + 1, r1);
    proof {
        assert(range.subrange(0, d - r0) =~= c@.subrange(r0 as int, d as int));
        assert(range.subrange(d - r0 + 1, range.len() as int) =~= c@.subrange(d + 1, r1 as int));
    }
    let (start, end) = match (lo, hi) {
        (Some(s), Some(e)) => (s, e),
        _ => {
            return Err(());
        },
    };
    if end < start || f_bounds.len() < 6 {
        return Err(());
    }
    let (s0, s1) = f_bounds[5];
    proof {
        assert(spans(c@, a, b, f_bounds@[5], f[5]));
    }
    if let Some(e) = exe {
        if !bytes_equal(c, s0, s1, e) {
            return Ok(None);
        }
    }
    let source = string_from_bytes(&c[s0..s1]);
    Ok(Some(Region { start, end, source }))
}

/// The executable regions listed in the mapping table `maps`, read from `path`.
///
/// With `skip_libs`, only regions backed by `own_exe` (the running executable's
/// path, when it is known) are kept. The first malformed line fails the whole
/// scan with a format error naming `path`.
pub fn get_executable_regions(
    path: &str,
    maps: &[u8],
    own_exe: Option<&[u8]>,
    skip_libs: bool,
    include_writable_code: bool,
) -> (r: Result<Vec<Region>, Error>)
    ensures
        match scan_regions(maps@, exe_filter(own_exe, skip_libs), include_writable_code) {
            Ok(rs) => r matches Ok(v) && views(v@) == rs,
            Err(_) => r matches Err(e) && e.is_format_error_at(path@),
        },
{
    let filter: Option<&[u8]> = if skip_libs {
        own_exe
    } else {
        None
    };
    let ghost exe = exe_filter(own_exe, skip_libs);
    let mut regions: Vec<Region> = Vec::new();
    let mut p: usize = 0;
    proof {
        assert(maps@.subrange(0, maps@.len() as int) =~= maps@);
        match scan_regions(maps@, exe, include_writable_code) {
            Ok(rs) => {
                assert(views(regions@) + rs =~= rs);
            },
            Err(_) => {},
        }
    }
    while p < maps.len()
        invariant
            p <= maps@.len(),
            exe == exe_filter(own_exe, skip_libs),
            exe == match filter {
                Some(e) => Some(e@),
                None => None::<Seq<u8>>,
            },
            scan_regions(maps@, exe, include_writable_code) == prepend(
                views(regions@),
                scan_regions(maps@.subrange(p as int, maps@.len() as int), exe, include_writable_code),
            ),
        decreases maps@.len() - p,
    {
        let q = find_byte(maps, p, maps.len(), 10);
        let ghost rest_before = maps@.subrange(p as int, maps@.len() as int);
        let next: usize = if q < maps.len() {
            q + 1
        } else {
            q
        };
        proof {
            lemma_first_index_bounds(rest_before, 10u8);
            assert(rest_before.subrange(0, q - p) =~= maps@.subrange(p as int, q as int));
            if q < maps@.len() {
                assert(rest_before.subrange(q - p + 1, rest_before.len() as int) =~= maps@.subrange(
                    next as int,
                    maps@.len() as int,
                ));
            } else {
                assert(maps@.subrange(next as int, maps@.len() as int) =~= Seq::<u8>::empty());
            }
        }
        let ghost tail = scan_regions(
            maps@.subrange(next as int, maps@.len() as int),
            exe,
            include_writable_code,
        );
        let ghost model = line_region(maps@.subrange(p as int, q as int), exe, include_writable_code);
        proof {
            assert(scan_regions(rest_before, exe, include_writable_code) == match model {
                Err(_) => Err(()),
                Ok(o) => match tail {
                    Err(_) => Err(()),
                    Ok(rs) => Ok(
                        match o {
                            Some(x) => seq![x] + rs,
                            None => rs,
                        },
                    ),
                },
            });
        }
        let line = parse_line(maps, p, q, filter, include_writable_code);
        match line {
            Err(_) => {
                let owned = path.to_owned();
                proof {
                    assert(model is Err);
                    assert(scan_regions(maps@, exe, include_writable_code) is Err);
                    assert(owned@ == path@);
                }
                return Err(Error::ProcFsFormatError { path: owned });
            },
            Ok(None) => {},
            Ok(Some(region)) => {
                let ghost before = regions@;
                regions.push(region);
                proof {
                    assert(views(regions@) =~= views(before) + seq![region@]);
                    match tail {
                        Ok(rs) => {
                            assert(views(before) + (seq![region@] + rs) =~= views(regions@) + rs);
                        },
                        Err(_) => {},
                    }
                }
            },
        }
        p = next;
    }
    proof {
        assert(maps@.subrange(p as int, maps@.len() as int) =~= Seq::<u8>::empty());
        assert(views(regions@) + Seq::<RegionView>::empty() =~= views(regions@));
    }
    Ok(regions)
}

/// The part of `content` after its first line.
pub open spec fn after_first_line(content: Seq<u8>) -> Seq<u8> {
    let n = first_index(content, 10u8);
    if 0 <= n < content.len() {
        content.subrange(n + 1, content.len() as int)
    } else {
        seq![]
    }
}

/// Skipping libraries keeps a scan's success or failure, yields no more regions
/// than a scan without the filter, and every region it yields is backed by the
/// executable's own path.
pub proof fn lemma_skip_libs_narrows(content: Seq<u8>, own_exe: Seq<u8>, writable: bool)
    ensures
        scan_regions(content, Some(own_exe), writable) is Ok <==> scan_regions(
            content,
            None,
            writable,
        ) is Ok,
        scan_regions(content, Some(own_exe), writable) is Ok ==> {
            let kept = scan_regions(content, Some(own_exe), writable)->Ok_0;
            let all = scan_regions(content, None, writable)->Ok_0;
            &&& kept.len() <= all.len()
            &&& forall|i: int| 0 <= i < kept.len() ==> (#[trigger] kept[i]).source == utf8_lossy(own_exe)
        },
    decreases content.len(),
{
    if content.len() > 0 {
        lemma_first_index_bounds(content, 10u8);
        let rest = after_first_line(content);
        lemma_skip_libs_narrows(rest, own_exe, writable);
        let n = first_index(content, 10u8);
        let line = content.subrange(0, n);
        let f = fields(line);
        if scan_regions(content, Some(own_exe), writable) is Ok {
            let kept = scan_regions(content, Some(own_exe), writable)->Ok_0;
            let kept_rest = scan_regions(rest, Some(own_exe), writable)->Ok_0;
            match line_region(line, Some(own_exe), writable) {
                Ok(Some(x)) => {
                    assert(f[5] == own_exe);
                    assert(kept =~= seq![x] + kept_rest);
                    assert forall|i: int| 0 <= i < kept.len() implies (#[trigger] kept[i]).source
                        == utf8_lossy(own_exe) by {
                        if i > 0 {
                            assert(kept[i] == kept_rest[i - 1]);
                        }
                    }
                },
                _ => {},
            }
        }
    }
}

/// Including writable code never yields fewer regions: where the scan that
/// includes it succeeds, the scan without it succeeds too and yields no more.
pub proof fn lemma_writable_widens(content: Seq<u8>, exe: Option<Seq<u8>>)
    ensures
        scan_regions(content, exe, true) is Ok ==> {
            &&& scan_regions(content, exe, false) is Ok
            &&& scan_regions(content, exe, false)->Ok_0.len() <= scan_regions(content, exe, true)->Ok_0.len()
        },
    decreases content.len(),
{
    if content.len() > 0 {
        lemma_first_index_bounds(content, 10u8);
        let rest = after_first_line(content);
        lemma_writable_widens(rest, exe);
    }
}

} // verus!
