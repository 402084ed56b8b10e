//! Splitting the mapping table into lines and fields, and reading hex numbers.
use vstd::prelude::*;

verus! {

/// ASCII whitespace: space, tab, line feed, vertical tab, form feed, carriage return.
pub open spec fn is_space(b: u8) -> bool {
    b == 32 || (9 <= b && b <= 13)
}

/// Index of the first `b` in `s`, or the length of `s` if there is none.
pub open spec fn first_index(s: Seq<u8>, b: u8) -> int
    decreases s.len(),
{
    if s.len() == 0 || s[0] == b {
        0
    } else {
        1 + first_index(s.drop_first(), b)
    }
}

/// Length of the run of non-space bytes at the start of `s`.
pub open spec fn token_len(s: Seq<u8>) -> int
    decreases s.len(),
{
    if s.len() == 0 || is_space(s[0]) {
        0
    } else {
        1 + token_len(s.drop_first())
    }
}

/// The maximal runs of non-space bytes in `s`, in order.
pub open spec fn fields(s: Seq<u8>) -> Seq<Seq<u8>>
    decreases s.len(),
{
    if s.len() == 0 {
        seq![]
    } else if is_space(s[0]) {
        fields(s.drop_first())
    } else {
        let t = token_len(s);
        if 0 < t <= s.len() {
            seq![s.subrange(0, t)] + fields(s.subrange(t, s.len() as int))
        } else {
            seq![]
        }
    }
}

/// The value of a hex digit, or -1 if `b` is not one.
pub open spec fn hex_digit(b: u8) -> int {
    if 48 <= b && b <= 57 {
        b - 48
    } else if 97 <= b && b <= 102 {
        b - 87
    } else if 65 <= b && b <= 70 {
        b - 55
    } else {
        -1
    }
}

/// Whether `s` is a non-empty sequence of hex digits.
pub open spec fn is_hex(s: Seq<u8>) -> bool {
    s.len() > 0 && forall|i: int| 0 <= i < s.len() ==> hex_digit(#[trigger] s[i]) >= 0
}

/// The number that the hex digits of `s` spell.
pub open spec fn hex_value(s: Seq<u8>) -> nat
    decreases s.len(),
{
    if s.len() == 0 {
        0
    } else {
        (hex_value(s.drop_last()) * 16 + hex_digit(s.last())) as nat
    }
}

proof fn lemma_first_index_at(c: Seq<u8>, b: u8, i: int, j: int)
    requires
        0 <= i <= j <= c.len(),
        j == c.len() || c[j] == b,
        forall|k: int| i <= k < j ==> c[k] != b,
    ensures
        first_index(c.subrange(i, c.len() as int), b) == j - i,
    decreases j - i,
{
    let s = c.subrange(i, c.len() as int);
    if i < j {
        assert(s.drop_first() =~= c.subrange(i + 1, c.len() as int));
        lemma_first_index_at(c, b, i + 1, j);
    }
}

/// `first_index` lies between zero and the length.
pub proof fn lemma_first_index_bounds(s: Seq<u8>, b: u8)
    ensures
        0 <= first_index(s, b) <= s.len(),
    decreases s.len(),
{
    if s.len() > 0 && s[0] != b {
        lemma_first_index_bounds(s.drop_first(), b);
    }
}

proof fn lemma_token_len_at(c: Seq<u8>, i: int, j: int, e: int)
    requires
        0 <= i <= j <= e <= c.len(),
        j == e || is_space(c[j]),
        forall|k: int| i <= k < j ==> !is_space(c[k]),
    ensures
        token_len(c.subrange(i, e)) == j - i,
    decreases j - i,
{
    let s = c.subrange(i, e);
    if i < j {
        assert(s.drop_first() =~= c.subrange(i + 1, e));
        lemma_token_len_at(c, i + 1, j, e);
    }
}

proof fn lemma_hex_value_bound(s: Seq<u8>, n: int)
    requires
        0 <= n <= s.len(),
        is_hex(s),
    ensures
        hex_value(s.subrange(0, n)) <= hex_value(s),
    decreases s.len() - n,
{
    if n == s.len() {
        assert(s.subrange(0, n) =~= s);
    } else {
        lemma_hex_value_bound(s, n + 1);
        let p = s.subrange(0, n + 1);
        assert(p.drop_last() =~= s.subrange(0, n));
        assert(hex_digit(p.last()) >= 0);
        assert(hex_value(p) == hex_value(s.subrange(0, n)) * 16 + hex_digit(p.last()));
    }
}

/// Whether the bounds `b` lie within `start..end` of `c` and enclose the bytes `f`.
pub open spec fn spans(c: Seq<u8>, start: usize, end: usize, b: (usize, usize), f: Seq<u8>) -> bool {
    &&& start <= b.0
    &&& b.0 <= b.1
    &&& b.1 <= end
    &&& c.subrange(b.0 as int, b.1 as int) == f
}

/// Index of the first `b` in `c[from..to]`, or `to`.
pub fn find_byte(c: &[u8], from: usize, to: usize, b: u8) -> (r: usize)
    requires
        from <= to <= c@.len(),
    ensures
        from <= r <= to,
        r - from == first_index(c@.subrange(from as int, to as int), b),
        r < to ==> c@[r as int] == b,
{
    let mut j = from;
    while j < to && c[j] != b
        invariant
            from <= j <= to <= c@.len(),
            forall|k: int| from <= k < j ==> c@[k] != b,
        decreases to - j,
    {
        j = j + 1;
    }
    proof {
        lemma_first_index_at(c@.subrange(0, to as int), b, from as int, j as int);
        assert(c@.subrange(0, to as int).subrange(from as int, to as int) =~= c@.subrange(
            from as int,
            to as int,
        ));
    }
    j
}

/// The bounds of the fields of `c[start..end]`.
pub fn split_fields(c: &[u8], start: usize, end: usize) -> (r: Vec<(usize, usize)>)
    requires
        start <= end <= c@.len(),
    ensures
        r@.len() == fields(c@.subrange(start as int, end as int)).len(),
        forall|k: int|
            0 <= k < r@.len() ==> spans(c@, start, end, r@[k], fields(c@.subrange(start as int, end as int))[k]),
{
    let ghost whole = fields(c@.subrange(start as int, end as int));
    let mut r: Vec<(usize, usize)> = Vec::new();
    let mut i = start;
    while i < end
        invariant
            start <= i <= end <= c@.len(),
            whole == fields(c@.subrange(start as int, end as int)),
            r@.len() <= whole.len(),
            whole == whole.subrange(0, r@.len() as int) + fields(c@.subrange(i as int, end as int)),
            forall|k: int|
                0 <= k < r@.len() ==> spans(c@, start, end, r@[k], whole[k]),
        decreases end - i,
    {
        let ghost s = c@.subrange(i as int, end as int);
        if c[i] == 32 || (9 <= c[i] && c[i] <= 13) {
            proof {
                assert(s.drop_first() =~= c@.subrange(i + 1, end as int));
            }
            i = i + 1;
        } else {
            let mut j = i + 1;
            while j < end && !(c[j] == 32 || (9 <= c[j] && c[j] <= 13))
                invariant
                    i < j <= end <= c@.len(),
                    forall|k: int| i <= k < j ==> !is_space(c@[k]),
                decreases end - j,
            {
                j = j + 1;
            }
            proof {
                lemma_token_len_at(c@, i as int, j as int, end as int);
                assert(s.subrange(0, j - i) =~= c@.subrange(i as int, j as int));
                assert(s.subrange(j - i, s.len() as int) =~= c@.subrange(j as int, end as int));
                let n = r@.len() as int;
                assert(whole[n] == c@.subrange(i as int, j as int));
                assert(whole.subrange(0, n + 1) =~= whole.subrange(0, n).push(
                    c@.subrange(i as int, j as int),
                ));
                assert(whole =~= whole.subrange(0, n + 1) + fields(
                    c@.subrange(j as int, end as int),
                ));
            }
            let ghost old_r = r@;
            r.push((i, j));
            proof {
                assert forall|k: int| 0 <= k < r@.len() implies spans(c@, start, end, r@[k], whole[k]) by {
                    if k < old_r.len() {
                        assert(r@[k] == old_r[k]);
                    } else {
                        assert(k == old_r.len());
                        assert(r@[k] == (i, j));
                        assert(whole[k] == c@.subrange(i as int, j as int));
                    }
                }
            }
            i = j;
        }
    }
    proof {
        assert(c@.subrange(i as int, end as int).len() == 0);
        assert(whole =~= whole.subrange(0, r@.len() as int));
        assert forall|k: int| 0 <= k < r@.len() implies spans(c@, start, end, r@[k], fields(c@.subrange(start as int, end as int))[k]) by {
            assert(c@.subrange(r@[k].0 as int, r@[k].1 as int) == whole[k]);
        }
    }
    r
}

/// The value of the hex digits `c[start..end]`, if they are hex digits and the
/// value fits in `usize`.
pub fn parse_hex(c: &[u8], start: usize, end: usize) -> (r: Option<usize>)
    requires
        start <= end <= c@.len(),
    ensures
        r matches Some(v) <==> {
            &&& is_hex(c@.subrange(start as int, end as int))
            &&& hex_value(c@.subrange(start as int, end as int)) <= usize::MAX
        },
        r matches Some(v) ==> v == hex_value(c@.subrange(start as int, end as int)),
{
    let ghost s = c@.subrange(start as int, end as int);
    if start == end {
        return None;
    }
    let mut v: usize = 0;
    let mut i = start;
    while i < end
        invariant
            start <= i <= end <= c@.len(),
            s == c@.subrange(start as int, end as int),
            forall|k: int| 0 <= k < i - start ==> hex_digit(#[trigger] s[k]) >= 0,
            v == hex_value(s.subrange(0, i - start)),
        decreases end - i,
    {
        let b = c[i];
        let d: usize = if 48 <= b && b <= 57 {
            (b - 48) as usize
        } else if 97 <= b && b <= 102 {
            (b - 87) as usize
        } else if 65 <= b && b <= 70 {
            (b - 55) as usize
        } else {
            proof {
                assert(hex_digit(s[i - start]) < 0);
            }
            return None;
        };
        let ghost p = s.subrange(0, i - start + 1);
        proof {
            assert(p.drop_last() =~= s.subrange(0, i - start));
            assert(p.last() == b);
        }
        if v > (usize::MAX - d) / 16 {
            proof {
                assert(hex_value(p) == v * 16 + d);
                assert(hex_value(p) > usize::MAX) by (nonlinear_arith)
                    requires
                        v > (usize::MAX - d) / 16,
                        hex_value(p) == v * 16 + d,
                        d < 16,
                ;
                if is_hex(s) {
                    lemma_hex_value_bound(s, i - start + 1);
                }
            }
            return None;
        }
        proof {
            assert(v * 16 + d <= usize::MAX) by (nonlinear_arith)
                requires
                    v <= (usize::MAX - d) / 16,
                    d < 16,
            ;
        }
        v = v * 16 + d;
        i = i + 1;
    }
    proof {
        assert(s.subrange(0, s.len() as int) =~= s);
    }
    Some(v)
}

/// Whether `c[start..end]` holds the same bytes as `e`.
pub fn bytes_equal(c: &[u8], start: usize, end: usize, e: &[u8]) -> (r: bool)
    requires
        start <= end <= c@.len(),
    ensures
        r == (c@.subrange(start as int, end as int) == e@),
{
    if end - start != e.len() {
        return false;
    }
    let mut k: usize = 0;
    while k < e.len()
        invariant
            k <= e@.len(),
            end - start == e@.len(),
            start <= end <= c@.len(),
            forall|m: int| 0 <= m < k ==> c@[start + m] == e@[m],
        decreases e@.len() - k,
    {
        if c[start + k] != e[k] {
            return false;
        }
        k = k + 1;
    }
    proof {
        assert(c@.subrange(start as int, end as int) =~= e@);
    }
    true
}

} // verus!
