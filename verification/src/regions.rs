//! Text-level helpers around queries: parsing a tabix-style region
//! string into the core's 0-based half-open coordinates, and the natural
//! ordering of chromosome names.

use vstd::prelude::*;
use vstd::string::StrSliceExecFns;
use crate::HgIndexError;

verus! {

/// Whether every character of `s` is a decimal digit.
pub open spec fn all_digits(s: Seq<char>) -> bool {
    forall|i: int| 0 <= i < s.len() ==> '0' <= #[trigger] s[i] <= '9'
}

/// The number a digit string denotes.
pub open spec fn digits_val(s: Seq<char>) -> nat
    decreases s.len(),
{
    if s.len() == 0 {
        0
    } else {
        (digits_val(s.drop_last()) * 10 + (s.last() as int - '0' as int)) as nat
    }
}

/// Parse a decimal `u32` out of a character range of `s`.
fn parse_u32_chars(s: &str, from: usize, to: usize) -> (r: Result<u32, HgIndexError>)
    requires
        from <= to <= s@.len(),
    ensures
        match r {
            Ok(v) => {
                &&& from < to
                &&& all_digits(s@.subrange(from as int, to as int))
                &&& v == digits_val(s@.subrange(from as int, to as int))
            },
            Err(e) => {
                &&& (from == to || !all_digits(s@.subrange(from as int, to as int))
                    || digits_val(s@.subrange(from as int, to as int)) > u32::MAX)
                &&& e matches HgIndexError::StringError(_)
            },
        },
{
    if from == to {
        return Err(HgIndexError::StringError(invalid_number_message()));
    }
    let mut acc: u64 = 0;
    let mut i: usize = from;
    while i < to
        invariant
            from <= i <= to <= s@.len(),
            from < to,
            all_digits(s@.subrange(from as int, i as int)),
            acc == digits_val(s@.subrange(from as int, i as int)),
            acc <= u32::MAX,
        decreases to - i,
    {
        let c = s.get_char(i);
        if c < '0' || c > '9' {
            proof {
                assert(s@.subrange(from as int, to as int)[i - from] == s@[i as int]);
            }
            return Err(HgIndexError::StringError(invalid_number_message()));
        }
        let d: u32 = (c as u32) - 48;
        let next: u64 = acc * 10 + (d as u64);
        proof {
            let pfx = s@.subrange(from as int, i as int + 1);
            assert(pfx.drop_last() =~= s@.subrange(from as int, i as int));
            assert(pfx.last() == s@[i as int]);
        }
        if next > 0xFFFF_FFFF {
            proof {
                if all_digits(s@.subrange(from as int, to as int)) {
                    lemma_digits_val_mono(s@, from as int, i as int + 1, to as int);
                }
            }
            return Err(HgIndexError::StringError(invalid_number_message()));
        }
        acc = next;
        i = i + 1;
    }
    proof {
        assert(s@.subrange(from as int, to as int) == s@.subrange(from as int, i as int));
    }
    Ok(acc as u32)
}

/// A digit string's value only grows as digits are appended.
proof fn lemma_digits_val_mono(s: Seq<char>, from: int, mid: int, to: int)
    requires
        0 <= from <= mid <= to <= s.len(),
        all_digits(s.subrange(from, to)),
    ensures
        digits_val(s.subrange(from, to)) >= digits_val(s.subrange(from, mid)),
    decreases to - mid,
{
    if mid < to {
        lemma_digits_val_mono(s, from, mid + 1, to);
        let a = s.subrange(from, mid + 1);
        assert(a.drop_last() =~= s.subrange(from, mid));
        assert(a.last() == s.subrange(from, to)[mid - from]);
        assert('0' <= a.last() <= '9');
        let d = digits_val(a.drop_last());
        assert(digits_val(a) == (d * 10 + (a.last() as int - '0' as int)) as nat);
        assert(d * 10 >= d) by (nonlinear_arith);
    }
}

/// First position of `c` in `s`, if any.
fn find_char(s: &str, c: char) -> (r: Option<usize>)
    ensures
        match r {
            Some(p) => p < s@.len() && s@[p as int] == c && (forall|j: int|
                0 <= j < p ==> s@[j] != c),
            None => forall|j: int| 0 <= j < s@.len() ==> s@[j] != c,
        },
{
    let n = s.unicode_len();
    let mut i: usize = 0;
    while i < n
        invariant
            i <= n,
            n == s@.len(),
            forall|j: int| 0 <= j < i ==> s@[j] != c,
        decreases n - i,
    {
        if s.get_char(i) == c {
            return Some(i);
        }
        i = i + 1;
    }
    None
}

/// Whether a character occurs in a range of `s`.
fn contains_char(s: &str, from: usize, to: usize, c: char) -> (r: bool)
    requires
        from <= to <= s@.len(),
    ensures
        r == exists|j: int| from <= j < to && s@[j] == c,
{
    let mut i: usize = from;
    while i < to
        invariant
            from <= i <= to <= s@.len(),
            forall|j: int| from <= j < i ==> s@[j] != c,
        decreases to - i,
    {
        if s.get_char(i) == c {
            return true;
        }
        i = i + 1;
    }
    false
}

/// Whether positions `p` and `q` split a region string into its one
/// well-formed shape: `p` holds the only colon, `q` the only dash, and
/// between and after them stand nonempty digit runs whose values fit
/// `u32`, the first at least one.
pub open spec fn region_split_ok(s: Seq<char>, p: int, q: int) -> bool {
    &&& 0 <= p < q < s.len()
    &&& s[p] == ':'
    &&& (forall|j: int| 0 <= j < s.len() && j != p ==> s[j] != ':')
    &&& s[q] == '-'
    &&& (forall|j: int| 0 <= j < s.len() && j != q ==> s[j] != '-')
    &&& p + 1 < q
    &&& q + 1 < s.len()
    &&& all_digits(s.subrange(p + 1, q))
    &&& all_digits(s.subrange(q + 1, s.len() as int))
    &&& 1 <= digits_val(s.subrange(p + 1, q)) <= u32::MAX
    &&& digits_val(s.subrange(q + 1, s.len() as int)) <= u32::MAX
}

/// Whether a region string has the well-formed `seqname:start-end`
/// shape at all.
pub open spec fn region_wf(s: Seq<char>) -> bool {
    exists|p: int, q: int| #[trigger] region_split_ok(s, p, q)
}

/// Parse a tabix-style region `seqname:start-end`, whose coordinates are
/// 1-based inclusive, into the core's 0-based half-open form: the name,
/// `start - 1`, and `end` unchanged.  Parsing succeeds exactly on
/// well-formed region strings.
pub fn parse_region<'a>(region: &'a str) -> (r: Result<(&'a str, u32, u32), HgIndexError>)
    ensures
        r is Ok <==> region_wf(region@),
        match r {
            Ok((name, qstart, qend)) => {
                exists|p: int, q: int|
                    {
                        &&& #[trigger] region_split_ok(region@, p, q)
                        &&& name@ == region@.subrange(0, p)
                        &&& qstart + 1 == digits_val(region@.subrange(p + 1, q))
                        &&& qend == digits_val(
                            region@.subrange(q + 1, region@.len() as int),
                        )
                    }
            },
            Err(e) => e matches HgIndexError::StringError(_),
        },
{
    let colon = match find_char(region, ':') {
        Some(p) => p,
        None => {
            proof {
                assert(!region_wf(region@)) by {
                    if region_wf(region@) {
                        let (p, q): (int, int) = choose|p: int, q: int|
                            #[trigger] region_split_ok(region@, p, q);
                        assert(region@[p] == ':');
                    }
                }
            }
            return Err(HgIndexError::StringError(invalid_region_message()));
        },
    };
    let n = region.unicode_len();
    // A second colon anywhere after the first makes the region malformed.
    if contains_char(region, colon + 1, n, ':') {
        proof {
            let j0 = choose|j: int| colon + 1 <= j < n && region@[j] == ':';
            assert(!region_wf(region@)) by {
                if region_wf(region@) {
                    let (p, q): (int, int) = choose|p: int, q: int|
                        #[trigger] region_split_ok(region@, p, q);
                    // Two distinct colons cannot both be the unique one.
                    if p != colon as int {
                        assert(region@[colon as int] != ':');
                    } else {
                        assert(region@[j0] != ':');
                    }
                }
            }
        }
        return Err(HgIndexError::StringError(invalid_region_message()));
    }
    let dash = match find_char(region, '-') {
        Some(p) => p,
        None => {
            proof {
                assert(!region_wf(region@)) by {
                    if region_wf(region@) {
                        let (p, q): (int, int) = choose|p: int, q: int|
                            #[trigger] region_split_ok(region@, p, q);
                        assert(region@[q] == '-');
                    }
                }
            }
            return Err(HgIndexError::StringError(invalid_region_message()));
        },
    };
    if dash <= colon {
        proof {
            assert(!region_wf(region@)) by {
                if region_wf(region@) {
                    let (p, q): (int, int) = choose|p: int, q: int|
                        #[trigger] region_split_ok(region@, p, q);
                    lemma_split_positions(region@, p, q, colon as int, dash as int);
                }
            }
        }
        return Err(HgIndexError::StringError(invalid_region_message()));
    }
    if contains_char(region, dash + 1, n, '-') {
        proof {
            let j0 = choose|j: int| dash + 1 <= j < n && region@[j] == '-';
            assert(!region_wf(region@)) by {
                if region_wf(region@) {
                    let (p, q): (int, int) = choose|p: int, q: int|
                        #[trigger] region_split_ok(region@, p, q);
                    if q != dash as int {
                        assert(region@[dash as int] != '-');
                    } else {
                        assert(region@[j0] != '-');
                    }
                }
            }
        }
        return Err(HgIndexError::StringError(invalid_region_message()));
    }
    let tabix_start = match parse_u32_chars(region, colon + 1, dash) {
        Ok(v) => v,
        Err(_) => {
            proof {
                assert(!region_wf(region@)) by {
                    if region_wf(region@) {
                        let (p, q): (int, int) = choose|p: int, q: int|
                            #[trigger] region_split_ok(region@, p, q);
                        lemma_split_positions(region@, p, q, colon as int, dash as int);
                    }
                }
            }
            return Err(HgIndexError::StringError(invalid_start_message()));
        },
    };
    let tabix_end = match parse_u32_chars(region, dash + 1, n) {
        Ok(v) => v,
        Err(_) => {
            proof {
                assert(!region_wf(region@)) by {
                    if region_wf(region@) {
                        let (p, q): (int, int) = choose|p: int, q: int|
                            #[trigger] region_split_ok(region@, p, q);
                        lemma_split_positions(region@, p, q, colon as int, dash as int);
                    }
                }
            }
            return Err(HgIndexError::StringError(invalid_end_message()));
        },
    };
    if tabix_start == 0 {
        // A 1-based start of zero has no 0-based form.
        proof {
            assert(!region_wf(region@)) by {
                if region_wf(region@) {
                    let (p, q): (int, int) = choose|p: int, q: int|
                        #[trigger] region_split_ok(region@, p, q);
                    lemma_split_positions(region@, p, q, colon as int, dash as int);
                }
            }
        }
        return Err(HgIndexError::StringError(start_zero_message()));
    }
    proof {
        assert(region_split_ok(region@, colon as int, dash as int));
    }
    let seqname = region.substring_char(0, colon);
    let start = tabix_start - 1;
    Ok((seqname, start, tabix_end))
}

/// In a well-formed split, the unique colon and dash are the split's own
/// positions.
proof fn lemma_split_positions(s: Seq<char>, p: int, q: int, colon: int, dash: int)
    requires
        region_split_ok(s, p, q),
        0 <= colon < s.len(),
        s[colon] == ':',
        0 <= dash < s.len(),
        s[dash] == '-',
    ensures
        p == colon,
        q == dash,
{
    if p != colon {
        assert(s[colon] != ':');
    }
    if q != dash {
        assert(s[dash] != '-');
    }
}

/// Error text for a malformed region.
fn invalid_region_message() -> (r: String)
    ensures
        r@ == "Invalid region format. Expected seqname:start-end."@,
{
    let s: &str = "Invalid region format. Expected seqname:start-end.";
    s.to_owned()
}

/// Error text for a malformed number.
fn invalid_number_message() -> (r: String)
    ensures
        r@ == "Invalid coordinate."@,
{
    let s: &str = "Invalid coordinate.";
    s.to_owned()
}

/// Error text for a malformed start coordinate.
fn invalid_start_message() -> (r: String)
    ensures
        r@ == "Invalid start coordinate."@,
{
    let s: &str = "Invalid start coordinate.";
    s.to_owned()
}

/// Error text for a malformed end coordinate.
fn invalid_end_message() -> (r: String)
    ensures
        r@ == "Invalid end coordinate."@,
{
    let s: &str = "Invalid end coordinate.";
    s.to_owned()
}

/// Error text for a start of zero.
fn start_zero_message() -> (r: String)
    ensures
        r@ == "Start coordinate must be greater than 0"@,
{
    let s: &str = "Start coordinate must be greater than 0";
    s.to_owned()
}

/// The rank of a chromosome name under the natural ordering: the number
/// after a `chr` prefix, with `X` just before `Y` at the end; anything
/// else ranks zero.
pub open spec fn spec_chrom_value(s: Seq<char>) -> nat {
    if s.len() >= 3 && s[0] == 'c' && s[1] == 'h' && s[2] == 'r' {
        let rest = s.subrange(3, s.len() as int);
        if rest.len() == 1 && rest[0] == 'X' {
            (u32::MAX - 1) as nat
        } else if rest.len() == 1 && rest[0] == 'Y' {
            u32::MAX as nat
        } else if rest.len() > 0 && all_digits(rest) && digits_val(rest) <= u32::MAX {
            digits_val(rest)
        } else {
            0
        }
    } else {
        0
    }
}

/// The rank of a chromosome name.
fn chrom_value(chrom: &str) -> (r: u32)
    ensures
        r == spec_chrom_value(chrom@),
{
    let n = chrom.unicode_len();
    if n < 3 || chrom.get_char(0) != 'c' || chrom.get_char(1) != 'h' || chrom.get_char(2) != 'r' {
        return 0;
    }
    let ghost rest = chrom@.subrange(3, chrom@.len() as int);
    if n == 4 {
        let c = chrom.get_char(3);
        proof {
            assert(rest.len() == 1 && rest[0] == chrom@[3]);
        }
        if c == 'X' {
            return u32::MAX - 1;
        }
        if c == 'Y' {
            return u32::MAX;
        }
    }
    match parse_u32_chars(chrom, 3, n) {
        Ok(v) => {
            proof {
                assert(rest =~= chrom@.subrange(3, n as int));
            }
            v
        },
        Err(_) => {
            proof {
                assert(rest =~= chrom@.subrange(3, n as int));
                if rest.len() == 1 && (rest[0] == 'X' || rest[0] == 'Y') {
                    assert(chrom@[3] == rest[0]);
                }
            }
            0
        },
    }
}

/// Order two chromosome names naturally: `chr2` before `chr10`, the sex
/// chromosomes last.
pub fn compare_chromosomes(a: &str, b: &str) -> (r: core::cmp::Ordering)
    ensures
        r == (if spec_chrom_value(a@) < spec_chrom_value(b@) {
            core::cmp::Ordering::Less
        } else if spec_chrom_value(a@) == spec_chrom_value(b@) {
            core::cmp::Ordering::Equal
        } else {
            core::cmp::Ordering::Greater
        }),
{
    let va = chrom_value(a);
    let vb = chrom_value(b);
    if va < vb {
        core::cmp::Ordering::Less
    } else if va == vb {
        core::cmp::Ordering::Equal
    } else {
        core::cmp::Ordering::Greater
    }
}

} // verus!
