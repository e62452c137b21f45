//! Download planning and the text a download writes and reads: sizes for
//! people, HTTP range values, content ranges, checksums.

use vstd::prelude::*;
use crate::text::{
    concat, decimal, is_digit, lemma_decimal_digits, lemma_parse_decimal_roundtrip,
    parse_u64, parse_u64_spec, push_char, push_decimal,
};
use vstd::string::StringExecFns;

verus! {

/// `2^k`.
pub open spec fn pow2(k: nat) -> nat
    decreases k,
{
    if k == 0 {
        1
    } else {
        2 * pow2((k - 1) as nat)
    }
}

/// The number of binary digits of `n` (zero for zero).
pub open spec fn bit_len(n: nat) -> nat
    decreases n,
{
    if n == 0 {
        0
    } else {
        1 + bit_len(n / 2)
    }
}

/// `n / d` rounded to the nearest integer, ties to the even one.
pub open spec fn round_half_even(n: nat, d: nat) -> nat
    recommends
        d > 0,
{
    let q = n / d;
    let r = n % d;
    if 2 * r > d || (2 * r == d && q % 2 == 1) {
        q + 1
    } else {
        q
    }
}

/// The value of `b as f64`: `b` rounded to 53 significant bits, ties to
/// even.
pub open spec fn f64_value(b: u64) -> nat {
    if bit_len(b as nat) <= 53 {
        b as nat
    } else {
        let k = (bit_len(b as nat) - 53) as nat;
        round_half_even(b as nat, pow2(k)) * pow2(k)
    }
}

/// The fixed-point text of `q / 10` with one decimal (`q` in tenths).
pub open spec fn tenths_text(q: nat) -> Seq<char> {
    decimal(q / 10) + seq!['.'] + decimal(q % 10)
}

/// The fixed-point text of `q / 100` with two decimals (`q` in hundredths).
pub open spec fn hundredths_text(q: nat) -> Seq<char> {
    decimal(q / 100) + seq!['.'] + decimal((q % 100) / 10) + decimal(q % 10)
}

/// A byte count for people, as a floating-point formatter writes it:
/// bytes below 1 KiB, then KB and MB with one decimal, GB with two; the
/// decimals rounded half to even from the exact value of the `f64`
/// quotient.
pub open spec fn bytes_text(b: u64) -> Seq<char> {
    if b < 1024 {
        decimal(b as nat) + seq![' ', 'B']
    } else if b < 1024 * 1024 {
        tenths_text(round_half_even(10 * b as nat, 1024)) + seq![' ', 'K', 'B']
    } else if b < 1024 * 1024 * 1024 {
        tenths_text(round_half_even(10 * b as nat, 1024 * 1024)) + seq![' ', 'M', 'B']
    } else {
        hundredths_text(round_half_even(100 * f64_value(b), 1024 * 1024 * 1024)) + seq![' ', 'G', 'B']
    }
}

/// `n / d` rounded half to even.
fn round_div(n: u128, d: u128) -> (r: u128)
    requires
        d > 0,
        d <= 0x1_0000_0000_0000_0000,
        n < 0x1_0000_0000_0000_0000_0000_0000_0000,
    ensures
        r == round_half_even(n as nat, d as nat),
{
    let q = n / d;
    let rem = n % d;
    assert(rem < d);
    assert(q <= n) by (nonlinear_arith)
        requires
            d > 0,
            q == n / d,
    ;
    if 2 * rem > d || (2 * rem == d && q % 2 == 1) {
        q + 1
    } else {
        q
    }
}

/// The value of `b as f64`, computed on integers.
fn f64_value_exec(b: u64) -> (r: u128)
    ensures
        r == f64_value(b),
        r <= 0x1_0000_0000_0000_0000,
{
    proof {
        lemma_pow2_64();
        lemma_bit_len_bound(b as nat);
    }
    let mut x = b;
    let mut len: u64 = 0;
    while x > 0
        invariant
            bit_len(b as nat) == len + bit_len(x as nat),
            len <= 64,
            x <= b,
            len + bit_len(x as nat) <= 64,
        decreases x,
    {
        proof {
            lemma_bit_len_bound(x as nat);
        }
        x = x / 2;
        len = len + 1;
    }
    if len <= 53 {
        return b as u128;
    }
    let k = len - 53;
    let mut p: u128 = 1;
    let mut i: u64 = 0;
    while i < k
        invariant
            0 <= i <= k,
            k <= 11,
            p == pow2(i as nat),
            1 <= p <= 2048,
        decreases k - i,
    {
        proof {
            lemma_pow2_le(i as nat + 1, 11);
            reveal_with_fuel(pow2, 12);
        }
        p = p * 2;
        i = i + 1;
    }
    let q = round_div(b as u128, p);
    proof {
        lemma_round_scaled_bound(b as nat, k as nat);
    }
    q * p
}

proof fn lemma_pow2_64()
    ensures
        pow2(64) == 0x1_0000_0000_0000_0000,
        pow2(53) == 0x20_0000_0000_0000,
        pow2(11) == 2048,
{
    reveal_with_fuel(pow2, 65);
}

proof fn lemma_bit_len_bound(x: nat)
    ensures
        x > 0 ==> bit_len(x) == 1 + bit_len(x / 2),
        x < pow2(64) ==> bit_len(x) <= 64,
{
    lemma_bit_len_lt(x, 64);
}

proof fn lemma_bit_len_lt(x: nat, k: nat)
    ensures
        x < pow2(k) ==> bit_len(x) <= k,
    decreases k,
{
    if k > 0 && x < pow2(k) {
        lemma_bit_len_lt(x / 2, (k - 1) as nat);
    }
}

proof fn lemma_pow2_le(a: nat, b: nat)
    requires
        a <= b,
    ensures
        pow2(a) <= pow2(b),
    decreases b,
{
    if a < b {
        lemma_pow2_le(a, (b - 1) as nat);
    }
}

/// `2^(len - 53)` divides a number of `len` bits down to at most `2^53`.
proof fn lemma_round_scaled_bound(b: nat, k: nat)
    requires
        b < pow2(64),
        k == bit_len(b) - 53,
        bit_len(b) > 53,
    ensures
        round_half_even(b, pow2(k)) * pow2(k) <= pow2(64),
{
    lemma_bit_len_pow(b);
    let l = bit_len(b);
    // b < 2^l, so b / 2^k < 2^53 and the rounded quotient is at most 2^53
    lemma_pow2_add(53, k);
    let d = pow2(k);
    assert(d > 0) by {
        lemma_pow2_pos(k);
    }
    assert(b / d < pow2(53)) by (nonlinear_arith)
        requires
            b < pow2(53) * d,
            d > 0,
    ;
    let q = round_half_even(b, d);
    assert(q <= pow2(53));
    lemma_bit_len_lt_inv(b);
    lemma_pow2_le(l, 64);
    lemma_pow2_add(53, k);
    assert(q * d <= pow2(53) * d) by (nonlinear_arith)
        requires
            q <= pow2(53),
    ;
}

proof fn lemma_pow2_pos(k: nat)
    ensures
        pow2(k) > 0,
    decreases k,
{
    if k > 0 {
        lemma_pow2_pos((k - 1) as nat);
    }
}

proof fn lemma_pow2_add(a: nat, b: nat)
    ensures
        pow2(a + b) == pow2(a) * pow2(b),
    decreases a,
{
    if a > 0 {
        let a1 = (a - 1) as nat;
        lemma_pow2_add(a1, b);
        assert(a1 + b + 1 == a + b);
        assert(pow2(a + b) == 2 * pow2(a1 + b));
        assert(pow2(a) == 2 * pow2(a1));
        let x = pow2(a1);
        let y = pow2(b);
        assert(2 * (x * y) == (2 * x) * y) by (nonlinear_arith);
        assert(pow2(a1 + b) == x * y);
        assert(pow2(a + b) == 2 * (x * y));
        assert(pow2(a) * pow2(b) == (2 * x) * y);
    } else {
        assert(pow2(0) == 1);
        assert(a + b == b);
        assert(1 * pow2(b) == pow2(b));
    }
}

/// A number of `l` bits lies below `2^l`.
proof fn lemma_bit_len_pow(b: nat)
    ensures
        b < pow2(bit_len(b)),
    decreases b,
{
    if b > 0 {
        lemma_bit_len_pow(b / 2);
    }
}

/// A number below `2^64` has at most 64 bits.
proof fn lemma_bit_len_lt_inv(b: nat)
    ensures
        b < pow2(64) ==> bit_len(b) <= 64,
{
    lemma_bit_len_lt(b, 64);
}

fn push_tenths(s: &mut String, q: u64)
    ensures
        final(s)@ == old(s)@ + tenths_text(q as nat),
{
    push_decimal(s, q / 10);
    push_char(s, '.');
    push_decimal(s, q % 10);
    assert(final(s)@ =~= old(s)@ + tenths_text(q as nat));
}

fn push_hundredths(s: &mut String, q: u64)
    ensures
        final(s)@ == old(s)@ + hundredths_text(q as nat),
{
    push_decimal(s, q / 100);
    push_char(s, '.');
    push_decimal(s, (q % 100) / 10);
    push_decimal(s, q % 10);
    assert(final(s)@ =~= old(s)@ + hundredths_text(q as nat));
}

/// A byte count for people: `512 B`, `1.5 KB`, `2.0 MB`, `1.25 GB`.
pub fn bytes_str(b: u64) -> (r: String)
    ensures
        r@ == bytes_text(b),
{
    let mut s = String::new();
    if b < 1024 {
        push_decimal(&mut s, b);
        s.append(" B");
        proof {
            reveal_strlit(" B");
        }
    } else if b < 1024 * 1024 {
        let q = round_div(10 * b as u128, 1024);
        push_tenths(&mut s, q as u64);
        s.append(" KB");
        proof {
            reveal_strlit(" KB");
        }
    } else if b < 1024 * 1024 * 1024 {
        let q = round_div(10 * b as u128, 1024 * 1024);
        push_tenths(&mut s, q as u64);
        s.append(" MB");
        proof {
            reveal_strlit(" MB");
        }
    } else {
        let v = f64_value_exec(b);
        let q = round_div(100 * v, 1024 * 1024 * 1024);
        assert(q <= 100 * v) by (nonlinear_arith)
            requires
                q == round_half_even((100 * v) as nat, 1024 * 1024 * 1024),
        ;
        push_hundredths(&mut s, q as u64);
        s.append(" GB");
        proof {
            reveal_strlit(" GB");
        }
    }
    s
}


/// How a download proceeds.
#[derive(Debug, Clone, Copy, PartialEq, Eq, Structural)]
pub enum DownloadPlan {
    /// In `jobs` ranged segments of a file of `total_size` bytes.
    Concurrent { jobs: usize, total_size: u64 },
    /// In one stream; `range_unsupported` when the server said it cannot
    /// serve ranges (which the user is told).
    Sequential { range_unsupported: bool },
}

/// Files below this size are downloaded in one stream.
pub const MIN_CONCURRENT_SIZE: u64 = 10485760u64;

/// Each concurrent segment covers at least this many bytes.
pub const MIN_SEGMENT_SIZE: u64 = 5242880u64;

/// The plan for `jobs` requested workers, given what probing the file
/// gave (`Some((size, serves_ranges))`, or `None` when no probe was made or
/// it failed): concurrent when more than one worker was asked, the server
/// serves ranges of a file of at least 10 MiB and that leaves more than one
/// segment of at least 5 MiB.
pub open spec fn plan_for(jobs: usize, probe: Option<(u64, bool)>) -> DownloadPlan {
    if jobs > 1 {
        match probe {
            Some((size, true)) if size >= MIN_CONCURRENT_SIZE => {
                let by_size = size / MIN_SEGMENT_SIZE;
                let n = if (jobs as int) < by_size {
                    jobs as int
                } else {
                    by_size as int
                };
                if n > 1 {
                    DownloadPlan::Concurrent { jobs: n as usize, total_size: size }
                } else {
                    DownloadPlan::Sequential { range_unsupported: false }
                }
            },
            Some((_, false)) => DownloadPlan::Sequential { range_unsupported: true },
            _ => DownloadPlan::Sequential { range_unsupported: false },
        }
    } else {
        DownloadPlan::Sequential { range_unsupported: false }
    }
}

/// Decides how to download (see `plan_for`).
pub fn plan_download(jobs: usize, probe: Option<(u64, bool)>) -> (r: DownloadPlan)
    ensures
        r == plan_for(jobs, probe),
        r matches DownloadPlan::Concurrent { jobs: n, total_size } ==> 2 <= n <= jobs && n as int
            * MIN_SEGMENT_SIZE <= total_size,
        match probe {
            Some((size, true)) => jobs > 1 && size >= 10485760 && size / 5242880 >= 2 ==> r == segmented(
                if (jobs as int) < size / 5242880 {
                    jobs as int
                } else {
                    (size / 5242880) as int
                },
                size,
            ),
            _ => true,
        },
{
    if jobs > 1 {
        match probe {
            Some((size, true)) => {
                if size >= MIN_CONCURRENT_SIZE {
                    let by_size = size / MIN_SEGMENT_SIZE;
                    let n: u64 = if (jobs as u64) < by_size {
                        jobs as u64
                    } else {
                        by_size
                    };
                    assert(n * MIN_SEGMENT_SIZE <= size) by (nonlinear_arith)
                        requires
                            n <= by_size,
                            by_size == size / MIN_SEGMENT_SIZE,
                    ;
                    if n > 1 {
                        DownloadPlan::Concurrent { jobs: n as usize, total_size: size }
                    } else {
                        DownloadPlan::Sequential { range_unsupported: false }
                    }
                } else {
                    DownloadPlan::Sequential { range_unsupported: false }
                }
            },
            Some((_, false)) => DownloadPlan::Sequential { range_unsupported: true },
            None => DownloadPlan::Sequential { range_unsupported: false },
        }
    } else {
        DownloadPlan::Sequential { range_unsupported: false }
    }
}

/// One stream; `told` when the server said it cannot serve ranges.
pub open spec fn one_stream(told: bool) -> DownloadPlan {
    DownloadPlan::Sequential { range_unsupported: told }
}

/// `n` ranged segments over a file of `size` bytes.
pub open spec fn segmented(n: int, size: u64) -> DownloadPlan {
    DownloadPlan::Concurrent { jobs: n as usize, total_size: size }
}

/// What the plan is, for every request and probe: with one worker, no
/// probe, or a file under 10 MiB, one stream; with a server that does not
/// serve ranges, one stream and the user told why; otherwise
/// `min(jobs, size / 5 MiB)` ranged segments over the whole file.
pub proof fn lemma_plan(jobs: usize, size: u64, ranges: bool)
    ensures
        plan_for(jobs, None) == one_stream(false),
        jobs <= 1 ==> plan_for(jobs, Some((size, ranges))) == one_stream(false),
        jobs > 1 && !ranges ==> plan_for(jobs, Some((size, ranges))) == one_stream(true),
        ranges && size < 10485760 ==> plan_for(jobs, Some((size, ranges))) == one_stream(false),
        jobs > 1 && ranges && size >= 10485760 && jobs <= size / 5242880 ==> plan_for(
            jobs,
            Some((size, ranges)),
        ) == segmented(jobs as int, size),
        jobs > 1 && ranges && size >= 10485760 && 2 <= size / 5242880 < jobs ==> plan_for(
            jobs,
            Some((size, ranges)),
        ) == segmented((size / 5242880) as int, size),
{
}

/// The inclusive byte range of segment `i` of `jobs` over `total` bytes:
/// equal segments of `total / jobs` bytes, the last one taking the rest.
pub open spec fn segment_range(total: u64, jobs: usize, i: int) -> (int, int) {
    let seg = (total as int) / (jobs as int);
    let start = i * seg;
    let end = if i == jobs - 1 {
        total - 1
    } else {
        start + seg - 1
    };
    (start, end)
}

/// The byte ranges `(start, end)` (inclusive) of the `jobs` segments of a
/// file of `total` bytes. Together they cover every byte once, in order.
pub fn segment_ranges(total: u64, jobs: usize) -> (r: Vec<(u64, u64)>)
    requires
        1 <= jobs <= total,
    ensures
        r@.len() == jobs,
        forall|i: int|
            0 <= i < jobs ==> r@[i].0 == segment_range(total, jobs, i).0 && r@[i].1 == segment_range(
                total,
                jobs,
                i,
            ).1,
        r@[0].0 == 0,
        r@[jobs - 1].1 == total - 1,
        forall|i: int| 0 <= i < jobs ==> #[trigger] r@[i].0 <= r@[i].1,
        forall|i: int| 0 <= i < jobs - 1 ==> #[trigger] r@[i + 1].0 == r@[i].1 + 1,
{
    let seg = total / (jobs as u64);
    assert(seg >= 1) by (nonlinear_arith)
        requires
            jobs <= total,
            jobs >= 1,
            seg == (total as int) / (jobs as int),
    ;
    assert(seg * jobs <= total) by (nonlinear_arith)
        requires
            jobs >= 1,
            seg == (total as int) / (jobs as int),
    ;
    let mut r: Vec<(u64, u64)> = Vec::new();
    let mut i: usize = 0;
    while i < jobs
        invariant
            0 <= i <= jobs,
            1 <= jobs <= total,
            seg == (total as int) / (jobs as int),
            seg >= 1,
            seg * jobs <= total,
            r@.len() == i,
            forall|j: int|
                0 <= j < i ==> r@[j].0 == segment_range(total, jobs, j).0 && r@[j].1
                    == segment_range(total, jobs, j).1,
        decreases jobs - i,
    {
        assert((i as int) * seg <= (jobs as int - 1) * seg) by (nonlinear_arith)
            requires
                i < jobs,
                seg >= 1,
        ;
        assert((jobs as int - 1) * seg + seg == seg * jobs) by (nonlinear_arith);
        let start: u64 = (i as u64) * seg;
        let end: u64 = if i == jobs - 1 {
            total - 1
        } else {
            start + seg - 1
        };
        r.push((start, end));
        i += 1;
    }
    assert forall|i: int| 0 <= i < jobs - 1 implies #[trigger] r@[i + 1].0 == r@[i].1 + 1 by {
        assert((i + 1) * seg == i * seg + seg) by (nonlinear_arith);
    }
    assert forall|i: int| 0 <= i < jobs implies #[trigger] r@[i].0 <= r@[i].1 by {
        assert(i * seg <= (jobs - 1) * seg) by (nonlinear_arith)
            requires
                i < jobs,
                seg >= 1,
        ;
        assert((jobs - 1) * seg + seg == seg * jobs) by (nonlinear_arith);
    }
    r
}

/// The number of bytes of each segment sums to the file size.
pub proof fn lemma_segments_cover(total: u64, jobs: usize)
    requires
        1 <= jobs <= total,
    ensures
        forall|i: int|
            0 <= i < jobs - 1 ==> segment_range(total, jobs, i + 1).0 == #[trigger] segment_range(
                total,
                jobs,
                i,
            ).1 + 1,
        segment_range(total, jobs, 0).0 == 0,
        segment_range(total, jobs, jobs - 1).1 == total - 1,
{
    let seg = (total as int) / (jobs as int);
    assert forall|i: int| 0 <= i < jobs - 1 implies segment_range(total, jobs, i + 1).0
        == #[trigger] segment_range(total, jobs, i).1 + 1 by {
        assert((i + 1) * seg == i * seg + seg) by (nonlinear_arith);
    }
}

/// The `Range` header value that asks for everything from byte `start` on.
pub open spec fn range_from_text(start: u64) -> Seq<char> {
    seq!['b', 'y', 't', 'e', 's', '='] + decimal(start as nat) + seq!['-']
}

/// The `Range` header value for bytes `start..=end`.
pub open spec fn range_between_text(start: u64, end: u64) -> Seq<char> {
    seq!['b', 'y', 't', 'e', 's', '='] + decimal(start as nat) + seq!['-'] + decimal(end as nat)
}

/// `bytes=<start>-`: resume a download from byte `start`.
pub fn range_from(start: u64) -> (r: String)
    ensures
        r@ == range_from_text(start),
{
    let mut s = String::from_str("bytes=");
    proof {
        reveal_strlit("bytes=");
    }
    push_decimal(&mut s, start);
    push_char(&mut s, '-');
    s
}

/// `bytes=<start>-<end>`: one segment of a concurrent download.
pub fn range_between(start: u64, end: u64) -> (r: String)
    ensures
        r@ == range_between_text(start, end),
{
    let mut s = String::from_str("bytes=");
    proof {
        reveal_strlit("bytes=");
    }
    push_decimal(&mut s, start);
    push_char(&mut s, '-');
    push_decimal(&mut s, end);
    s
}

/// The index of the first `c` in `s`, if any.
pub open spec fn first_index_of(s: Seq<char>, c: char) -> Option<int> {
    if exists|i: int| 0 <= i < s.len() && s[i] == c {
        Some(choose|i: int| 0 <= i < s.len() && s[i] == c && forall|j: int| 0 <= j < i ==> s[j] != c)
    } else {
        None
    }
}

/// The second `/`-separated piece of a `Content-Range` value
/// (`split('/').nth(1)`): what lies between the first `/` and the next one
/// or the end.
pub open spec fn second_piece(s: Seq<char>) -> Option<Seq<char>> {
    match first_index_of(s, '/') {
        Some(i) => {
            let rest = s.skip(i + 1);
            match first_index_of(rest, '/') {
                Some(j) => Some(rest.take(j)),
                None => Some(rest),
            }
        },
        None => None,
    }
}

/// The complete size that a `Content-Range` value announces
/// (`bytes 0-99/1234` gives 1234).
pub open spec fn content_range_total_spec(s: Seq<char>) -> Option<u64> {
    match second_piece(s) {
        Some(p) => parse_u64_spec(p),
        None => None,
    }
}

/// Finds the first `c` in `v[from..]`.
fn find_char(v: &Vec<char>, from: usize, c: char) -> (r: Option<usize>)
    requires
        from <= v.len(),
    ensures
        match r {
            Some(i) => from <= i < v.len() && v@[i as int] == c && forall|j: int|
                from <= j < i ==> v@[j] != c,
            None => forall|j: int| from <= j < v.len() ==> v@[j] != c,
        },
{
    let mut i = from;
    while i < v.len()
        invariant
            from <= i <= v.len(),
            forall|j: int| from <= j < i ==> v@[j] != c,
        decreases v.len() - i,
    {
        if v[i] == c {
            return Some(i);
        }
        i += 1;
    }
    None
}

proof fn lemma_first_index_of(s: Seq<char>, c: char, i: int)
    requires
        0 <= i < s.len(),
        s[i] == c,
        forall|j: int| 0 <= j < i ==> s[j] != c,
    ensures
        first_index_of(s, c) == Some(i),
{
    let k = choose|k: int| 0 <= k < s.len() && s[k] == c && forall|j: int| 0 <= j < k ==> s[j] != c;
    if k < i {
        assert(s[k] != c);
    } else if k > i {
        assert(s[i] != c);
    }
}

/// The second `/`-separated piece of `v`, if there are two.
fn second_piece_of(v: &Vec<char>) -> (r: Option<String>)
    ensures
        match r {
            Some(p) => second_piece(v@) == Some(p@),
            None => second_piece(v@).is_none(),
        },
{
    match find_char(v, 0, '/') {
        Some(i) => {
            proof {
                lemma_first_index_of(v@, '/', i as int);
            }
            let ghost rest = v@.skip(i + 1);
            match find_char(v, i + 1, '/') {
                Some(j) => {
                    proof {
                        assert forall|k: int| 0 <= k < j - (i + 1) implies rest[k] != '/' by {
                            assert(rest[k] == v@[k + i + 1]);
                        }
                        assert(rest[j - (i + 1)] == '/');
                        lemma_first_index_of(rest, '/', j - (i + 1));
                    }
                    let piece = crate::text::string_from_chars(v, i + 1, j);
                    assert(piece@ =~= rest.take(j - (i + 1)));
                    Some(piece)
                },
                None => {
                    proof {
                        assert forall|k: int| 0 <= k < rest.len() implies rest[k] != '/' by {
                            assert(rest[k] == v@[k + i + 1]);
                        }
                        assert(first_index_of(rest, '/').is_none());
                    }
                    let piece = crate::text::string_from_chars(v, i + 1, v.len());
                    assert(piece@ =~= rest);
                    Some(piece)
                },
            }
        },
        None => {
            assert(first_index_of(v@, '/').is_none());
            None
        },
    }
}

/// The complete size announced by a `Content-Range` value.
pub fn content_range_total(s: &str) -> (r: Option<u64>)
    ensures
        r == content_range_total_spec(s@),
{
    let v = crate::text::chars_of(s);
    match second_piece_of(&v) {
        Some(p) => parse_u64(p.as_str()),
        None => None,
    }
}

/// The full size of a file as its download response tells it: from
/// `Content-Range` on a partial answer, from `Content-Length` otherwise;
/// zero when unknown.
pub open spec fn reported_total_spec(partial: bool, content_range: Option<Seq<char>>, content_length: Option<u64>) -> u64 {
    let t = if partial {
        match content_range {
            Some(cr) => content_range_total_spec(cr),
            None => None,
        }
    } else {
        content_length
    };
    match t {
        Some(n) => n,
        None => 0,
    }
}

/// The full size of a file as its download response tells it.
pub fn reported_total(partial: bool, content_range: Option<&str>, content_length: Option<u64>) -> (r: u64)
    ensures
        r == reported_total_spec(
            partial,
            match content_range {
                Some(cr) => Some(cr@),
                None => None,
            },
            content_length,
        ),
{
    let t = if partial {
        match content_range {
            Some(cr) => content_range_total(cr),
            None => None,
        }
    } else {
        content_length
    };
    match t {
        Some(n) => n,
        None => 0,
    }
}

/// Whether a download reply with HTTP status `status` delivers the file:
/// a success (2xx) or a partial reply `206`.
pub fn download_ok(status: u16) -> (r: bool)
    ensures
        r == ((200 <= status <= 299) || status == 206),
{
    (200 <= status && status <= 299) || status == 206
}

/// The `Range` header of a download that resumes after `existing` bytes:
/// none when nothing is on disk, else `bytes=<existing>-`.
pub fn resume_range(existing: u64) -> (r: Option<String>)
    ensures
        r is Some <==> existing > 0,
        r matches Some(h) ==> h@ == range_from_text(existing),
{
    if existing > 0 {
        Some(range_from(existing))
    } else {
        None
    }
}

/// Whether a resumed download must start over: bytes were asked from
/// `resume_from > 0` on, but the server answered with the whole file (not
/// a partial `206` reply), so the bytes on disk are to be dropped before
/// the reply is written.
pub fn restart_needed(resume_from: u64, partial: bool) -> (r: bool)
    ensures
        r == (resume_from > 0 && !partial),
{
    resume_from > 0 && !partial
}

/// A resource reached through a proxy: the proxy prefix followed by the
/// resource's own url.
pub fn proxied_url(proxy: &str, url: &str) -> (r: String)
    ensures
        r@ == proxy@ + url@,
{
    concat(proxy, url)
}


/// The SHA-256 digest of `data`, as `sha2` computes it.
pub uninterp spec fn spec_sha256(data: Seq<u8>) -> Seq<u8>;

/// `sha2::Sha256::digest`: the SHA-256 digest of `data` (32 bytes, the
/// output size of `Sha256`). The contract names the digest as a function of
/// the data and states its length; it does not describe SHA-256.
#[verifier::external_body]
fn sha256(data: &[u8]) -> (r: Vec<u8>)
    ensures
        r@ == spec_sha256(data@),
        r@.len() == 32,
{
    <sha2::Sha256 as sha2::Digest>::digest(data).to_vec()
}

/// The lowercase hexadecimal digit of `n < 16`.
pub open spec fn hex_digit(n: int) -> char {
    if n < 10 {
        (48 + n) as char
    } else {
        (87 + n) as char
    }
}

/// The lowercase hexadecimal text of `bytes`, two digits per byte.
pub open spec fn hex_text(bytes: Seq<u8>) -> Seq<char>
    decreases bytes.len(),
{
    if bytes.len() == 0 {
        Seq::empty()
    } else {
        hex_text(bytes.drop_last()) + seq![
            hex_digit(bytes.last() as int / 16),
            hex_digit(bytes.last() as int % 16),
        ]
    }
}

/// The checksum text of `data`: `sha256:` and the digest in lowercase hex.
pub open spec fn checksum_text(data: Seq<u8>) -> Seq<char> {
    seq!['s', 'h', 'a', '2', '5', '6', ':'] + hex_text(spec_sha256(data))
}

fn hex_char(n: u8) -> (c: char)
    requires
        n < 16,
    ensures
        c == hex_digit(n as int),
{
    if n < 10 {
        (48u8 + n) as char
    } else {
        (87u8 + n) as char
    }
}

/// The lowercase hexadecimal digits.
pub open spec fn is_hex_digit(c: char) -> bool {
    ('0' <= c && c <= '9') || ('a' <= c && c <= 'f')
}

proof fn lemma_hex_text(bytes: Seq<u8>)
    ensures
        hex_text(bytes).len() == 2 * bytes.len(),
        forall|i: int| 0 <= i < hex_text(bytes).len() ==> is_hex_digit(#[trigger] hex_text(bytes)[i]),
    decreases bytes.len(),
{
    if bytes.len() > 0 {
        lemma_hex_text(bytes.drop_last());
        let h = hex_text(bytes.drop_last());
        let b = bytes.last();
        assert forall|x: int| 0 <= x < 16 implies #[trigger] is_hex_digit(hex_digit(x)) by {
            if x < 10 {
                assert(hex_digit(x) as int == 48 + x);
            } else {
                assert(hex_digit(x) as int == 87 + x);
            }
        }
        assert(is_hex_digit(hex_digit(b as int / 16)));
        assert(is_hex_digit(hex_digit(b as int % 16)));
        assert forall|i: int| 0 <= i < hex_text(bytes).len() implies is_hex_digit(#[trigger] hex_text(bytes)[i]) by {
            if i < h.len() {
                assert(hex_text(bytes)[i] == h[i]);
            }
        }
    }
}

/// The checksum of `data` as GitHub writes asset digests:
/// `sha256:<lowercase hex>`, 71 characters.
pub fn sha256_checksum(data: &[u8]) -> (r: String)
    ensures
        r@ == checksum_text(data@),
        r@.len() == 71,
        forall|i: int| 7 <= i < 71 ==> is_hex_digit(#[trigger] r@[i]),
{
    let digest = sha256(data);
    let mut s = String::from_str("sha256:");
    proof {
        reveal_strlit("sha256:");
    }
    let ghost d = digest@;
    let mut i: usize = 0;
    assert(d.take(0) =~= Seq::<u8>::empty());
    while i < digest.len()
        invariant
            0 <= i <= digest.len(),
            d == digest@,
            s@ == seq!['s', 'h', 'a', '2', '5', '6', ':'] + hex_text(d.take(i as int)),
        decreases digest.len() - i,
    {
        let b = digest[i];
        assert(d.take(i + 1).drop_last() =~= d.take(i as int));
        push_char(&mut s, hex_char(b / 16));
        push_char(&mut s, hex_char(b % 16));
        assert(s@ =~= seq!['s', 'h', 'a', '2', '5', '6', ':'] + hex_text(d.take(i + 1)));
        i += 1;
    }
    assert(d.take(digest.len() as int) =~= d);
    proof {
        lemma_hex_text(d);
        let pre = seq!['s', 'h', 'a', '2', '5', '6', ':'];
        assert forall|i: int| 7 <= i < 71 implies is_hex_digit(#[trigger] s@[i]) by {
            assert(s@[i] == hex_text(d)[i - 7]);
        }
    }
    s
}

/// Whether `data` has the checksum `expected` (`sha256:<hex>`).
pub fn checksum_matches(data: &[u8], expected: &str) -> (r: bool)
    ensures
        r == (checksum_text(data@) == expected@),
{
    let actual = sha256_checksum(data);
    actual == String::from_str(expected)
}


/// The warning printed when a file's checksum differs from the expected
/// one.
pub open spec fn mismatch_text(expected: Seq<char>, actual: Seq<char>) -> Seq<char> {
    "  ⚠ checksum 不匹配，文件可能已损坏\n    期望: "@ + expected + "\n    实际: "@ + actual
}

/// Checks a downloaded file against its expected checksum, which only
/// warns: `None` when `data` has the checksum `expected`, else the warning
/// naming both checksums. The download stands either way.
pub fn checksum_warning(data: &[u8], expected: &str) -> (r: Option<String>)
    ensures
        r is None <==> checksum_text(data@) == expected@,
        r matches Some(m) ==> m@ == mismatch_text(expected@, checksum_text(data@)),
{
    let actual = sha256_checksum(data);
    if actual == String::from_str(expected) {
        None
    } else {
        let head = concat("  ⚠ checksum 不匹配，文件可能已损坏\n    期望: ", expected);
        let mid = concat(head.as_str(), "\n    实际: ");
        Some(concat(mid.as_str(), actual.as_str()))
    }
}

/// The total size announced in a `Content-Range` value written as
/// `bytes <first>-<last>/<total>` is read back exactly.
#[verifier::spinoff_prover]
#[verifier::rlimit(30)]
pub proof fn lemma_content_range_roundtrip(first: u64, last: u64, total: u64)
    ensures
        content_range_total_spec(
            seq!['b', 'y', 't', 'e', 's', ' '] + decimal(first as nat) + seq!['-'] + decimal(
                last as nat,
            ) + seq!['/'] + decimal(total as nat),
        ) == Some(total),
{
    let a = decimal(first as nat);
    let b = decimal(last as nat);
    let t = decimal(total as nat);
    lemma_decimal_digits(first as nat);
    lemma_decimal_digits(last as nat);
    lemma_decimal_digits(total as nat);
    lemma_parse_decimal_roundtrip(total);
    let head = seq!['b', 'y', 't', 'e', 's', ' '] + a + seq!['-'] + b;
    let s = head + seq!['/'] + t;
    let i = head.len() as int;
    assert(s[i] == '/');
    assert forall|j: int| 0 <= j < i implies s[j] != '/' by {
        assert(s[j] == head[j]);
        if 6 <= j < 6 + a.len() {
            assert(head[j] == a[j - 6]);
            assert(is_digit(a[j - 6]));
        } else if 7 + a.len() <= j < i {
            assert(head[j] == b[j - 7 - a.len()]);
            assert(is_digit(b[j - 7 - a.len()]));
        }
    }
    lemma_first_index_of(s, '/', i);
    let rest = s.skip(i + 1);
    assert(rest =~= t);
    assert forall|j: int| 0 <= j < rest.len() implies rest[j] != '/' by {
        assert(is_digit(t[j]));
    }
    assert(first_index_of(rest, '/').is_none());
}

} // verus!
