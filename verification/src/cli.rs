//! Decisions of the command line: which url was given, under which file
//! name a download is written.

use vstd::prelude::*;
use crate::config::ProxyStatus;
use crate::text::{chars_of, decimal, push_char, push_decimal, string_from_chars};

verus! {

/// `char::is_whitespace`: the characters with the Unicode `White_Space`
/// property.
pub open spec fn is_whitespace(c: char) -> bool {
    let n = c as u32;
    ||| 0x09 <= n <= 0x0d
    ||| n == 0x20
    ||| n == 0x85
    ||| n == 0xa0
    ||| n == 0x1680
    ||| 0x2000 <= n <= 0x200a
    ||| n == 0x2028
    ||| n == 0x2029
    ||| n == 0x202f
    ||| n == 0x205f
    ||| n == 0x3000
}

fn is_whitespace_exec(c: char) -> (r: bool)
    ensures
        r == is_whitespace(c),
{
    let n = c as u32;
    (0x09 <= n && n <= 0x0d) || n == 0x20 || n == 0x85 || n == 0xa0 || n == 0x1680 || (0x2000 <= n
        && n <= 0x200a) || n == 0x2028 || n == 0x2029 || n == 0x202f || n == 0x205f || n == 0x3000
}

/// `s` without leading whitespace.
pub open spec fn trim_start_ws(s: Seq<char>) -> Seq<char>
    decreases s.len(),
{
    if s.len() > 0 && is_whitespace(s[0]) {
        trim_start_ws(s.drop_first())
    } else {
        s
    }
}

/// `s` without trailing whitespace.
pub open spec fn trim_end_ws(s: Seq<char>) -> Seq<char>
    decreases s.len(),
{
    if s.len() > 0 && is_whitespace(s.last()) {
        trim_end_ws(s.drop_last())
    } else {
        s
    }
}

/// `s` without leading and trailing whitespace (`str::trim`).
pub open spec fn trim_spec(s: Seq<char>) -> Seq<char> {
    trim_end_ws(trim_start_ws(s))
}

/// The url as given, without surrounding whitespace (`str::trim`).
pub fn trim(s: &str) -> (r: String)
    ensures
        r@ == trim_spec(s@),
{
    let v = chars_of(s);
    let mut lo: usize = 0;
    assert(v@.subrange(0, v@.len() as int) =~= v@);
    while lo < v.len() && is_whitespace_exec(v[lo])
        invariant
            0 <= lo <= v.len(),
            trim_start_ws(v@.subrange(lo as int, v@.len() as int)) == trim_start_ws(v@),
        decreases v.len() - lo,
    {
        assert(v@.subrange(lo as int, v@.len() as int).drop_first() =~= v@.subrange(
            lo + 1,
            v@.len() as int,
        ));
        lo += 1;
    }
    let mut hi: usize = v.len();
    assert(trim_start_ws(v@) == v@.subrange(lo as int, v@.len() as int));
    while hi > lo && is_whitespace_exec(v[hi - 1])
        invariant
            0 <= lo <= hi <= v.len(),
            trim_end_ws(v@.subrange(lo as int, hi as int)) == trim_spec(v@),
        decreases hi,
    {
        assert(v@.subrange(lo as int, hi as int).drop_last() =~= v@.subrange(
            lo as int,
            hi - 1,
        ));
        hi -= 1;
    }
    string_from_chars(&v, lo, hi)
}

/// What follows the last `/` of `s`, or all of `s` when it has none
/// (`rsplit('/').next()`).
pub open spec fn last_segment(s: Seq<char>) -> Seq<char>
    decreases s.len(),
{
    if s.len() == 0 {
        s
    } else if s.last() == '/' {
        Seq::empty()
    } else {
        last_segment(s.drop_last()).push(s.last())
    }
}

/// The name shown for a download streamed to standard output: what
/// follows the url's last `/`.
pub fn display_name(url: &str) -> (r: String)
    ensures
        r@ == last_segment(url@),
{
    let v = chars_of(url);
    let mut lo: usize = v.len();
    assert(v@.subrange(v@.len() as int, v@.len() as int) =~= Seq::<char>::empty());
    assert(v@.subrange(0, v@.len() as int) =~= v@);
    assert(last_segment(v@) + Seq::<char>::empty() =~= last_segment(v@));
    while lo > 0 && v[lo - 1] != '/'
        invariant
            0 <= lo <= v.len(),
            last_segment(v@) == last_segment(v@.subrange(0, lo as int)) + v@.subrange(
                lo as int,
                v@.len() as int,
            ),
        decreases lo,
    {
        let ghost pre = v@.subrange(0, lo as int);
        assert(pre.drop_last() =~= v@.subrange(0, lo - 1));
        assert(v@.subrange(lo - 1, v@.len() as int) =~= seq![v@[lo - 1]] + v@.subrange(
            lo as int,
            v@.len() as int,
        ));
        assert(last_segment(pre) == last_segment(v@.subrange(0, lo - 1)).push(v@[lo - 1]));
        assert(last_segment(v@.subrange(0, lo - 1)).push(v@[lo - 1]) + v@.subrange(lo as int, v@.len() as int)
            =~= last_segment(v@.subrange(0, lo - 1)) + v@.subrange(lo - 1, v@.len() as int));
        lo -= 1;
    }
    assert(last_segment(v@.subrange(0, lo as int)) =~= Seq::<char>::empty());
    string_from_chars(&v, lo, v.len())
}

/// The file name a download is saved under: what follows the url's last
/// `/`, or `unknown` when that is empty.
pub open spec fn file_name_spec(url: Seq<char>) -> Seq<char> {
    if last_segment(url).len() > 0 {
        last_segment(url)
    } else {
        seq!['u', 'n', 'k', 'n', 'o', 'w', 'n']
    }
}

/// The file name a download is saved under (see `file_name_spec`).
pub fn output_file_name(url: &str) -> (r: String)
    ensures
        r@ == file_name_spec(url@),
{
    let s = display_name(url);
    if s.as_str().unicode_len() > 0 {
        s
    } else {
        let r = String::from_str("unknown");
        proof {
            reveal_strlit("unknown");
            assert("unknown"@ =~= seq!['u', 'n', 'k', 'n', 'o', 'w', 'n']);
        }
        r
    }
}


/// The status column of the proxy table: a check mark for healthy proxies,
/// a cross for dead ones (marked as cooling down when a deadline is set),
/// a circle for untested ones.
pub open spec fn status_label_spec(status: ProxyStatus, cooling: bool) -> Seq<char> {
    match status {
        ProxyStatus::Healthy => seq!['\u{2713}'],
        ProxyStatus::Dead => if cooling {
            seq!['\u{2717}', ' ', '\u{51b7}', '\u{5374}']
        } else {
            seq!['\u{2717}']
        },
        ProxyStatus::Unknown => seq!['\u{25cb}'],
    }
}

/// The status column of the proxy table (see `status_label_spec`).
pub fn status_label(status: ProxyStatus, cooling: bool) -> (r: String)
    ensures
        r@ == status_label_spec(status, cooling),
{
    let mut r = String::new();
    match status {
        ProxyStatus::Healthy => push_char(&mut r, '\u{2713}'),
        ProxyStatus::Dead => {
            push_char(&mut r, '\u{2717}');
            if cooling {
                push_char(&mut r, ' ');
                push_char(&mut r, '\u{51b7}');
                push_char(&mut r, '\u{5374}');
            }
        },
        ProxyStatus::Unknown => push_char(&mut r, '\u{25cb}'),
    }
    assert(r@ =~= status_label_spec(status, cooling));
    r
}

/// The latency column of the proxy table: `<n>ms`, or `-` when unmeasured.
pub open spec fn latency_label_spec(latency_ms: Option<u64>) -> Seq<char> {
    match latency_ms {
        Some(m) => decimal(m as nat) + seq!['m', 's'],
        None => seq!['-'],
    }
}

/// The latency column of the proxy table (see `latency_label_spec`).
pub fn latency_label(latency_ms: Option<u64>) -> (r: String)
    ensures
        r@ == latency_label_spec(latency_ms),
{
    let mut r = String::new();
    match latency_ms {
        Some(m) => {
            push_decimal(&mut r, m);
            push_char(&mut r, 'm');
            push_char(&mut r, 's');
        },
        None => push_char(&mut r, '-'),
    }
    assert(r@ =~= latency_label_spec(latency_ms));
    r
}

/// A download is never saved under an empty name.
pub proof fn lemma_file_name_not_empty(url: Seq<char>)
    ensures
        file_name_spec(url).len() > 0,
{
}

} // verus!
