use vstd::prelude::*;

verus! {

/// A byte range of a remote file to ask for.
pub enum Range {
    /// The bytes from the first offset to the second, both included.
    FromPositionTo(u64, u64),
    /// The last bytes of the file, this many.
    FromEnd(u64),
}

/// The decimal digits of `n`, most significant first, as ASCII bytes.
pub open spec fn decimal(n: nat) -> Seq<u8>
    decreases n,
{
    if n < 10 {
        seq![(48 + n) as u8]
    } else {
        decimal(n / 10).push((48 + n % 10) as u8)
    }
}

/// The ASCII bytes of `bytes=`.
pub open spec fn bytes_eq_prefix() -> Seq<u8> {
    seq![98u8, 121u8, 116u8, 101u8, 115u8, 61u8]
}

/// The value of the `Range` header that asks for `range`:
/// `bytes=<first>-<last>` or `bytes=-<count>`.
pub open spec fn range_header_spec(range: Range) -> Seq<u8> {
    match range {
        Range::FromPositionTo(first, last) => bytes_eq_prefix() + decimal(first as nat) + seq![45u8]
            + decimal(last as nat),
        Range::FromEnd(count) => bytes_eq_prefix() + seq![45u8] + decimal(count as nat),
    }
}

fn push_decimal(out: &mut Vec<u8>, n: u64)
    ensures
        final(out)@ == old(out)@ + decimal(n as nat),
    decreases n,
{
    if n < 10 {
        out.push((48 + n) as u8);
    } else {
        push_decimal(out, n / 10);
        out.push((48 + n % 10) as u8);
        proof {
            assert(old(out)@ + decimal(n as nat) =~= old(out)@ + decimal((n / 10) as nat) + seq![
                (48 + n % 10) as u8,
            ]);
        }
    }
}

/// The value of the `Range` header that asks for `range`, as ASCII bytes.
pub fn range_header(range: &Range) -> (r: Vec<u8>)
    ensures
        r@ == range_header_spec(*range),
{
    let mut out: Vec<u8> = Vec::new();
    out.push(98);
    out.push(121);
    out.push(116);
    out.push(101);
    out.push(115);
    out.push(61);
    assert(out@ =~= bytes_eq_prefix());
    match range {
        Range::FromPositionTo(first, last) => {
            push_decimal(&mut out, *first);
            out.push(45);
            push_decimal(&mut out, *last);
        },
        Range::FromEnd(count) => {
            out.push(45);
            push_decimal(&mut out, *count);
        },
    }
    assert(out@ =~= range_header_spec(*range));
    out
}

/// `b` is an ASCII digit.
pub open spec fn is_digit(b: u8) -> bool {
    48 <= b <= 57
}

/// The number that the digits of `s` write, most significant first.
pub open spec fn digits_value(s: Seq<u8>) -> nat
    decreases s.len(),
{
    if s.len() == 0 {
        0
    } else {
        digits_value(s.drop_last()) * 10 + (s.last() - 48) as nat
    }
}

/// `s` is one or more ASCII digits.
pub open spec fn all_digits(s: Seq<u8>) -> bool {
    s.len() > 0 && forall|i: int| 0 <= i < s.len() ==> is_digit(#[trigger] s[i])
}

/// The ASCII bytes of `bytes ` (with the space).
pub open spec fn bytes_unit_prefix() -> Seq<u8> {
    seq![98u8, 121u8, 116u8, 101u8, 115u8, 32u8]
}

/// `value` is a `Content-Range` value `bytes <first>-<last>/<total>` whose
/// three numbers are written `first`, `last` and `total`.
pub open spec fn content_range_form(value: Seq<u8>, first: Seq<u8>, last: Seq<u8>, total: Seq<u8>) -> bool {
    &&& all_digits(first)
    &&& all_digits(last)
    &&& all_digits(total)
    &&& value == bytes_unit_prefix() + first + seq![45u8] + last + seq![47u8] + total
}

/// The run of digits at the start of `s[from..]` ends at `r`.
fn digits_end(s: &[u8], from: usize) -> (r: usize)
    requires
        from <= s@.len(),
    ensures
        from <= r <= s@.len(),
        forall|i: int| from <= i < r ==> is_digit(#[trigger] s@[i]),
        r < s@.len() ==> !is_digit(s@[r as int]),
{
    let mut i = from;
    while i < s.len() && 48 <= s[i] && s[i] <= 57
        invariant
            from <= i <= s@.len(),
            forall|j: int| from <= j < i ==> is_digit(#[trigger] s@[j]),
        decreases s@.len() - i,
    {
        i = i + 1;
    }
    i
}

/// The value of the digits `s[from..to]`, if it fits in a `u64`.
fn digits_to_u64(s: &[u8], from: usize, to: usize) -> (r: Option<u64>)
    requires
        from <= to <= s@.len(),
        forall|i: int| from <= i < to ==> is_digit(#[trigger] s@[i]),
    ensures
        digits_value(s@.subrange(from as int, to as int)) <= u64::MAX ==> r == Some(
            digits_value(s@.subrange(from as int, to as int)) as u64,
        ),
        digits_value(s@.subrange(from as int, to as int)) > u64::MAX ==> r is None,
{
    let mut acc: u64 = 0;
    let mut i = from;
    assert(s@.subrange(from as int, from as int) =~= Seq::<u8>::empty());
    while i < to
        invariant
            from <= i <= to <= s@.len(),
            forall|j: int| from <= j < to ==> is_digit(#[trigger] s@[j]),
            acc == digits_value(s@.subrange(from as int, i as int)),
        decreases to - i,
    {
        let d: u64 = (s[i] - 48) as u64;
        assert(s@.subrange(from as int, i + 1).drop_last() =~= s@.subrange(from as int, i as int));
        if acc > (u64::MAX - d) / 10 {
            proof {
                lemma_digits_grow(s@, from as int, i as int + 1, to as int);
                assert(digits_value(s@.subrange(from as int, i + 1)) == acc * 10 + d);
                assert(acc * 10 + d > u64::MAX) by (nonlinear_arith)
                    requires
                        acc > (u64::MAX - d) / 10,
                        d <= 9,
                ;
            }
            return None;
        }
        assert(acc * 10 + d <= u64::MAX) by (nonlinear_arith)
            requires
                acc <= (u64::MAX - d) / 10,
                d <= 9,
        ;
        acc = acc * 10 + d;
        i = i + 1;
    }
    Some(acc)
}

proof fn lemma_digits_grow(s: Seq<u8>, from: int, mid: int, to: int)
    requires
        0 <= from <= mid <= to <= s.len(),
    ensures
        digits_value(s.subrange(from, mid)) <= digits_value(s.subrange(from, to)),
    decreases to - mid,
{
    if mid < to {
        lemma_digits_grow(s, from, mid, to - 1);
        assert(s.subrange(from, to).drop_last() =~= s.subrange(from, to - 1));
    }
}

/// The total length of the file that a `Content-Range` value
/// `bytes <first>-<last>/<total>` reports, when the value has that form and
/// the total fits in a `u64`; `None` otherwise (an unknown total is `*`).
pub fn content_range_total(value: &[u8]) -> (r: Option<u64>)
    ensures
        r matches Some(n) ==> exists|first: Seq<u8>, last: Seq<u8>, total: Seq<u8>|
            content_range_form(value@, first, last, total) && digits_value(total) == n,
        (exists|first: Seq<u8>, last: Seq<u8>, total: Seq<u8>|
            content_range_form(value@, first, last, total) && digits_value(total) <= u64::MAX) ==> r
            is Some,
{
    let n = value.len();
    if n < 6 || value[0] != 98 || value[1] != 121 || value[2] != 116 || value[3] != 101
        || value[4] != 115 || value[5] != 32 {
        proof {
            lemma_no_form_prefix(value@);
        }
        return None;
    }
    let a_end = digits_end(value, 6);
    if a_end == 6 || a_end >= n || value[a_end] != 45 {
        proof {
            lemma_no_form_first(value@, a_end as int);
        }
        return None;
    }
    let b_end = digits_end(value, a_end + 1);
    if b_end == a_end + 1 || b_end >= n || value[b_end] != 47 {
        proof {
            lemma_no_form_last(value@, a_end as int, b_end as int);
        }
        return None;
    }
    let c_end = digits_end(value, b_end + 1);
    if c_end == b_end + 1 || c_end != n {
        proof {
            lemma_no_form_total(value@, a_end as int, b_end as int, c_end as int);
        }
        return None;
    }
    let ghost first = value@.subrange(6, a_end as int);
    let ghost last = value@.subrange(a_end + 1, b_end as int);
    let ghost total = value@.subrange(b_end + 1, n as int);
    assert(value@ =~= bytes_unit_prefix() + first + seq![45u8] + last + seq![47u8] + total);
    assert(content_range_form(value@, first, last, total));
    let r = digits_to_u64(value, b_end + 1, n);
    proof {
        if r is None {
            assert forall|f: Seq<u8>, l: Seq<u8>, t: Seq<u8>|
                content_range_form(value@, f, l, t) implies digits_value(t) > u64::MAX by {
                lemma_form_unique(value@, f, l, t, first, last, total);
            }
        }
    }
    r
}

proof fn lemma_form_parts(value: Seq<u8>, f: Seq<u8>, l: Seq<u8>, t: Seq<u8>)
    requires
        content_range_form(value, f, l, t),
    ensures
        value.len() == 6 + f.len() + 1 + l.len() + 1 + t.len(),
        value.subrange(0, 6) == bytes_unit_prefix(),
        forall|i: int| 0 <= i < f.len() ==> value[6 + i] == f[i],
        value[6 + f.len() as int] == 45u8,
        forall|i: int| 0 <= i < l.len() ==> value[7 + f.len() + i] == l[i],
        value[7 + f.len() as int + l.len() as int] == 47u8,
        forall|i: int| 0 <= i < t.len() ==> value[8 + f.len() + l.len() + i] == t[i],
{
    let w = bytes_unit_prefix() + f + seq![45u8] + l + seq![47u8] + t;
    assert(w.subrange(0, 6) =~= bytes_unit_prefix());
}

proof fn lemma_no_form_prefix(value: Seq<u8>)
    requires
        value.len() < 6 || value.subrange(0, 6) != bytes_unit_prefix(),
    ensures
        forall|f: Seq<u8>, l: Seq<u8>, t: Seq<u8>| !content_range_form(value, f, l, t),
{
    assert forall|f: Seq<u8>, l: Seq<u8>, t: Seq<u8>| !content_range_form(value, f, l, t) by {
        if content_range_form(value, f, l, t) {
            lemma_form_parts(value, f, l, t);
        }
    }
}

proof fn lemma_no_form_first(value: Seq<u8>, a_end: int)
    requires
        6 <= a_end <= value.len(),
        forall|i: int| 6 <= i < a_end ==> is_digit(#[trigger] value[i]),
        a_end < value.len() ==> !is_digit(value[a_end]),
        a_end == 6 || a_end >= value.len() || value[a_end] != 45u8,
    ensures
        forall|f: Seq<u8>, l: Seq<u8>, t: Seq<u8>| !content_range_form(value, f, l, t),
{
    assert forall|f: Seq<u8>, l: Seq<u8>, t: Seq<u8>| !content_range_form(value, f, l, t) by {
        if content_range_form(value, f, l, t) {
            lemma_form_parts(value, f, l, t);
            let e: int = 6 + f.len() as int;
            if e < a_end {
                assert(is_digit(value[e]));
            } else if e > a_end {
                assert(is_digit(f[a_end - 6]));
            }
        }
    }
}

proof fn lemma_no_form_last(value: Seq<u8>, a_end: int, b_end: int)
    requires
        6 < a_end < b_end <= value.len() || (6 < a_end && a_end + 1 == b_end && b_end <= value.len()),
        forall|i: int| 6 <= i < a_end ==> is_digit(#[trigger] value[i]),
        !is_digit(value[a_end]),
        value[a_end] == 45u8,
        forall|i: int| a_end + 1 <= i < b_end ==> is_digit(#[trigger] value[i]),
        b_end < value.len() ==> !is_digit(value[b_end]),
        b_end == a_end + 1 || b_end >= value.len() || value[b_end] != 47u8,
    ensures
        forall|f: Seq<u8>, l: Seq<u8>, t: Seq<u8>| !content_range_form(value, f, l, t),
{
    assert forall|f: Seq<u8>, l: Seq<u8>, t: Seq<u8>| !content_range_form(value, f, l, t) by {
        if content_range_form(value, f, l, t) {
            lemma_form_parts(value, f, l, t);
            let e: int = 6 + f.len() as int;
            if e < a_end {
                assert(is_digit(value[e]));
            } else if e > a_end {
                assert(is_digit(f[a_end - 6]));
            }
            let e2: int = 7 + f.len() as int + l.len() as int;
            if e2 < b_end {
                assert(is_digit(value[e2]));
            } else if e2 > b_end {
                assert(is_digit(l[b_end - a_end - 1]));
            }
        }
    }
}

proof fn lemma_no_form_total(value: Seq<u8>, a_end: int, b_end: int, c_end: int)
    requires
        6 < a_end,
        a_end + 1 < b_end < value.len(),
        b_end + 1 <= c_end <= value.len(),
        forall|i: int| 6 <= i < a_end ==> is_digit(#[trigger] value[i]),
        value[a_end] == 45u8,
        forall|i: int| a_end + 1 <= i < b_end ==> is_digit(#[trigger] value[i]),
        value[b_end] == 47u8,
        forall|i: int| b_end + 1 <= i < c_end ==> is_digit(#[trigger] value[i]),
        c_end < value.len() ==> !is_digit(value[c_end]),
        c_end == b_end + 1 || c_end != value.len(),
    ensures
        forall|f: Seq<u8>, l: Seq<u8>, t: Seq<u8>| !content_range_form(value, f, l, t),
{
    assert forall|f: Seq<u8>, l: Seq<u8>, t: Seq<u8>| !content_range_form(value, f, l, t) by {
        if content_range_form(value, f, l, t) {
            lemma_form_parts(value, f, l, t);
            let e: int = 6 + f.len() as int;
            if e < a_end {
                assert(is_digit(value[e]));
            } else if e > a_end {
                assert(is_digit(f[a_end - 6]));
            }
            let e2: int = 7 + f.len() as int + l.len() as int;
            if e2 < b_end {
                assert(is_digit(value[e2]));
            } else if e2 > b_end {
                assert(is_digit(l[b_end - a_end - 1]));
            }
            if c_end < value.len() {
                assert(is_digit(t[c_end - b_end - 1]));
            }
        }
    }
}

proof fn lemma_form_unique(
    value: Seq<u8>,
    f: Seq<u8>,
    l: Seq<u8>,
    t: Seq<u8>,
    f2: Seq<u8>,
    l2: Seq<u8>,
    t2: Seq<u8>,
)
    requires
        content_range_form(value, f, l, t),
        content_range_form(value, f2, l2, t2),
    ensures
        t == t2,
{
    lemma_form_parts(value, f, l, t);
    lemma_form_parts(value, f2, l2, t2);
    if f.len() < f2.len() {
        assert(is_digit(f2[f.len() as int]));
    } else if f.len() > f2.len() {
        assert(is_digit(f[f2.len() as int]));
    }
    if l.len() < l2.len() {
        assert(is_digit(l2[l.len() as int]));
    } else if l.len() > l2.len() {
        assert(is_digit(l[l2.len() as int]));
    }
    assert(t =~= t2);
}

/// The range that covers `length` bytes from `start` on; `None` for an
/// empty range or one that ends past the last `u64` offset.
pub fn range_for(start: u64, length: u64) -> (r: Option<Range>)
    ensures
        length > 0 && start + length - 1 <= u64::MAX ==> r == Some(
            Range::FromPositionTo(start, (start + length - 1) as u64),
        ),
        !(length > 0 && start + length - 1 <= u64::MAX) ==> r is None,
{
    if length == 0 || start > u64::MAX - (length - 1) {
        None
    } else {
        Some(Range::FromPositionTo(start, start + (length - 1)))
    }
}

/// The ASCII bytes of `PAR1`, which end every Parquet file.
pub open spec fn parquet_magic() -> Seq<u8> {
    seq![80u8, 65u8, 82u8, 49u8]
}

/// Whether the last bytes of a file are the Parquet magic number.
pub fn is_parquet_tail(tail: &[u8]) -> (r: bool)
    ensures
        r == (tail@ == parquet_magic()),
{
    if tail.len() != 4 {
        return false;
    }
    let r = tail[0] == 80 && tail[1] == 65 && tail[2] == 82 && tail[3] == 49;
    if r {
        assert(tail@ =~= parquet_magic());
    }
    r
}

/// How a failed object-store request failed.
pub enum FailureKind {
    /// The request did not get through, or its reply could not be read.
    Transport,
    /// The store answered with a server error.
    ServerError,
    /// Any other failure: retrying will not help.
    Other,
}

/// What to do after a failed request.
#[derive(PartialEq, Eq, Debug)]
pub enum RetryDecision {
    /// Wait, then try again.
    Retry,
    /// Give the failure to the caller.
    GiveUp,
}

/// Transport failures and server errors are retried while retries remain;
/// each retry uses one. Other failures are given up at once.
pub fn retry_decision(remaining_retries: usize, kind: &FailureKind) -> (r: (RetryDecision, usize))
    ensures
        remaining_retries == 0 ==> r == (RetryDecision::GiveUp, 0usize),
        remaining_retries > 0 && (kind is Other) ==> r == (RetryDecision::GiveUp, (remaining_retries - 1) as usize),
        remaining_retries > 0 && !(kind is Other) ==> r == (RetryDecision::Retry, (remaining_retries - 1) as usize),
{
    if remaining_retries == 0 {
        return (RetryDecision::GiveUp, 0);
    }
    let left = remaining_retries - 1;
    match kind {
        FailureKind::Other => (RetryDecision::GiveUp, left),
        _ => (RetryDecision::Retry, left),
    }
}

} // verus!
