//! The benchmarking harness's reduction logic: turning a response's headers
//! into a measurement, classifying cold starts, extracting per-stage
//! duration series, and computing min/max/mean statistics. Issuing the
//! concurrent requests themselves is outside work done by the surrounding
//! program; everything it hands back is reduced here.

use vstd::prelude::*;

use crate::decimal::{
    all_digits, dec_val, find_byte_from, find_from, lemma_find_from_props, parse_decimal, subvec,
};
use crate::timing::{
    parse_timing_header, s3read_label, timing_entries, timing_parse_ok, TimingEntry,
};

verus! {

/// One benchmark call's outcome: the end-to-end duration, the invocation
/// ordinal the service reported, the parsed stage timings in order, and the
/// response body's size in bytes.
pub struct Measurement {
    pub total_us: u64,
    pub invoke_count: u64,
    pub timings: Vec<TimingEntry>,
    pub size: usize,
}

/// The duration of the named stage: the last entry under that name, as a
/// repeated name overwrites an earlier one.
pub open spec fn lookup_timing(ts: Seq<TimingEntry>, name: Seq<u8>) -> Option<u64>
    decreases ts.len(),
{
    if ts.len() == 0 {
        None
    } else if ts.last().name@ == name {
        Some(ts.last().us)
    } else {
        lookup_timing(ts.drop_last(), name)
    }
}

/// The duration of the named stage among parsed header entries: the last
/// entry under that name, as a repeated name overwrites an earlier one.
pub open spec fn lookup_entry(es: Seq<(Seq<u8>, nat)>, name: Seq<u8>) -> Option<nat>
    decreases es.len(),
{
    if es.len() == 0 {
        None
    } else if es.last().0 == name {
        Some(es.last().1)
    } else {
        lookup_entry(es.drop_last(), name)
    }
}

/// Looking a stage up among parsed entries and among their view agree.
proof fn lemma_lookup_view(ts: Seq<TimingEntry>, name: Seq<u8>)
    ensures
        lookup_entry(crate::timing::entries_view(ts), name) == match lookup_timing(ts, name) {
            Some(v) => Some(v as nat),
            None => None::<nat>,
        },
    decreases ts.len(),
{
    if ts.len() > 0 {
        lemma_lookup_view(ts.drop_last(), name);
        assert(crate::timing::entries_view(ts).drop_last() =~= crate::timing::entries_view(
            ts.drop_last(),
        ));
        assert(crate::timing::entries_view(ts).last() == (ts.last().name@, ts.last().us as nat));
    }
}

/// Whether two byte vectors hold the same bytes.
pub fn bytes_eq(a: &Vec<u8>, b: &Vec<u8>) -> (r: bool)
    ensures
        r <==> a@ == b@,
{
    if a.len() != b.len() {
        return false;
    }
    let mut i: usize = 0;
    while i < a.len()
        invariant
            0 <= i <= a@.len(),
            a@.len() == b@.len(),
            forall|j: int| 0 <= j < i ==> a@[j] == b@[j],
        decreases a@.len() - i,
    {
        if a[i] != b[i] {
            return false;
        }
        i = i + 1;
    }
    proof {
        assert(a@ =~= b@);
    }
    true
}

/// The duration of the named stage, scanned from the last entry backwards.
pub fn timing_of(ts: &Vec<TimingEntry>, name: &Vec<u8>) -> (r: Option<u64>)
    ensures
        r == lookup_timing(ts@, name@),
{
    let mut i: usize = ts.len();
    proof {
        assert(ts@.take(ts@.len() as int) =~= ts@);
    }
    while i > 0
        invariant
            0 <= i <= ts@.len(),
            lookup_timing(ts@, name@) == lookup_timing(ts@.take(i as int), name@),
        decreases i,
    {
        i = i - 1;
        proof {
            assert(ts@.take(i + 1).last() == ts@[i as int]);
            assert(ts@.take(i + 1).drop_last() =~= ts@.take(i as int));
        }
        if bytes_eq(&ts[i].name, name) {
            return Some(ts[i].us);
        }
    }
    proof {
        assert(ts@.take(0) =~= Seq::<TimingEntry>::empty());
    }
    None
}

/// Why a response could not be turned into a measurement. Each is a hard
/// failure that aborts the run for the variant under test.
#[derive(Clone, Copy, Debug, PartialEq, Eq, Structural)]
pub enum HarnessError {
    /// The invocation-count header is not a decimal number that fits.
    BadInvokeCount,
    /// The server-timing header does not denote entries, or an entry's
    /// duration does not fit in a `u64` of microseconds.
    BadTiming,
    /// The timings lack the `s3read` entry that the service always sends.
    MissingS3read,
}

/// A valid invocation-count header: a non-empty decimal string whose value
/// fits in a `u64`.
pub open spec fn invoke_count_ok(s: Seq<u8>) -> bool {
    s.len() > 0 && all_digits(s) && dec_val(s) <= u64::MAX
}

/// What the parsed timings of a header are; meaningful only where
/// `timing_parse_ok` holds.
pub open spec fn timings_of_header(s: Seq<u8>) -> Seq<(Seq<u8>, nat)> {
    timing_entries(s)->Some_0
}

/// Turns one response's required header values into a measurement. The
/// total duration and body size are taken as given; the invocation-count
/// and server-timing headers must be well formed and the timings must hold
/// an `s3read` entry, else the exact reason is returned.
pub fn measurement_from_parts(
    total_us: u64,
    size: usize,
    invoke_header: &Vec<u8>,
    timing_header: &Vec<u8>,
) -> (r: Result<Measurement, HarnessError>)
    ensures
        match r {
            Ok(m) => invoke_count_ok(invoke_header@) && m.invoke_count == dec_val(invoke_header@)
                && timing_parse_ok(timing_header@) && crate::timing::entries_view(m.timings@)
                == timings_of_header(timing_header@) && lookup_timing(
                m.timings@,
                crate::timing::s3read_name(),
            ) is Some && m.total_us == total_us && m.size == size,
            Err(e) => (e == HarnessError::BadInvokeCount <==> !invoke_count_ok(invoke_header@)) && (
            e == HarnessError::BadTiming <==> invoke_count_ok(invoke_header@) && !timing_parse_ok(
                timing_header@,
            )) && (e == HarnessError::MissingS3read <==> invoke_count_ok(invoke_header@)
                && timing_parse_ok(timing_header@) && lookup_entry(
                timings_of_header(timing_header@),
                crate::timing::s3read_name(),
            ) is None),
        },
{
    let invoke_count = match parse_decimal(invoke_header) {
        Some(v) => v,
        None => {
            return Err(HarnessError::BadInvokeCount);
        },
    };
    let timings = match parse_timing_header(timing_header) {
        Some(ts) => ts,
        None => {
            return Err(HarnessError::BadTiming);
        },
    };
    let s3 = s3read_label();
    proof {
        lemma_lookup_view(timings@, s3@);
    }
    if timing_of(&timings, &s3).is_none() {
        return Err(HarnessError::MissingS3read);
    }
    Ok(Measurement { total_us, invoke_count, timings, size })
}

/// How many measurements saw invocation ordinal 0: each is a cold hit
/// served by a fresh process instance.
pub open spec fn count_cold(ms: Seq<Measurement>) -> nat
    decreases ms.len(),
{
    if ms.len() == 0 {
        0
    } else {
        count_cold(ms.drop_last()) + if ms.last().invoke_count == 0 {
            1nat
        } else {
            0nat
        }
    }
}

/// Classifies a variant's run: the number of cold hits, zero exactly when
/// every measurement came from an already-warm process.
pub fn cold_count(ms: &Vec<Measurement>) -> (n: usize)
    ensures
        n == count_cold(ms@),
        n == 0 <==> forall|i: int| 0 <= i < ms@.len() ==> (#[trigger] ms@[i]).invoke_count != 0,
{
    let mut n: usize = 0;
    let mut i: usize = 0;
    while i < ms.len()
        invariant
            0 <= i <= ms@.len(),
            n == count_cold(ms@.take(i as int)),
            n <= i,
            n == 0 <==> forall|j: int| 0 <= j < i ==> (#[trigger] ms@[j]).invoke_count != 0,
        decreases ms@.len() - i,
    {
        proof {
            assert(ms@.take(i + 1).drop_last() =~= ms@.take(i as int));
            assert(ms@.take(i + 1).last() == ms@[i as int]);
        }
        if ms[i].invoke_count == 0 {
            n = n + 1;
        }
        i = i + 1;
    }
    proof {
        assert(ms@.take(ms@.len() as int) =~= ms@);
    }
    n
}

/// The durations of the named stage across a run, in order, over the
/// measurements that have that stage; a measurement without it contributes
/// nothing.
pub open spec fn series_of(ms: Seq<Measurement>, name: Seq<u8>) -> Seq<u64>
    decreases ms.len(),
{
    if ms.len() == 0 {
        Seq::empty()
    } else {
        series_of(ms.drop_last(), name) + match lookup_timing(ms.last().timings@, name) {
            Some(v) => seq![v],
            None => Seq::empty(),
        }
    }
}

/// Extracts the duration series of one named stage from a run.
pub fn stage_series(ms: &Vec<Measurement>, name: &Vec<u8>) -> (r: Vec<u64>)
    ensures
        r@ == series_of(ms@, name@),
{
    let mut out: Vec<u64> = Vec::new();
    let mut i: usize = 0;
    while i < ms.len()
        invariant
            0 <= i <= ms@.len(),
            out@ == series_of(ms@.take(i as int), name@),
        decreases ms@.len() - i,
    {
        proof {
            assert(ms@.take(i + 1).drop_last() =~= ms@.take(i as int));
            assert(ms@.take(i + 1).last() == ms@[i as int]);
        }
        match timing_of(&ms[i].timings, name) {
            Some(v) => {
                out.push(v);
                proof {
                    assert(out@ =~= series_of(ms@.take(i + 1), name@));
                }
            },
            None => {
                proof {
                    assert(out@ =~= series_of(ms@.take(i + 1), name@));
                }
            },
        }
        i = i + 1;
    }
    proof {
        assert(ms@.take(ms@.len() as int) =~= ms@);
    }
    out
}

/// The end-to-end durations of a run, in order.
pub fn total_series(ms: &Vec<Measurement>) -> (r: Vec<u64>)
    ensures
        r@ == ms@.map(|i: int, m: Measurement| m.total_us),
{
    let mut out: Vec<u64> = Vec::new();
    let mut i: usize = 0;
    while i < ms.len()
        invariant
            0 <= i <= ms@.len(),
            out@ == ms@.take(i as int).map(|j: int, m: Measurement| m.total_us),
        decreases ms@.len() - i,
    {
        out.push(ms[i].total_us);
        proof {
            assert(out@ =~= ms@.take(i + 1).map(|j: int, m: Measurement| m.total_us));
        }
        i = i + 1;
    }
    proof {
        assert(ms@.take(ms@.len() as int) =~= ms@);
        assert(ms@.take(ms@.len() as int).map(|j: int, m: Measurement| m.total_us) =~= ms@.map(
            |j: int, m: Measurement| m.total_us,
        ));
    }
    out
}

/// The sum of a duration series.
pub open spec fn seq_sum(s: Seq<u64>) -> nat
    decreases s.len(),
{
    if s.len() == 0 {
        0
    } else {
        seq_sum(s.drop_last()) + s.last() as nat
    }
}

/// A series' sum is at most its length times any bound on its elements.
proof fn lemma_seq_sum_bound(s: Seq<u64>, bound: u64)
    requires
        forall|i: int| 0 <= i < s.len() ==> (#[trigger] s[i]) <= bound,
    ensures
        seq_sum(s) <= s.len() * bound,
    decreases s.len(),
{
    if s.len() > 0 {
        lemma_seq_sum_bound(s.drop_last(), bound);
        assert(s.last() == s[s.len() - 1]);
        assert((s.len() - 1) * bound + bound == s.len() * bound) by (nonlinear_arith);
    }
}

/// The minimum, maximum and arithmetic mean of a duration series, in whole
/// microseconds (the mean rounded toward zero); nothing for an empty
/// series, whose aggregation is skipped rather than divided by zero.
pub fn min_max_avg(vs: &Vec<u64>) -> (r: Option<(u64, u64, u64)>)
    ensures
        match r {
            Some((mn, mx, avg)) => vs@.len() > 0 && vs@.contains(mn) && vs@.contains(mx) && (forall|
                i: int,
            |
                0 <= i < vs@.len() ==> mn <= #[trigger] vs@[i] <= mx) && avg == seq_sum(vs@) as int
                / vs@.len() as int,
            None => vs@.len() == 0,
        },
{
    if vs.len() == 0 {
        return None;
    }
    let mut mn: u64 = vs[0];
    let mut mx: u64 = vs[0];
    let mut sum: u128 = 0;
    let mut i: usize = 0;
    while i < vs.len()
        invariant
            0 <= i <= vs@.len(),
            vs@.len() > 0,
            mn == vs@[0] || vs@.take(i as int).contains(mn),
            mx == vs@[0] || vs@.take(i as int).contains(mx),
            i > 0 ==> vs@.take(i as int).contains(mn),
            i > 0 ==> vs@.take(i as int).contains(mx),
            forall|j: int| 0 <= j < i ==> mn <= #[trigger] vs@[j] <= mx,
            sum == seq_sum(vs@.take(i as int)),
        decreases vs@.len() - i,
    {
        proof {
            assert(vs@.take(i + 1).drop_last() =~= vs@.take(i as int));
            assert(vs@.take(i + 1).last() == vs@[i as int]);
        }
        let v = vs[i];
        if i == 0 || v < mn {
            mn = v;
        }
        if i == 0 || v > mx {
            mx = v;
        }
        proof {
            assert(vs@.take(i + 1)[i as int] == vs@[i as int]);
            if mn != vs@[i as int] {
                let k = choose|k: int| 0 <= k < i && vs@.take(i as int)[k] == mn;
                assert(vs@.take(i + 1)[k] == mn);
            }
            if mx != vs@[i as int] {
                let k = choose|k: int| 0 <= k < i && vs@.take(i as int)[k] == mx;
                assert(vs@.take(i + 1)[k] == mx);
            }
            lemma_seq_sum_bound(vs@.take(i as int), u64::MAX);
            assert((i as int) * (u64::MAX as int) + (u64::MAX as int) <= (u64::MAX as int) * (
            u64::MAX as int) + (u64::MAX as int)) by (nonlinear_arith)
                requires i as int <= u64::MAX as int;
        }
        sum = sum + v as u128;
        i = i + 1;
    }
    proof {
        assert(vs@.take(vs@.len() as int) =~= vs@);
        lemma_seq_sum_bound(vs@, mx);
        assert(seq_sum(vs@) as int / vs@.len() as int <= mx as int) by (nonlinear_arith)
            requires
                vs@.len() > 0,
                seq_sum(vs@) <= vs@.len() * mx,
        ;
    }
    let avg: u64 = (sum / (vs.len() as u128)) as u64;
    Some((mn, mx, avg))
}

/// Whether `p` is a prefix of `s`.
pub open spec fn starts_with(s: Seq<u8>, p: Seq<u8>) -> bool {
    p.len() <= s.len() && s.take(p.len() as int) == p
}

/// Whether `p` is a prefix of `s`, checked byte by byte.
pub fn has_prefix(s: &Vec<u8>, p: &Vec<u8>) -> (r: bool)
    ensures
        r <==> starts_with(s@, p@),
{
    if p.len() > s.len() {
        return false;
    }
    let mut i: usize = 0;
    while i < p.len()
        invariant
            0 <= i <= p@.len() <= s@.len(),
            forall|j: int| 0 <= j < i ==> s@[j] == p@[j],
        decreases p@.len() - i,
    {
        if s[i] != p[i] {
            proof {
                assert(s@.take(p@.len() as int)[i as int] == s@[i as int]);
            }
            return false;
        }
        i = i + 1;
    }
    proof {
        assert(s@.take(p@.len() as int) =~= p@);
    }
    true
}

/// The bytes of the deployment-output key prefix `EndpointUrl`.
pub open spec fn endpoint_key_prefix() -> Seq<u8> {
    seq![69u8, 110u8, 100u8, 112u8, 111u8, 105u8, 110u8, 116u8, 85u8, 114u8, 108u8]
}

/// The key prefix `EndpointUrl` as a byte vector.
pub fn endpoint_key_label() -> (r: Vec<u8>)
    ensures
        r@ == endpoint_key_prefix(),
{
    let mut v: Vec<u8> = Vec::new();
    v.push(69);
    v.push(110);
    v.push(100);
    v.push(112);
    v.push(111);
    v.push(105);
    v.push(110);
    v.push(116);
    v.push(85);
    v.push(114);
    v.push(108);
    proof {
        assert(v@ =~= endpoint_key_prefix());
    }
    v
}

/// One named output of the deployment descriptor.
pub struct OutputEntry {
    pub key: Vec<u8>,
    pub value: Vec<u8>,
}

/// The values of the entries whose key starts with `EndpointUrl`, in order:
/// one endpoint URL per deployment variant.
pub open spec fn endpoint_values(es: Seq<OutputEntry>) -> Seq<Seq<u8>>
    decreases es.len(),
{
    if es.len() == 0 {
        Seq::empty()
    } else {
        endpoint_values(es.drop_last()) + if starts_with(es.last().key@, endpoint_key_prefix()) {
            seq![es.last().value@]
        } else {
            Seq::empty()
        }
    }
}

/// Discovers the deployment variants' endpoint URLs among the descriptor's
/// outputs.
pub fn select_endpoints(es: Vec<OutputEntry>) -> (r: Vec<Vec<u8>>)
    ensures
        r@.map(|i: int, v: Vec<u8>| v@) == endpoint_values(es@),
{
    let prefix = endpoint_key_label();
    let mut out: Vec<Vec<u8>> = Vec::new();
    let mut i: usize = 0;
    while i < es.len()
        invariant
            0 <= i <= es@.len(),
            out@.map(|k: int, v: Vec<u8>| v@) == endpoint_values(es@.take(i as int)),
            prefix@ == endpoint_key_prefix(),
        decreases es@.len() - i,
    {
        proof {
            assert(es@.take(i + 1).drop_last() =~= es@.take(i as int));
            assert(es@.take(i + 1).last() == es@[i as int]);
        }
        if has_prefix(&es[i].key, &prefix) {
            let mut value: Vec<u8> = Vec::new();
            let mut j: usize = 0;
            let n = es[i].value.len();
            while j < n
                invariant
                    0 <= j <= n,
                    n == es@[i as int].value@.len(),
                    0 <= i < es@.len(),
                    value@ == es@[i as int].value@.take(j as int),
                decreases n - j,
            {
                value.push(es[i].value[j]);
                proof {
                    assert(value@ =~= es@[i as int].value@.take(j + 1));
                }
                j = j + 1;
            }
            proof {
                assert(value@ =~= es@[i as int].value@);
            }
            out.push(value);
        }
        proof {
            assert(out@.map(|k: int, v: Vec<u8>| v@) =~= endpoint_values(es@.take(i + 1)));
        }
        i = i + 1;
    }
    proof {
        assert(es@.take(es@.len() as int) =~= es@);
    }
    out
}

/// First index at or after `i` where a path segment ends: a slash, a
/// question mark or a hash, or the end of the URL.
pub open spec fn seg_end(u: Seq<u8>, i: int) -> int
    decreases u.len() - i,
{
    if i < 0 || i >= u.len() {
        u.len() as int
    } else if u[i] == 47 || u[i] == 63 || u[i] == 35 {
        i
    } else {
        seg_end(u, i + 1)
    }
}

fn seg_end_from(u: &Vec<u8>, i: usize) -> (r: usize)
    requires
        i <= u@.len(),
    ensures
        r == seg_end(u@, i as int),
        i <= r <= u@.len(),
    decreases u@.len() - i,
{
    if i >= u.len() {
        u.len()
    } else if u[i] == 47 || u[i] == 63 || u[i] == 35 {
        i
    } else {
        seg_end_from(u, i + 1)
    }
}

/// The deployment variant's name: the first path segment of its endpoint
/// URL, the bytes between the slash after `scheme://host` and the next
/// slash, question mark, hash or the end. `None` where the URL has no
/// `://` or no path.
pub open spec fn first_path_segment(u: Seq<u8>) -> Option<Seq<u8>> {
    let c = find_from(u, 58, 0);
    if c + 2 < u.len() && u[c + 1] == 47 && u[c + 2] == 47 {
        let h = find_from(u, 47, c + 3);
        if h == u.len() {
            None
        } else {
            Some(u.subrange(h + 1, seg_end(u, h + 1)))
        }
    } else {
        None
    }
}

/// Derives the variant name from an endpoint URL.
pub fn variant_of_url(url: &Vec<u8>) -> (r: Option<Vec<u8>>)
    ensures
        match r {
            Some(v) => first_path_segment(url@) == Some(v@),
            None => first_path_segment(url@) is None,
        },
{
    proof {
        lemma_find_from_props(url@, 58, 0);
    }
    let c = find_byte_from(url, 58, 0);
    if url.len() - c <= 2 {
        return None;
    }
    if url[c + 1] != 47 || url[c + 2] != 47 {
        return None;
    }
    proof {
        lemma_find_from_props(url@, 47, c + 3);
    }
    let h = find_byte_from(url, 47, c + 3);
    if h == url.len() {
        return None;
    }
    let e = seg_end_from(url, h + 1);
    Some(subvec(url, h + 1, e))
}

} // verus!
