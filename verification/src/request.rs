//! Request orchestration: reading the optional target dimensions from the
//! query, the conditional transform step, the process-lifetime invocation
//! counter, and the assembly of the response with its timing headers.

use vstd::prelude::*;

use crate::decimal::{all_digits, dec_digits, dec_val, parse_decimal, render_decimal};
use crate::resize::{dims_ok, jpeg_height, jpeg_valid, jpeg_width, resize_jpeg, ResizeError};
use crate::timing::{render_timing_header, timing_header_bytes};

verus! {

/// Why a request's dimension parameters were rejected before any work was
/// done.
#[derive(Clone, Copy, Debug, PartialEq, Eq, Structural)]
pub enum DimQueryError {
    /// Exactly one of width and height was supplied; they are jointly
    /// required.
    OneMissing,
    /// A supplied value is not a decimal number that fits in 32 bits.
    BadNumber,
}

/// A decimal dimension parameter: non-empty, digits only, fits in a `u32`.
pub open spec fn dim_ok(s: Seq<u8>) -> bool {
    s.len() > 0 && all_digits(s) && dec_val(s) <= u32::MAX
}

/// Reads the optional `width` and `height` query parameters. Both absent
/// means no resize is requested; both present must be decimal numbers;
/// one without the other is rejected as a client error.
pub fn parse_dims(width: Option<&Vec<u8>>, height: Option<&Vec<u8>>) -> (r: Result<
    Option<(u32, u32)>,
    DimQueryError,
>)
    ensures
        match (width, height) {
            (None, None) => r == Ok::<Option<(u32, u32)>, DimQueryError>(None),
            (Some(w), Some(h)) => {
                if dim_ok(w@) && dim_ok(h@) {
                    r == Ok::<Option<(u32, u32)>, DimQueryError>(
                        Some(((dec_val(w@) as u32), (dec_val(h@) as u32))),
                    )
                } else {
                    r == Err::<Option<(u32, u32)>, DimQueryError>(DimQueryError::BadNumber)
                }
            },
            _ => r == Err::<Option<(u32, u32)>, DimQueryError>(DimQueryError::OneMissing),
        },
{
    match (width, height) {
        (None, None) => Ok(None),
        (Some(w), Some(h)) => {
            let wv = match parse_decimal(w) {
                Some(v) => v,
                None => {
                    return Err(DimQueryError::BadNumber);
                },
            };
            let hv = match parse_decimal(h) {
                Some(v) => v,
                None => {
                    return Err(DimQueryError::BadNumber);
                },
            };
            if wv > 0xffff_ffff || hv > 0xffff_ffff {
                return Err(DimQueryError::BadNumber);
            }
            Ok(Some((wv as u32, hv as u32)))
        },
        _ => Err(DimQueryError::OneMissing),
    }
}

/// The conditional transform step: with no dimensions the fetched bytes
/// pass through byte-for-byte unchanged; with dimensions the resize
/// pipeline runs.
pub fn transform(data: Vec<u8>, dims: Option<(u32, u32)>) -> (r: Result<Vec<u8>, ResizeError>)
    ensures
        match dims {
            None => r is Ok && r->Ok_0@ == data@,
            Some((w, h)) => match r {
                Ok(out) => jpeg_valid(data@) && dims_ok(w, h) && jpeg_valid(out@) && jpeg_width(
                    out@,
                ) == w && jpeg_height(out@) == h,
                Err(e) => (e == ResizeError::Decode <==> !jpeg_valid(data@)) && (e
                    == ResizeError::Dimension <==> jpeg_valid(data@) && !dims_ok(w, h)) && e
                    != ResizeError::Encode,
            },
        },
        match dims {
            Some((w, h)) => jpeg_valid(data@) && w == jpeg_width(data@) && h == jpeg_height(data@)
                && 3 * jpeg_width(data@) * jpeg_height(data@)
                <= crate::resize::MAX_PIXEL_BYTES ==> r is Ok,
            None => true,
        },
{
    match dims {
        None => Ok(data),
        Some((w, h)) => resize_jpeg(data, w, h),
    }
}

/// Process-lifetime invocation counter. One instance is constructed at
/// process start; each handled request takes the next ordinal through
/// `fetch_add`, so the first request of a process observes 0.
pub struct InvokeCounter {
    pub count: u64,
}

impl InvokeCounter {
    pub fn new() -> (c: InvokeCounter)
        ensures
            c.count == 0,
    {
        InvokeCounter { count: 0 }
    }

    /// Returns the number of requests handled before this one and advances
    /// the counter by exactly one: no value is ever returned twice.
    pub fn fetch_add(&mut self) -> (r: u64)
        requires
            old(self).count < u64::MAX,
        ensures
            r == old(self).count,
            final(self).count == old(self).count + 1,
    {
        let r = self.count;
        self.count = self.count + 1;
        r
    }
}

/// The invocation counter law: sequential requests observe the ordinals
/// 0, 1, 2, ... in order, so over `n` requests the observed values are
/// pairwise distinct and cover every value below `n` — no duplicates and no
/// gaps.
pub proof fn lemma_invoke_counts_distinct(observed: Seq<u64>)
    requires
        forall|i: int| 0 <= i < observed.len() ==> observed[i] == i,
    ensures
        forall|i: int, j: int| 0 <= i < j < observed.len() ==> observed[i] != observed[j],
        forall|v: u64| v < observed.len() ==> observed.contains(v),
{
    assert forall|v: u64| v < observed.len() implies observed.contains(v) by {
        assert(observed[v as int] == v);
    }
}

/// The bytes of the content type `image/jpeg`.
pub open spec fn content_type_jpeg() -> Seq<u8> {
    seq![105u8, 109u8, 97u8, 103u8, 101u8, 47u8, 106u8, 112u8, 101u8, 103u8]
}

/// The bytes of the service's own name, sent in the `server` header.
pub open spec fn server_id() -> Seq<u8> {
    seq![107u8, 117u8, 109u8, 111u8, 114u8, 105u8]
}

/// A successful response as plain values: the status, each header value,
/// and the binary body, which crosses the protocol boundary
/// base64-transport-encoded.
pub struct HttpResponse {
    pub status: u16,
    pub content_type: Vec<u8>,
    pub server: Vec<u8>,
    pub server_timing: Vec<u8>,
    pub invoke_count: Vec<u8>,
    pub body: Vec<u8>,
    pub is_base64_encoded: bool,
}

/// Assembles the successful response for a request: status 200, JPEG
/// content type, the service name, the timing header for the measured
/// stages, the pre-increment invocation ordinal as a decimal string, and
/// the final image bytes.
pub fn respond(body: Vec<u8>, s3read_us: u64, resize_us: Option<u64>, ordinal: u64) -> (r:
    HttpResponse)
    ensures
        r.status == 200,
        r.content_type@ == content_type_jpeg(),
        r.server@ == server_id(),
        r.server_timing@ == timing_header_bytes(
            s3read_us as nat,
            match resize_us {
                Some(v) => Some(v as nat),
                None => None,
            },
        ),
        r.invoke_count@ == dec_digits(ordinal as nat),
        r.body@ == body@,
        r.is_base64_encoded,
{
    let mut content_type: Vec<u8> = Vec::new();
    content_type.push(105);
    content_type.push(109);
    content_type.push(97);
    content_type.push(103);
    content_type.push(101);
    content_type.push(47);
    content_type.push(106);
    content_type.push(112);
    content_type.push(101);
    content_type.push(103);
    proof {
        assert(content_type@ =~= content_type_jpeg());
    }
    let mut server: Vec<u8> = Vec::new();
    server.push(107);
    server.push(117);
    server.push(109);
    server.push(111);
    server.push(114);
    server.push(105);
    proof {
        assert(server@ =~= server_id());
    }
    HttpResponse {
        status: 200,
        content_type,
        server,
        server_timing: render_timing_header(s3read_us, resize_us),
        invoke_count: render_decimal(ordinal),
        body,
        is_base64_encoded: true,
    }
}

} // verus!
