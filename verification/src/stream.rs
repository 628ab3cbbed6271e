//! Planning a file-download response.  Given the file size and the
//! request's optional `Range` header, the plan fixes the status, the
//! byte window to stream, and the exact `Content-Range` header value;
//! a malformed or out-of-bounds range degrades to the full file.

use vstd::prelude::*;
use crate::decimal::dec_str;
use crate::decimal::u64_to_dec;
use crate::range::{parse_range, range_spec, ByteRange};
use crate::text::push_char;
use vstd::string::StringExecFns;

verus! {

/// How a file request is answered: which bytes are streamed, under
/// which status, and with which `Content-Range` header, if any.
pub struct StreamPlan {
    /// Whether the response is a partial-content response.
    pub partial: bool,
    /// The HTTP status: partial content or plain success.
    pub status: u16,
    /// The offset of the first byte to stream.
    pub offset: u64,
    /// How many bytes to stream.
    pub length: u64,
    /// The `Content-Range` value of a partial response.
    pub content_range: Option<String>,
}

/// The `Content-Range` value of a partial response:
/// `bytes {start}-{end}/{size}`.
pub open spec fn content_range_spec(r: ByteRange, size: u64) -> Seq<char> {
    seq!['b', 'y', 't', 'e', 's', ' '] + dec_str(r.start as nat) + seq!['-'] + dec_str(
        r.end as nat,
    ) + seq!['/'] + dec_str(size as nat)
}

/// The plan that streams the whole file.
pub open spec fn full_plan(p: StreamPlan, size: u64) -> bool {
    &&& !p.partial
    &&& p.status == 200
    &&& p.offset == 0
    &&& p.length == size
    &&& p.content_range is None
}

/// The plan that streams exactly the requested range.
pub open spec fn partial_plan(p: StreamPlan, r: ByteRange, size: u64) -> bool {
    &&& p.partial
    &&& p.status == 206
    &&& p.offset == r.start
    &&& p.length == r.end - r.start + 1
    &&& p.content_range matches Some(cr) && cr@ == content_range_spec(r, size)
}

/// Builds the `Content-Range` value for a usable range.
pub fn content_range_value(r: ByteRange, size: u64) -> (v: String)
    ensures
        v@ == content_range_spec(r, size),
{
    let mut v = String::new();
    v.append("bytes ");
    proof {
        reveal_strlit("bytes ");
        assert(Seq::<char>::empty() + "bytes "@ =~= seq!['b', 'y', 't', 'e', 's', ' ']);
    }
    let start_s = u64_to_dec(r.start);
    v.append(start_s.as_str());
    push_char(&mut v, '-');
    let end_s = u64_to_dec(r.end);
    v.append(end_s.as_str());
    push_char(&mut v, '/');
    let size_s = u64_to_dec(size);
    v.append(size_s.as_str());
    proof {
        assert(v@ =~= content_range_spec(r, size));
    }
    v
}

/// Decides how to answer a request for a file of `size` bytes carrying
/// the given `Range` header, if one was sent: a usable range gets a
/// partial-content plan for exactly its bytes, anything else the whole
/// file.
pub fn plan_stream(size: u64, range_header: Option<&str>) -> (p: StreamPlan)
    ensures
        match range_header {
            Some(h) => match range_spec(h@, size) {
                Some(r) => partial_plan(p, r, size),
                None => full_plan(p, size),
            },
            None => full_plan(p, size),
        },
{
    let parsed = match range_header {
        Some(h) => parse_range(h, size),
        None => None,
    };
    match parsed {
        Some(r) => {
            let cr = content_range_value(r, size);
            StreamPlan {
                partial: true,
                status: 206,
                offset: r.start,
                length: r.end - r.start + 1,
                content_range: Some(cr),
            }
        },
        None => StreamPlan {
            partial: false,
            status: 200,
            offset: 0,
            length: size,
            content_range: None,
        },
    }
}

/// The `Content-Disposition` value that asks a client to save the
/// response under the served file's own name.
pub fn content_disposition_value(name: &str) -> (v: String)
    ensures
        v@ == "attachment; filename=\""@ + name@ + "\""@,
{
    let mut v = String::new();
    v.append("attachment; filename=\"");
    v.append(name);
    v.append("\"");
    proof {
        assert(v@ =~= "attachment; filename=\""@ + name@ + "\""@);
    }
    v
}

} // verus!
