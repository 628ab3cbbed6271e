//! Byte-range request headers.  A header such as `bytes=0-99` is
//! parsed against a known file size into an inclusive byte range; a
//! malformed or out-of-bounds header yields no usable range, never an
//! error, and the caller then serves the whole file.

use vstd::prelude::*;
use crate::decimal::parse_u64_spec;
use crate::decimal::parse_u64_chars;
use crate::text::str_to_chars;

verus! {

/// An inclusive byte range within a file.
#[derive(Clone, Copy, PartialEq, Eq, Structural, Debug)]
pub struct ByteRange {
    pub start: u64,
    pub end: u64,
}

/// The literal prefix that a range header must begin with.
pub open spec fn range_prefix() -> Seq<char> {
    seq!['b', 'y', 't', 'e', 's', '=']
}

/// The position of the first `-` in `s`, if any.
pub open spec fn first_dash(s: Seq<char>) -> Option<int>
    decreases s.len(),
{
    if s.len() == 0 {
        None
    } else if s[0] == '-' {
        Some(0int)
    } else {
        match first_dash(s.drop_first()) {
            None => None,
            Some(k) => Some(k + 1),
        }
    }
}

/// The start and end fields of a range header: everything after the
/// prefix, split once at the first `-`.  A header without the prefix
/// has no fields; a header without a `-` has an empty end field, which
/// never parses and so falls back to the end of the file.
pub open spec fn header_fields(h: Seq<char>) -> Option<(Seq<char>, Seq<char>)> {
    if h.len() >= 6 && h.take(6) == range_prefix() {
        let rest = h.skip(6);
        match first_dash(rest) {
            None => Some((rest, Seq::<char>::empty())),
            Some(k) => Some((rest.take(k), rest.skip(k + 1))),
        }
    } else {
        None
    }
}

/// What parsing a range header against a file of `size` bytes yields.
/// The start field must parse; an absent or unparsable end field
/// defaults to the last byte.  The pair is usable only if
/// `start <= end < size`.
pub open spec fn range_spec(h: Seq<char>, size: u64) -> Option<ByteRange> {
    match header_fields(h) {
        None => None,
        Some(fields) => match parse_u64_spec(fields.0) {
            None => None,
            Some(start) => {
                let end: int = match parse_u64_spec(fields.1) {
                    Some(e) => e as int,
                    None => size - 1,
                };
                if start <= end && end < size {
                    Some(ByteRange { start, end: end as u64 })
                } else {
                    None
                }
            },
        },
    }
}

/// A usable range always lies within the file: its start does not
/// exceed its inclusive end, which is below the file size.
pub proof fn lemma_range_in_bounds(h: Seq<char>, size: u64)
    ensures
        range_spec(h, size) matches Some(r) ==> r.start <= r.end < size,
{
}

/// An out-of-bounds or inverted pair is ignored: whenever the header's
/// fields name an explicit start and end with `end >= size` or
/// `start > end`, the parse yields no usable range, and the caller
/// serves the whole file instead.
pub proof fn lemma_bad_range_ignored(h: Seq<char>, size: u64, start: u64, end: u64)
    requires
        header_fields(h) matches Some(fields) && parse_u64_spec(fields.0) == Some(start)
            && parse_u64_spec(fields.1) == Some(end),
        end >= size || start > end,
    ensures
        range_spec(h, size) == None::<ByteRange>,
{
}

/// A request for the first hundred bytes of a larger file yields
/// exactly the range of those hundred bytes, whatever the file's size:
/// the plan built from it is then a partial-content plan for bytes 0
/// through 99.
pub proof fn lemma_hundred_byte_prefix(size: u64)
    requires
        size > 100,
    ensures
        range_spec("bytes=0-99"@, size) == Some(ByteRange { start: 0, end: 99 }),
{
    reveal_strlit("bytes=0-99");
    let h = "bytes=0-99"@;
    assert(h.len() == 10);
    assert(h.take(6) =~= range_prefix());
    let rest = h.skip(6);
    assert(rest.len() == 4);
    assert(rest[0] == '0' && rest[1] == '-' && rest[2] == '9' && rest[3] == '9');
    lemma_first_dash_at(rest, 1);
    let sf = rest.take(1);
    let ef = rest.skip(2);
    assert(header_fields(h) == Some((sf, ef)));
    assert(sf.len() == 1 && sf[0] == '0');
    assert(crate::decimal::all_digits(sf));
    assert(crate::decimal::dec_val(sf) == 0) by {
        assert(sf.drop_last() =~= Seq::<char>::empty());
        assert(crate::decimal::dec_val(Seq::<char>::empty()) == 0);
    }
    assert(parse_u64_spec(sf) == Some(0u64));
    assert(ef.len() == 2 && ef[0] == '9' && ef[1] == '9');
    assert(crate::decimal::all_digits(ef));
    assert(crate::decimal::dec_val(ef) == 99) by {
        let e1 = ef.drop_last();
        assert(e1 =~= seq!['9']);
        assert(e1.drop_last() =~= Seq::<char>::empty());
        assert(crate::decimal::dec_val(Seq::<char>::empty()) == 0);
        assert(crate::decimal::dec_val(e1) == 9);
    }
    assert(parse_u64_spec(ef) == Some(99u64));
}

/// If no character of `s` is a dash, `first_dash` finds none.
proof fn lemma_first_dash_none(s: Seq<char>)
    requires
        forall|j: int| 0 <= j < s.len() ==> s[j] != '-',
    ensures
        first_dash(s) == None::<int>,
    decreases s.len(),
{
    if s.len() > 0 {
        assert(forall|j: int| 0 <= j < s.drop_first().len() ==> s.drop_first()[j] == s[j + 1]);
        lemma_first_dash_none(s.drop_first());
    }
}

/// If `s[k]` is the first dash of `s`, `first_dash` finds it.
proof fn lemma_first_dash_at(s: Seq<char>, k: int)
    requires
        0 <= k < s.len(),
        s[k] == '-',
        forall|j: int| 0 <= j < k ==> s[j] != '-',
    ensures
        first_dash(s) == Some(k),
    decreases k,
{
    if k > 0 {
        assert(forall|j: int| 0 <= j < s.drop_first().len() ==> s.drop_first()[j] == s[j + 1]);
        lemma_first_dash_at(s.drop_first(), k - 1);
    }
}

/// Parses a `Range` request header against a file of `size` bytes.
pub fn parse_range(h: &str, size: u64) -> (r: Option<ByteRange>)
    ensures
        r == range_spec(h@, size),
{
    let v = str_to_chars(h);
    let n = v.len();
    if n < 6 {
        return None;
    }
    let ok = v[0] == 'b' && v[1] == 'y' && v[2] == 't' && v[3] == 'e' && v[4] == 's' && v[5]
        == '=';
    proof {
        assert(forall|j: int| 0 <= j < 6 ==> h@.take(6)[j] == h@[j]);
        if ok {
            assert(h@.take(6) =~= range_prefix());
        } else {
            assert(h@.take(6) != range_prefix());
        }
    }
    if !ok {
        return None;
    }
    let ghost rest = h@.skip(6);
    let mut i: usize = 6;
    while i < n && v[i] != '-'
        invariant
            6 <= i <= n,
            n == v@.len(),
            v@ == h@,
            forall|j: int| 6 <= j < i ==> h@[j] != '-',
        decreases n - i,
    {
        i = i + 1;
    }
    let found = i < n;
    let dash = i;
    proof {
        assert(forall|j: int| 0 <= j < rest.len() ==> rest[j] == h@[j + 6]);
        if found {
            assert(rest[dash - 6] == '-');
            assert forall|j: int| 0 <= j < dash - 6 implies rest[j] != '-' by {
                assert(rest[j] == h@[j + 6]);
            }
            lemma_first_dash_at(rest, dash - 6);
        } else {
            assert forall|j: int| 0 <= j < rest.len() implies rest[j] != '-' by {
                assert(rest[j] == h@[j + 6]);
            }
            lemma_first_dash_none(rest);
        }
    }
    let start_to: usize = if found {
        dash
    } else {
        n
    };
    let start_opt = parse_u64_chars(&v, 6, start_to);
    proof {
        if found {
            assert(v@.subrange(6, start_to as int) =~= rest.take(dash - 6));
        } else {
            assert(v@.subrange(6, start_to as int) =~= rest);
        }
    }
    let start = match start_opt {
        Some(s) => s,
        None => {
            return None;
        },
    };
    let end_opt = if found {
        let r = parse_u64_chars(&v, dash + 1, n);
        proof {
            assert(v@.subrange(dash + 1, n as int) =~= rest.skip(dash - 6 + 1));
        }
        r
    } else {
        proof {
            assert(parse_u64_spec(Seq::<char>::empty()) == None::<u64>);
        }
        None
    };
    match end_opt {
        Some(e) => {
            if start <= e && e < size {
                Some(ByteRange { start, end: e })
            } else {
                None
            }
        },
        None => {
            if size > 0 && start <= size - 1 {
                Some(ByteRange { start, end: size - 1 })
            } else {
                None
            }
        },
    }
}

} // verus!

