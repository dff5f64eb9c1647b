//! Incremental wire-protocol decoder.
//!
//! `RespValue::parse` turns a byte buffer into one structured value plus the
//! number of bytes consumed, or reports that more bytes are needed
//! (`Incomplete`) or that the input can never become valid (`InvalidFormat`).
//! Its whole behaviour is pinned down by the specification-level decoder
//! `spec_decode`.
use vstd::prelude::*;
use vstd::slice::slice_subrange;
use vstd::slice::slice_to_vec;
use vstd::utf8::decode_utf8;
use vstd::utf8::valid_utf8;

use crate::ascii::spec_parse_i64;
use crate::ascii::parse_i64;

verus! {

/// Byte value of ':'.
pub const MARK_INTEGER: u8 = 58;

/// Byte value of '+'.
pub const MARK_SIMPLE: u8 = 43;

/// Byte value of '$'.
pub const MARK_BULK: u8 = 36;

/// Byte value of '*'.
pub const MARK_ARRAY: u8 = 42;

/// Byte value of '\r'.
pub const CR: u8 = 13;

/// Byte value of '\n'.
pub const LF: u8 = 10;

/// One decoded unit of the wire protocol.
#[derive(Debug, PartialEq)]
pub enum RespValue {
    SimpleString(String),
    Integer(i64),
    BulkString(Vec<u8>),
    Array(Vec<RespValue>),
    Null,
}

/// Mathematical model of a decoded value.
pub enum RespModel {
    SimpleString(Seq<char>),
    Integer(i64),
    BulkString(Seq<u8>),
    Array(Seq<RespModel>),
    Null,
}

pub open spec fn model_of(v: RespValue) -> RespModel
    decreases v,
{
    match v {
        RespValue::SimpleString(s) => RespModel::SimpleString(s@),
        RespValue::Integer(i) => RespModel::Integer(i),
        RespValue::BulkString(b) => RespModel::BulkString(b@),
        RespValue::Array(es) => RespModel::Array(model_elems(es@)),
        RespValue::Null => RespModel::Null,
    }
}

pub open spec fn model_elems(s: Seq<RespValue>) -> Seq<RespModel>
    decreases s,
{
    if s.len() == 0 {
        Seq::empty()
    } else {
        model_elems(s.drop_last()).push(model_of(s.last()))
    }
}

impl View for RespValue {
    type V = RespModel;

    open spec fn view(&self) -> RespModel {
        model_of(*self)
    }
}

pub proof fn lemma_model_elems_push(s: Seq<RespValue>, v: RespValue)
    ensures
        model_elems(s.push(v)) == model_elems(s).push(model_of(v)),
{
    assert(s.push(v).drop_last() =~= s);
}

pub proof fn lemma_model_elems_len(s: Seq<RespValue>)
    ensures
        model_elems(s).len() == s.len(),
        forall|i: int| 0 <= i < s.len() ==> model_elems(s)[i] == model_of(#[trigger] s[i]),
    decreases s,
{
    if s.len() > 0 {
        let t = s.drop_last();
        lemma_model_elems_len(t);
        assert forall|i: int| 0 <= i < s.len() implies model_elems(s)[i] == model_of(s[i]) by {
            if i < s.len() - 1 {
                assert(model_elems(s)[i] == model_elems(t)[i]);
                assert(t[i] == s[i]);
            } else {
                assert(model_elems(s)[i] == model_of(s.last()));
            }
        }
    }
}

/// Decoder outcome: a retry signal, an unrecoverable rejection, or a value.
#[derive(Debug, PartialEq)]
pub enum ParserError {
    Incomplete,
    InvalidFormat(String),
}

/// Specification-level decoder outcome for one value.
pub enum SpecDecode {
    Incomplete,
    Malformed,
    Value(RespModel, int),
}

/// Specification-level decoder outcome for a run of array elements.
pub enum SpecDecodeElems {
    Incomplete,
    Malformed,
    Elems(Seq<RespModel>, int),
}

/// A CRLF pair starts at position `i`.
pub open spec fn crlf_at(s: Seq<u8>, i: int) -> bool {
    0 <= i && i + 2 <= s.len() && s[i] == CR && s[i + 1] == LF
}

pub open spec fn crlf_pos_from(s: Seq<u8>, i: nat) -> Option<nat>
    decreases s.len() - i,
{
    if i + 2 > s.len() {
        None
    } else if s[i as int] == CR && s[i + 1int] == LF {
        Some(i)
    } else {
        crlf_pos_from(s, i + 1)
    }
}

/// Position of the first CRLF pair, if any.
pub open spec fn crlf_pos(s: Seq<u8>) -> Option<nat> {
    crlf_pos_from(s, 0)
}

pub proof fn lemma_crlf_pos_from(s: Seq<u8>, i: nat)
    ensures
        match crlf_pos_from(s, i) {
            Some(p) => i <= p && p + 2 <= s.len() && crlf_at(s, p as int) && forall|j: int|
                i <= j < p ==> !crlf_at(s, j),
            None => forall|j: int| i <= j ==> !crlf_at(s, j),
        },
    decreases s.len() - i,
{
    if i + 2 > s.len() {
    } else if s[i as int] == CR && s[i + 1int] == LF {
    } else {
        lemma_crlf_pos_from(s, i + 1);
    }
}

pub proof fn lemma_crlf_pos(s: Seq<u8>)
    ensures
        match crlf_pos(s) {
            Some(p) => p + 2 <= s.len() && crlf_at(s, p as int) && forall|j: int|
                0 <= j < p ==> !crlf_at(s, j),
            None => forall|j: int| 0 <= j ==> !crlf_at(s, j),
        },
{
    lemma_crlf_pos_from(s, 0);
}

/// The bytes from position `c` on, or the empty sequence when `c` is out of
/// range (which the decoder never produces).
pub open spec fn tail_from(s: Seq<u8>, c: int) -> Seq<u8> {
    if 0 <= c <= s.len() {
        s.subrange(c, s.len() as int)
    } else {
        Seq::empty()
    }
}

/// What decoding an integer line yields.
pub open spec fn spec_decode_integer(s: Seq<u8>) -> SpecDecode {
    match crlf_pos(s) {
        None => SpecDecode::Incomplete,
        Some(p) => match spec_parse_i64(s.subrange(1, p as int)) {
            None => SpecDecode::Malformed,
            Some(v) => SpecDecode::Value(RespModel::Integer(v), p + 2int),
        },
    }
}

/// What decoding a simple-string line yields.
pub open spec fn spec_decode_simple(s: Seq<u8>) -> SpecDecode {
    match crlf_pos(s) {
        None => SpecDecode::Incomplete,
        Some(p) => if valid_utf8(s.subrange(1, p as int)) {
            SpecDecode::Value(RespModel::SimpleString(decode_utf8(s.subrange(1, p as int))), p + 2int)
        } else {
            SpecDecode::Malformed
        },
    }
}

/// What decoding a bulk string yields: a length header, then that many bytes,
/// then CRLF; length -1 denotes Null; other negative lengths are malformed.
pub open spec fn spec_decode_bulk(s: Seq<u8>) -> SpecDecode {
    match crlf_pos(s) {
        None => SpecDecode::Incomplete,
        Some(p) => match spec_parse_i64(s.subrange(1, p as int)) {
            None => SpecDecode::Malformed,
            Some(l) => if l == -1 {
                SpecDecode::Value(RespModel::Null, p + 2int)
            } else if l < -1 {
                SpecDecode::Malformed
            } else if p + 2 + l + 2 > s.len() {
                SpecDecode::Incomplete
            } else if s[p + 2 + l] == CR && s[p + 3 + l] == LF {
                SpecDecode::Value(
                    RespModel::BulkString(s.subrange(p + 2int, p + 2 + l)),
                    p + 4 + l,
                )
            } else {
                SpecDecode::Malformed
            },
        },
    }
}

/// The specification-level decoder. Dispatches on the first byte; arrays
/// recurse through `spec_decode_elems`.
pub open spec fn spec_decode(s: Seq<u8>) -> SpecDecode
    decreases s.len(), 1int, 0int,
{
    if s.len() == 0 {
        SpecDecode::Incomplete
    } else if s[0] == MARK_INTEGER {
        spec_decode_integer(s)
    } else if s[0] == MARK_SIMPLE {
        spec_decode_simple(s)
    } else if s[0] == MARK_BULK {
        spec_decode_bulk(s)
    } else if s[0] == MARK_ARRAY {
        spec_decode_array(s)
    } else {
        SpecDecode::Malformed
    }
}

/// What decoding an array yields: a count header, then that many elements,
/// decoded in sequence; count -1 denotes Null.
pub open spec fn spec_decode_array(s: Seq<u8>) -> SpecDecode
    decreases s.len(), 0int, 0int,
{
    match crlf_pos(s) {
        None => SpecDecode::Incomplete,
        Some(p) => match spec_parse_i64(s.subrange(1, p as int)) {
            None => SpecDecode::Malformed,
            Some(l) => if l == -1 {
                SpecDecode::Value(RespModel::Null, p + 2int)
            } else if l < -1 {
                SpecDecode::Malformed
            } else if p + 2 > s.len() {
                SpecDecode::Incomplete
            } else {
                match spec_decode_elems(tail_from(s, p + 2int), l as nat) {
                    SpecDecodeElems::Incomplete => SpecDecode::Incomplete,
                    SpecDecodeElems::Malformed => SpecDecode::Malformed,
                    SpecDecodeElems::Elems(vs, c) => SpecDecode::Value(
                        RespModel::Array(vs),
                        p + 2 + c,
                    ),
                }
            },
        },
    }
}

/// Decode `n` consecutive values from the front of `s`.
pub open spec fn spec_decode_elems(s: Seq<u8>, n: nat) -> SpecDecodeElems
    decreases s.len(), 2int, n,
{
    if n == 0 {
        SpecDecodeElems::Elems(Seq::empty(), 0)
    } else {
        match spec_decode(s) {
            SpecDecode::Incomplete => SpecDecodeElems::Incomplete,
            SpecDecode::Malformed => SpecDecodeElems::Malformed,
            SpecDecode::Value(v, c) => match spec_decode_elems(
                tail_from(s, c),
                (n - 1) as nat,
            ) {
                SpecDecodeElems::Incomplete => SpecDecodeElems::Incomplete,
                SpecDecodeElems::Malformed => SpecDecodeElems::Malformed,
                SpecDecodeElems::Elems(vs, c2) => SpecDecodeElems::Elems(seq![v] + vs, c + c2),
            },
        }
    }
}

/// A successful decode consumes at least one byte and no more than the buffer.
pub proof fn lemma_decode_consumed(s: Seq<u8>)
    ensures
        spec_decode(s) matches SpecDecode::Value(v, c) ==> 1 <= c <= s.len(),
    decreases s.len(), 1int, 0int,
{
    if s.len() == 0 {
    } else if s[0] == MARK_INTEGER || s[0] == MARK_SIMPLE || s[0] == MARK_BULK {
        lemma_crlf_pos(s);
    } else if s[0] == MARK_ARRAY {
        lemma_decode_array_consumed(s);
    } else {
    }
}

pub proof fn lemma_decode_array_consumed(s: Seq<u8>)
    ensures
        spec_decode_array(s) matches SpecDecode::Value(v, c) ==> 1 <= c <= s.len(),
    decreases s.len(), 0int, 0int,
{
    lemma_crlf_pos(s);
    match crlf_pos(s) {
        Some(p) => {
            match spec_parse_i64(s.subrange(1, p as int)) {
                Some(l) => {
                    if l >= 0 && p + 2 <= s.len() {
                        lemma_decode_elems_consumed(tail_from(s, p + 2int), l as nat);
                    }
                },
                None => {},
            }
        },
        None => {},
    }
}

pub proof fn lemma_decode_elems_consumed(s: Seq<u8>, n: nat)
    ensures
        spec_decode_elems(s, n) matches SpecDecodeElems::Elems(vs, c) ==> 0 <= c <= s.len()
            && vs.len() == n,
    decreases s.len(), 2int, n,
{
    if n > 0 {
        lemma_decode_consumed(s);
        match spec_decode(s) {
            SpecDecode::Value(v, c) => {
                lemma_decode_elems_consumed(tail_from(s, c), (n - 1) as nat);
            },
            _ => {},
        }
    }
}

/// The executable result agrees with the specification-level decoder.
pub open spec fn parse_result_ok(s: Seq<u8>, r: Result<(RespValue, usize), ParserError>) -> bool {
    match spec_decode(s) {
        SpecDecode::Incomplete => r matches Err(ParserError::Incomplete),
        SpecDecode::Malformed => r matches Err(e) && e matches ParserError::InvalidFormat(_),
        SpecDecode::Value(v, c) => r matches Ok(p) && p.0@ == v && p.1 == c,
    }
}

/// Relies on String::from_utf8: it returns the decoded string exactly when
/// the bytes are valid UTF-8, and rejects them otherwise.
#[verifier::external_body]
fn bytes_to_string(v: Vec<u8>) -> (r: Option<String>)
    ensures
        match r {
            Some(s) => valid_utf8(v@) && s@ == decode_utf8(v@),
            None => !valid_utf8(v@),
        },
{
    match String::from_utf8(v) {
        Ok(s) => Some(s),
        Err(_) => None,
    }
}

/// Find the first CRLF pair in the buffer.
fn find_crlf(buffer: &[u8]) -> (r: Option<usize>)
    ensures
        match r {
            Some(p) => crlf_pos(buffer@) == Some(p as nat) && p + 2 <= buffer@.len(),
            None => crlf_pos(buffer@) is None,
        },
{
    let n: usize = buffer.len();
    if n < 2 {
        return None;
    }
    let mut i: usize = 0;
    while i <= n - 2
        invariant
            0 <= i <= n - 1,
            2 <= n,
            n == buffer@.len(),
            crlf_pos(buffer@) == crlf_pos_from(buffer@, i as nat),
        decreases n - i,
    {
        if buffer[i] == CR && buffer[i + 1] == LF {
            return Some(i);
        }
        i = i + 1;
    }
    None
}

impl RespValue {
    /// Decode one value from the front of the buffer. On success the consumed
    /// count is the exact number of bytes of the value's encoding.
    pub fn parse(buffer: &[u8]) -> (r: Result<(RespValue, usize), ParserError>)
        ensures
            parse_result_ok(buffer@, r),
        decreases buffer@.len(), 2int,
    {
        if buffer.len() == 0 {
            return Err(ParserError::Incomplete);
        }
        let b: u8 = buffer[0];
        if b == MARK_INTEGER {
            Self::parse_integer(buffer)
        } else if b == MARK_SIMPLE {
            Self::parse_simple_string(buffer)
        } else if b == MARK_BULK {
            Self::parse_bulk_string(buffer)
        } else if b == MARK_ARRAY {
            Self::parse_array(buffer)
        } else {
            Err(ParserError::InvalidFormat(String::from_str("unknown prefix")))
        }
    }

    fn parse_integer(buffer: &[u8]) -> (r: Result<(RespValue, usize), ParserError>)
        requires
            buffer@.len() > 0,
            buffer@[0] == MARK_INTEGER,
        ensures
            spec_decode_integer(buffer@) == spec_decode(buffer@),
            parse_result_ok(buffer@, r),
    {
        let blen: usize = buffer.len();
        match find_crlf(buffer) {
            None => Err(ParserError::Incomplete),
            Some(p) => {
                proof {
                    lemma_crlf_pos(buffer@);
                }
                let line = slice_subrange(buffer, 1, p);
                match parse_i64(line) {
                    None => Err(ParserError::InvalidFormat(String::from_str("invalid integer"))),
                    Some(v) => Ok((RespValue::Integer(v), p + 2)),
                }
            },
        }
    }

    fn parse_simple_string(buffer: &[u8]) -> (r: Result<(RespValue, usize), ParserError>)
        requires
            buffer@.len() > 0,
            buffer@[0] == MARK_SIMPLE,
        ensures
            spec_decode_simple(buffer@) == spec_decode(buffer@),
            parse_result_ok(buffer@, r),
    {
        let blen: usize = buffer.len();
        match find_crlf(buffer) {
            None => Err(ParserError::Incomplete),
            Some(p) => {
                proof {
                    lemma_crlf_pos(buffer@);
                }
                let line = slice_to_vec(slice_subrange(buffer, 1, p));
                match bytes_to_string(line) {
                    None => Err(
                        ParserError::InvalidFormat(String::from_str("invalid simple string")),
                    ),
                    Some(s) => Ok((RespValue::SimpleString(s), p + 2)),
                }
            },
        }
    }

    fn parse_bulk_string(buffer: &[u8]) -> (r: Result<(RespValue, usize), ParserError>)
        requires
            buffer@.len() > 0,
            buffer@[0] == MARK_BULK,
        ensures
            spec_decode_bulk(buffer@) == spec_decode(buffer@),
            parse_result_ok(buffer@, r),
    {
        let blen: usize = buffer.len();
        match find_crlf(buffer) {
            None => Err(ParserError::Incomplete),
            Some(p) => {
                proof {
                    lemma_crlf_pos(buffer@);
                }
                let line = slice_subrange(buffer, 1, p);
                match parse_i64(line) {
                    None => Err(
                        ParserError::InvalidFormat(String::from_str("invalid bulk length")),
                    ),
                    Some(l) => {
                        if l == -1 {
                            Ok((RespValue::Null, p + 2))
                        } else if l < -1 {
                            Err(
                                ParserError::InvalidFormat(
                                    String::from_str("negative bulk length"),
                                ),
                            )
                        } else {
                            let avail: usize = buffer.len() - (p + 2);
                            if (avail as u64) < (l as u64) + 2 {
                                Err(ParserError::Incomplete)
                            } else {
                                let lu: usize = l as usize;
                                if buffer[p + 2 + lu] == CR && buffer[p + 3 + lu] == LF {
                                    let data = slice_to_vec(
                                        slice_subrange(buffer, p + 2, p + 2 + lu),
                                    );
                                    Ok((RespValue::BulkString(data), p + 4 + lu))
                                } else {
                                    Err(
                                        ParserError::InvalidFormat(
                                            String::from_str("missing terminator"),
                                        ),
                                    )
                                }
                            }
                        }
                    },
                }
            },
        }
    }

    fn parse_array(buffer: &[u8]) -> (r: Result<(RespValue, usize), ParserError>)
        requires
            buffer@.len() > 0,
            buffer@[0] == MARK_ARRAY,
        ensures
            spec_decode_array(buffer@) == spec_decode(buffer@),
            parse_result_ok(buffer@, r),
        decreases buffer@.len(), 1int,
    {
        let blen: usize = buffer.len();
        match find_crlf(buffer) {
            None => Err(ParserError::Incomplete),
            Some(p) => {
                proof {
                    lemma_crlf_pos(buffer@);
                }
                let line = slice_subrange(buffer, 1, p);
                match parse_i64(line) {
                    None => Err(
                        ParserError::InvalidFormat(String::from_str("invalid array length")),
                    ),
                    Some(l) => {
                        if l == -1 {
                            Ok((RespValue::Null, p + 2))
                        } else if l < -1 {
                            Err(
                                ParserError::InvalidFormat(
                                    String::from_str("negative array length"),
                                ),
                            )
                        } else {
                            Self::parse_array_elems(buffer, p, l)
                        }
                    },
                }
            },
        }
    }

    fn parse_array_elems(buffer: &[u8], p: usize, l: i64) -> (r: Result<
        (RespValue, usize),
        ParserError,
    >)
        requires
            buffer@.len() > 0,
            buffer@[0] == MARK_ARRAY,
            crlf_pos(buffer@) == Some(p as nat),
            1 <= p,
            p + 2 <= buffer@.len(),
            spec_parse_i64(buffer@.subrange(1, p as int)) == Some(l),
            l >= 0,
        ensures
            parse_result_ok(buffer@, r),
        decreases buffer@.len(), 0int,
    {
        let blen: usize = buffer.len();
        let ghost s = buffer@;
        let ghost n_total = l as nat;
        let mut elements: Vec<RespValue> = Vec::new();
        let mut consumed: usize = p + 2;
        let mut k: u64 = 0;
        let n: u64 = l as u64;
        while k < n
            invariant
                s == buffer@,
                s.len() > 0,
                s[0] == MARK_ARRAY,
                crlf_pos(s) == Some(p as nat),
                spec_parse_i64(s.subrange(1, p as int)) == Some(l),
                l >= 0,
                n == l as u64,
                n_total == l as nat,
                0 <= k <= n,
                p + 2 <= consumed <= s.len(),
                elements@.len() == k,
                spec_decode_array(s) == (match spec_decode_elems(
                    tail_from(s, consumed as int),
                    (n_total - k as nat) as nat,
                ) {
                    SpecDecodeElems::Incomplete => SpecDecode::Incomplete,
                    SpecDecodeElems::Malformed => SpecDecode::Malformed,
                    SpecDecodeElems::Elems(vs, c) => SpecDecode::Value(
                        RespModel::Array(model_elems(elements@) + vs),
                        consumed + c,
                    ),
                }),
            decreases n - k,
        {
            let rest = slice_subrange(buffer, consumed, buffer.len());
            proof {
                assert(rest@ =~= tail_from(s, consumed as int));
            }
            match Self::parse(rest) {
                Err(ParserError::Incomplete) => {
                    return Err(ParserError::Incomplete);
                },
                Err(ParserError::InvalidFormat(m)) => {
                    return Err(ParserError::InvalidFormat(m));
                },
                Ok((val, c)) => {
                    proof {
                        lemma_decode_consumed(rest@);
                        assert(tail_from(tail_from(s, consumed as int), c as int) =~= tail_from(
                            s,
                            consumed + c,
                        ));
                        lemma_model_elems_push(elements@, val);
                    }
                    let ghost old_elems = elements@;
                    elements.push(val);
                    consumed = consumed + c;
                    k = k + 1;
                    proof {
                        match spec_decode_elems(tail_from(s, consumed as int), (n_total
                            - k as nat) as nat) {
                            SpecDecodeElems::Elems(vs2, c2) => {
                                assert(model_elems(old_elems) + (seq![model_of(val)] + vs2)
                                    =~= model_elems(elements@) + vs2);
                            },
                            _ => {},
                        }
                    }
                },
            }
        }
        proof {
            assert(spec_decode_elems(tail_from(s, consumed as int), 0) == SpecDecodeElems::Elems(
                Seq::<RespModel>::empty(),
                0,
            ));
            assert(model_elems(elements@) + Seq::<RespModel>::empty() =~= model_elems(
                elements@,
            ));
        }
        Ok((RespValue::Array(elements), consumed))
    }
}

} // verus!
