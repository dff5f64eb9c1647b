//! Laws of the library, each stated and proved over the specification-level
//! decoder, interpreter and store.
use vstd::prelude::*;

use crate::ascii::all_digits;
use crate::ascii::dec_bytes;
use crate::ascii::digits_of;
use crate::ascii::is_digit;
use crate::ascii::lemma_dec_bytes_val;
use crate::ascii::spec_parse_i64;
use crate::commands::CmdErrModel;
use crate::commands::CommandModel;
use crate::commands::opt_px;
use crate::commands::spec_bulk_reply;
use crate::commands::spec_execute;
use crate::commands::spec_from_resp;
use crate::commands::spec_null_bulk_reply;
use crate::commands::spec_sat_add_u64;
use crate::commands::verb_get;
use crate::commands::verb_set;
use crate::db::EntryModel;
use crate::ascii::spec_parse_u64;
use crate::ascii::spec_upper;
use crate::parser::CR;
use crate::parser::LF;
use crate::parser::MARK_ARRAY;
use crate::parser::MARK_BULK;
use crate::parser::MARK_INTEGER;
use crate::parser::MARK_SIMPLE;
use crate::parser::RespModel;
use crate::parser::SpecDecode;
use crate::parser::crlf_at;
use crate::parser::crlf_pos;
use crate::parser::crlf_pos_from;
use crate::parser::lemma_crlf_pos;
use crate::parser::SpecDecodeElems;
use crate::parser::lemma_decode_consumed;
use crate::parser::spec_decode;
use crate::parser::spec_decode_elems;
use crate::parser::tail_from;
use vstd::utf8::decode_utf8;
use vstd::utf8::valid_utf8;

verus! {

/// The two terminator bytes.
pub open spec fn crlf() -> Seq<u8> {
    seq![CR, LF]
}

/// No CRLF pair starts anywhere in `s`.
pub open spec fn no_crlf(s: Seq<u8>) -> bool {
    forall|j: int| 0 <= j < s.len() - 1 ==> !((#[trigger] s[j]) == CR && s[j + 1] == LF)
}

/// When a CRLF pair stands at `p` and none before it, `p` is the first.
pub proof fn lemma_crlf_pos_exact(s: Seq<u8>, i: nat, p: nat)
    requires
        i <= p,
        crlf_at(s, p as int),
        forall|j: int| i <= j < p ==> !crlf_at(s, j),
    ensures
        crlf_pos_from(s, i) == Some(p),
    decreases p - i,
{
    if i < p {
        assert(!crlf_at(s, i as int));
        lemma_crlf_pos_exact(s, i + 1, p);
    }
}

/// A decimal representation accepted by the integer parser holds only sign
/// and digit bytes, so no CR or LF.
pub proof fn lemma_repr_no_crlf(line: Seq<u8>)
    requires
        spec_parse_i64(line) is Some,
    ensures
        forall|j: int| 0 <= j < line.len() ==> (#[trigger] line[j]) != CR && line[j] != LF,
        no_crlf(line),
{
    let ds = digits_of(line);
    assert(all_digits(ds));
    assert forall|j: int| 0 <= j < line.len() implies (#[trigger] line[j]) != CR && line[j] != LF
        by {
        if line.len() > 0 && (line[0] == 45 || line[0] == 43) {
            if j > 0 {
                assert(is_digit(ds[j - 1]));
            }
        } else {
            assert(is_digit(ds[j]));
        }
    }
}

/// A value line of the form `<mark><repr>\r\n...` finds its first CRLF right
/// after the representation.
pub proof fn lemma_header_crlf(s: Seq<u8>, line: Seq<u8>)
    requires
        s.len() >= line.len() + 3,
        s[0] != CR,
        no_crlf(line),
        forall|j: int| 0 <= j < line.len() ==> s[j + 1] == line[j],
        s[line.len() + 1int] == CR,
        s[line.len() + 2int] == LF,
    ensures
        crlf_pos(s) == Some((line.len() + 1) as nat),
{
    let p = line.len() + 1;
    assert(crlf_at(s, p as int));
    assert forall|j: int| 0 <= j < p implies !crlf_at(s, j) by {
        if j > 0 {
            assert(s[j] == line[j - 1]);
            if j < line.len() {
                assert(s[j + 1] == line[j]);
            } else {
                assert(s[j + 1] == CR);
            }
        }
    }
    lemma_crlf_pos_exact(s, 0, p as nat);
}

/// A bulk string whose trailing two bytes are not CRLF is malformed, even
/// when the declared length matches the payload.
pub proof fn lemma_bulk_bad_terminator(line: Seq<u8>, payload: Seq<u8>, b0: u8, b1: u8)
    requires
        spec_parse_i64(line) matches Some(l) && l == payload.len(),
        !(b0 == CR && b1 == LF),
    ensures
        spec_decode(seq![MARK_BULK] + line + crlf() + payload + seq![b0, b1])
            == SpecDecode::Malformed,
{
    let s = seq![MARK_BULK] + line + crlf() + payload + seq![b0, b1];
    lemma_repr_no_crlf(line);
    lemma_header_crlf(s, line);
    let p = line.len() + 1;
    assert(s.subrange(1, p as int) =~= line);
    let l = spec_parse_i64(line)->0;
    assert(l == payload.len());
    assert(s.len() == p + 2 + l + 2);
    assert(s[p + 2 + l] == b0 && s[p + 3 + l] == b1);
}

/// `SET k v` followed by `GET k2` returns `v` whenever `k2` uppercases to the
/// same key as `k`: keys are case-insensitive, and a plain SET has no expiry.
pub proof fn lemma_set_then_get(
    key: Seq<u8>,
    key2: Seq<u8>,
    value: Seq<u8>,
    m: Map<Seq<u8>, EntryModel>,
    now: u64,
    later: u64,
)
    requires
        spec_upper(key2) == spec_upper(key),
    ensures
        ({
            let m1 = spec_execute(CommandModel::SetCmd(key, value, None), m, now).0;
            spec_execute(CommandModel::Get(key2), m1, later) == (m1, spec_bulk_reply(value))
        }),
{
    let k = spec_upper(key);
    let m1 = spec_execute(CommandModel::SetCmd(key, value, None), m, now).0;
    assert(m1.contains_key(k) && m1[k].value == value && m1[k].expires_at is None);
}

/// `SET k v PX ms`: a GET before the deadline returns `v`; a GET at or after
/// the deadline misses and removes the entry in the same operation.
pub proof fn lemma_set_px_then_get(
    key: Seq<u8>,
    key2: Seq<u8>,
    value: Seq<u8>,
    px: u64,
    m: Map<Seq<u8>, EntryModel>,
    now: u64,
    later: u64,
)
    requires
        spec_upper(key2) == spec_upper(key),
    ensures
        ({
            let m1 = spec_execute(CommandModel::SetCmd(key, value, Some(px)), m, now).0;
            &&& later < spec_sat_add_u64(now, px) ==> spec_execute(
                CommandModel::Get(key2),
                m1,
                later,
            ) == (m1, spec_bulk_reply(value))
            &&& later >= spec_sat_add_u64(now, px) ==> spec_execute(
                CommandModel::Get(key2),
                m1,
                later,
            ) == (m1.remove(spec_upper(key)), spec_null_bulk_reply())
                && !spec_execute(CommandModel::Get(key2), m1, later).0.contains_key(
                spec_upper(key2),
            )
        }),
{
    let k = spec_upper(key);
    let m1 = spec_execute(CommandModel::SetCmd(key, value, Some(px)), m, now).0;
    assert(m1.contains_key(k) && m1[k].value == value && m1[k].expires_at == Some(
        spec_sat_add_u64(now, px),
    ));
}

/// `GET` with no argument, or with two or more arguments that are bulk
/// strings, fails with `WrongArgCount`.
pub proof fn lemma_get_arity(es: Seq<RespModel>)
    requires
        es.len() >= 1,
        es[0] matches RespModel::BulkString(name) && spec_upper(name) == verb_get(),
        es.len() != 2,
        forall|i: int| 1 <= i < es.len() ==> (#[trigger] es[i]) matches RespModel::BulkString(_),
    ensures
        spec_from_resp(RespModel::Array(es)) == Err::<CommandModel, CmdErrModel>(
            CmdErrModel::WrongArgCount,
        ),
{
    let args = es.subrange(1, es.len() as int);
    if es.len() >= 3 {
        assert(args[0] == es[1]);
    }
}

/// `SET` with an option token other than PX fails with `InvalidArgument`.
pub proof fn lemma_set_bad_option(es: Seq<RespModel>)
    requires
        es.len() == 4,
        es[0] matches RespModel::BulkString(name) && spec_upper(name) == verb_set(),
        forall|i: int| 1 <= i < es.len() ==> (#[trigger] es[i]) matches RespModel::BulkString(_),
        es[3] matches RespModel::BulkString(opt) && spec_upper(opt) != opt_px(),
    ensures
        spec_from_resp(RespModel::Array(es)) == Err::<CommandModel, CmdErrModel>(
            CmdErrModel::InvalidArgument,
        ),
{
    let args = es.subrange(1, es.len() as int);
    assert(args[0] == es[1] && args[1] == es[2] && args[2] == es[3]);
}

/// `SET ... PX <not a number>` fails with `InvalidArgument`.
pub proof fn lemma_set_bad_px(es: Seq<RespModel>)
    requires
        es.len() == 5,
        es[0] matches RespModel::BulkString(name) && spec_upper(name) == verb_set(),
        forall|i: int| 1 <= i < es.len() ==> (#[trigger] es[i]) matches RespModel::BulkString(_),
        es[3] matches RespModel::BulkString(opt) && spec_upper(opt) == opt_px(),
        es[4] matches RespModel::BulkString(pxv) && spec_parse_u64(pxv) is None,
    ensures
        spec_from_resp(RespModel::Array(es)) == Err::<CommandModel, CmdErrModel>(
            CmdErrModel::InvalidArgument,
        ),
{
    let args = es.subrange(1, es.len() as int);
    assert(args[0] == es[1] && args[1] == es[2] && args[2] == es[3] && args[3] == es[4]);
}

/// An empty array fails with `EmptyCommand`.
pub proof fn lemma_empty_command()
    ensures
        spec_from_resp(RespModel::Array(Seq::empty())) == Err::<CommandModel, CmdErrModel>(
            CmdErrModel::EmptyCommand,
        ),
{
}

/// A non-array top-level value fails with `NotAnArray`.
pub proof fn lemma_not_an_array(v: RespModel)
    requires
        !(v matches RespModel::Array(_)),
    ensures
        spec_from_resp(v) == Err::<CommandModel, CmdErrModel>(CmdErrModel::NotAnArray),
{
}


/// `s` is one valid wire encoding of the value `v`: the grammar of §the wire
/// protocol, with any accepted decimal representation in the headers.
pub open spec fn is_encoding(s: Seq<u8>, v: RespModel) -> bool
    decreases v,
{
    match v {
        RespModel::SimpleString(cs) => exists|line: Seq<u8>|
            #![trigger no_crlf(line)]
            s == seq![MARK_SIMPLE] + line + crlf() && no_crlf(line) && valid_utf8(line)
                && decode_utf8(line) == cs,
        RespModel::Integer(i) => exists|line: Seq<u8>|
            #![trigger spec_parse_i64(line)]
            s == seq![MARK_INTEGER] + line + crlf() && spec_parse_i64(line) == Some(i),
        RespModel::BulkString(b) => exists|line: Seq<u8>|
            #![trigger spec_parse_i64(line)]
            s == seq![MARK_BULK] + line + crlf() + b + crlf() && b.len() <= i64::MAX
                && spec_parse_i64(line) == Some(b.len() as i64),
        RespModel::Array(vs) => exists|line: Seq<u8>|
            #![trigger spec_parse_i64(line)]
            s.len() >= line.len() + 3 && s == seq![MARK_ARRAY] + line + crlf() + s.subrange(
                line.len() + 3int,
                s.len() as int,
            ) && vs.len() <= i64::MAX && spec_parse_i64(line) == Some(vs.len() as i64)
                && is_elems_encoding(s.subrange(line.len() + 3int, s.len() as int), vs),
        RespModel::Null => exists|line: Seq<u8>, mark: u8|
            #![trigger spec_parse_i64(line), seq![mark]]
            s == seq![mark] + line + crlf() && (mark == MARK_BULK || mark == MARK_ARRAY)
                && spec_parse_i64(line) == Some(-1i64),
    }
}

/// `s` is the concatenation of one valid encoding per element of `vs`.
pub open spec fn is_elems_encoding(s: Seq<u8>, vs: Seq<RespModel>) -> bool
    decreases vs,
{
    if vs.len() == 0 {
        s.len() == 0
    } else {
        exists|k: int|
            #![trigger s.subrange(0, k)]
            0 < k <= s.len() && is_encoding(s.subrange(0, k), vs[0]) && is_elems_encoding(
                s.subrange(k, s.len() as int),
                vs.drop_first(),
            )
    }
}

/// Whatever bytes follow, a decoded value and its consumed count stay the
/// same: the decoder never reads past the value it reports.
pub proof fn lemma_decode_extend(s: Seq<u8>, t: Seq<u8>)
    ensures
        spec_decode(s) matches SpecDecode::Value(v, c) ==> spec_decode(s + t)
            == SpecDecode::Value(v, c),
    decreases s.len(), 1int, 0int,
{
    let u = s + t;
    if s.len() > 0 && (s[0] == MARK_INTEGER || s[0] == MARK_SIMPLE || s[0] == MARK_BULK || s[0]
        == MARK_ARRAY) {
        lemma_crlf_pos(s);
        match crlf_pos(s) {
            None => {},
            Some(p) => {
                assert forall|j: int| 0 <= j < p implies !crlf_at(u, j) by {
                    assert(!crlf_at(s, j));
                    assert(u[j] == s[j] && u[j + 1] == s[j + 1]);
                }
                assert(crlf_at(u, p as int));
                lemma_crlf_pos_exact(u, 0, p);
                let line = s.subrange(1, p as int);
                assert(u.subrange(1, p as int) =~= line);
                if s[0] == MARK_BULK {
                    match spec_parse_i64(line) {
                        None => {},
                        Some(l) => {
                            if l >= 0 && p + 2 + l + 2 <= s.len() {
                                assert(u[p + 2 + l] == s[p + 2 + l] && u[p + 3 + l] == s[p + 3
                                    + l]);
                                assert(u.subrange(p + 2int, p + 2 + l) =~= s.subrange(
                                    p + 2int,
                                    p + 2 + l,
                                ));
                            }
                        },
                    }
                }
                if s[0] == MARK_ARRAY {
                    match spec_parse_i64(line) {
                        None => {},
                        Some(l) => {
                            if l >= 0 {
                                assert(tail_from(u, p + 2int) =~= tail_from(s, p + 2int) + t);
                                lemma_elems_extend(tail_from(s, p + 2int), t, l as nat);
                            }
                        },
                    }
                }
            },
        }
    }
}

/// Companion to `lemma_decode_extend` for runs of array elements.
pub proof fn lemma_elems_extend(s: Seq<u8>, t: Seq<u8>, n: nat)
    ensures
        spec_decode_elems(s, n) matches SpecDecodeElems::Elems(vs, c) ==> spec_decode_elems(
            s + t,
            n,
        ) == SpecDecodeElems::Elems(vs, c),
    decreases s.len(), 2int, n,
{
    if n > 0 {
        match spec_decode(s) {
            SpecDecode::Value(v, c) => {
                lemma_decode_consumed(s);
                lemma_decode_extend(s, t);
                assert(tail_from(s + t, c) =~= tail_from(s, c) + t);
                lemma_elems_extend(tail_from(s, c), t, (n - 1) as nat);
            },
            _ => {},
        }
    }
}

/// Every valid encoding decodes to exactly its value, consuming exactly the
/// encoding's byte length.
pub proof fn lemma_decode_encoding(s: Seq<u8>, v: RespModel)
    requires
        is_encoding(s, v),
    ensures
        spec_decode(s) == SpecDecode::Value(v, s.len() as int),
    decreases v,
{
    match v {
        RespModel::SimpleString(cs) => {
            let line = choose|line: Seq<u8>|
                #![trigger no_crlf(line)]
                s == seq![MARK_SIMPLE] + line + crlf() && no_crlf(line) && valid_utf8(line)
                    && decode_utf8(line) == cs;
            lemma_header_crlf(s, line);
            assert(s.subrange(1, line.len() + 1int) =~= line);
        },
        RespModel::Integer(i) => {
            let line = choose|line: Seq<u8>|
                #![trigger spec_parse_i64(line)]
                s == seq![MARK_INTEGER] + line + crlf() && spec_parse_i64(line) == Some(i);
            lemma_repr_no_crlf(line);
            lemma_header_crlf(s, line);
            assert(s.subrange(1, line.len() + 1int) =~= line);
        },
        RespModel::BulkString(b) => {
            let line = choose|line: Seq<u8>|
                #![trigger spec_parse_i64(line)]
                s == seq![MARK_BULK] + line + crlf() + b + crlf() && b.len() <= i64::MAX
                    && spec_parse_i64(line) == Some(b.len() as i64);
            lemma_repr_no_crlf(line);
            lemma_header_crlf(s, line);
            let p = line.len() + 1;
            assert(s.subrange(1, p as int) =~= line);
            assert(s[p + 2int + b.len()] == CR && s[p + 3int + b.len()] == LF);
            assert(s.subrange(p + 2int, p + 2int + b.len()) =~= b);
        },
        RespModel::Array(vs) => {
            let line = choose|line: Seq<u8>|
                #![trigger spec_parse_i64(line)]
                s.len() >= line.len() + 3 && s == seq![MARK_ARRAY] + line + crlf() + s.subrange(
                    line.len() + 3int,
                    s.len() as int,
                ) && vs.len() <= i64::MAX && spec_parse_i64(line) == Some(vs.len() as i64)
                    && is_elems_encoding(s.subrange(line.len() + 3int, s.len() as int), vs);
            let rest = s.subrange(line.len() + 3int, s.len() as int);
            lemma_repr_no_crlf(line);
            lemma_header_crlf(s, line);
            let p = line.len() + 1;
            assert(s.subrange(1, p as int) =~= line);
            assert(tail_from(s, p + 2int) =~= rest);
            lemma_elems_encoding(rest, vs);
        },
        RespModel::Null => {
            let (line, mark) = choose|line: Seq<u8>, mark: u8|
                #![trigger spec_parse_i64(line), seq![mark]]
                s == seq![mark] + line + crlf() && (mark == MARK_BULK || mark == MARK_ARRAY)
                    && spec_parse_i64(line) == Some(-1i64);
            lemma_repr_no_crlf(line);
            lemma_header_crlf(s, line);
            assert(s.subrange(1, line.len() + 1int) =~= line);
        },
    }
}

/// Companion to `lemma_decode_encoding` for runs of array elements.
pub proof fn lemma_elems_encoding(s: Seq<u8>, vs: Seq<RespModel>)
    requires
        is_elems_encoding(s, vs),
    ensures
        spec_decode_elems(s, vs.len()) == SpecDecodeElems::Elems(vs, s.len() as int),
    decreases vs,
{
    if vs.len() == 0 {
        assert(vs =~= Seq::<RespModel>::empty());
    } else {
        let k = choose|k: int|
            #![trigger s.subrange(0, k)]
            0 < k <= s.len() && is_encoding(s.subrange(0, k), vs[0]) && is_elems_encoding(
                s.subrange(k, s.len() as int),
                vs.drop_first(),
            );
        let head = s.subrange(0, k);
        let rest = s.subrange(k, s.len() as int);
        lemma_decode_encoding(head, vs[0]);
        lemma_decode_extend(head, rest);
        assert(head + rest =~= s);
        assert(spec_decode(s) == SpecDecode::Value(vs[0], k));
        lemma_elems_encoding(rest, vs.drop_first());
        assert(tail_from(s, k) =~= rest);
        assert(seq![vs[0]] + vs.drop_first() =~= vs);
    }
}

/// Any strict prefix of a valid encoding decodes to `Incomplete`: feeding the
/// decoder a growing buffer is a pure retry, never a different answer.
pub proof fn lemma_encoding_prefix_incomplete(s: Seq<u8>, v: RespModel, k: int)
    requires
        is_encoding(s, v),
        0 <= k < s.len(),
    ensures
        spec_decode(s.subrange(0, k)) == SpecDecode::Incomplete,
    decreases v,
{
    let u = s.subrange(0, k);
    if k == 0 {
        assert(u.len() == 0);
    } else {
        match v {
            RespModel::SimpleString(cs) => {
                let line = choose|line: Seq<u8>|
                    #![trigger no_crlf(line)]
                    s == seq![MARK_SIMPLE] + line + crlf() && no_crlf(line) && valid_utf8(line)
                        && decode_utf8(line) == cs;
                lemma_header_prefix_incomplete(s, line, k);
            },
            RespModel::Integer(i) => {
                let line = choose|line: Seq<u8>|
                    #![trigger spec_parse_i64(line)]
                    s == seq![MARK_INTEGER] + line + crlf() && spec_parse_i64(line) == Some(i);
                lemma_repr_no_crlf(line);
                lemma_header_prefix_incomplete(s, line, k);
            },
            RespModel::Null => {
                let (line, mark) = choose|line: Seq<u8>, mark: u8|
                    #![trigger spec_parse_i64(line), seq![mark]]
                    s == seq![mark] + line + crlf() && (mark == MARK_BULK || mark == MARK_ARRAY)
                        && spec_parse_i64(line) == Some(-1i64);
                lemma_repr_no_crlf(line);
                lemma_header_prefix_incomplete(s, line, k);
            },
            RespModel::BulkString(b) => {
                let line = choose|line: Seq<u8>|
                    #![trigger spec_parse_i64(line)]
                    s == seq![MARK_BULK] + line + crlf() + b + crlf() && b.len() <= i64::MAX
                        && spec_parse_i64(line) == Some(b.len() as i64);
                lemma_repr_no_crlf(line);
                let p = line.len() + 1;
                if k <= p + 1 {
                    lemma_header_prefix_incomplete(s, line, k);
                } else {
                    lemma_header_crlf(s, line);
                    lemma_crlf_pos(u);
                    assert forall|j: int| 0 <= j < p implies !crlf_at(u, j) by {
                        assert(!crlf_at(s, j));
                        assert(u[j] == s[j] && u[j + 1] == s[j + 1]);
                    }
                    assert(crlf_at(u, p as int));
                    lemma_crlf_pos_exact(u, 0, p as nat);
                    assert(u.subrange(1, p as int) =~= line);
                }
            },
            RespModel::Array(vs) => {
                let line = choose|line: Seq<u8>|
                    #![trigger spec_parse_i64(line)]
                    s.len() >= line.len() + 3 && s == seq![MARK_ARRAY] + line + crlf()
                        + s.subrange(line.len() + 3int, s.len() as int) && vs.len() <= i64::MAX
                        && spec_parse_i64(line) == Some(vs.len() as i64) && is_elems_encoding(
                        s.subrange(line.len() + 3int, s.len() as int),
                        vs,
                    );
                let rest = s.subrange(line.len() + 3int, s.len() as int);
                lemma_repr_no_crlf(line);
                let p = line.len() + 1;
                if k <= p + 1 {
                    lemma_header_prefix_incomplete(s, line, k);
                } else {
                    assert forall|j: int| 0 <= j < p implies !crlf_at(u, j) by {
                        lemma_header_crlf(s, line);
                        assert(!crlf_at(s, j));
                        assert(u[j] == s[j] && u[j + 1] == s[j + 1]);
                    }
                    assert(crlf_at(u, p as int));
                    lemma_crlf_pos_exact(u, 0, p as nat);
                    assert(u.subrange(1, p as int) =~= line);
                    assert(tail_from(u, p + 2int) =~= rest.subrange(0, k - p - 2));
                    lemma_elems_encoding_prefix(rest, vs, k - p - 2);
                }
            },
        }
    }
}

/// Companion to `lemma_encoding_prefix_incomplete` for runs of elements.
pub proof fn lemma_elems_encoding_prefix(s: Seq<u8>, vs: Seq<RespModel>, j: int)
    requires
        is_elems_encoding(s, vs),
        0 <= j < s.len(),
    ensures
        spec_decode_elems(s.subrange(0, j), vs.len()) == SpecDecodeElems::Incomplete,
    decreases vs,
{
    let u = s.subrange(0, j);
    let k = choose|k: int|
        #![trigger s.subrange(0, k)]
        0 < k <= s.len() && is_encoding(s.subrange(0, k), vs[0]) && is_elems_encoding(
            s.subrange(k, s.len() as int),
            vs.drop_first(),
        );
    if j < k {
        lemma_encoding_prefix_incomplete(s.subrange(0, k), vs[0], j);
        assert(s.subrange(0, k).subrange(0, j) =~= u);
    } else {
        let head = s.subrange(0, k);
        lemma_decode_encoding(head, vs[0]);
        lemma_decode_extend(head, s.subrange(k, j));
        assert(head + s.subrange(k, j) =~= u);
        assert(spec_decode(u) == SpecDecode::Value(vs[0], k));
        let rest = s.subrange(k, s.len() as int);
        assert(tail_from(u, k) =~= rest.subrange(0, j - k));
        lemma_elems_encoding_prefix(rest, vs.drop_first(), j - k);
    }
}

/// A proper prefix of a value's header line holds no CRLF, so decoding it
/// asks for more bytes.
pub proof fn lemma_header_prefix_incomplete(s: Seq<u8>, line: Seq<u8>, k: int)
    requires
        s.len() >= line.len() + 3,
        s[0] != CR,
        s[0] == MARK_INTEGER || s[0] == MARK_SIMPLE || s[0] == MARK_BULK || s[0] == MARK_ARRAY,
        no_crlf(line),
        forall|j: int| 0 <= j < line.len() ==> s[j + 1] == line[j],
        s[line.len() + 1int] == CR,
        s[line.len() + 2int] == LF,
        1 <= k <= line.len() + 2,
    ensures
        spec_decode(s.subrange(0, k)) == SpecDecode::Incomplete,
{
    let u = s.subrange(0, k);
    assert forall|j: int| 0 <= j implies !crlf_at(u, j) by {
        if 0 <= j < u.len() - 1 {
            if j == 0 {
            } else if j < line.len() {
                assert(u[j] == line[j - 1] && u[j + 1] == line[j]);
            } else {
                assert(j == line.len());
                assert(u[j + 1] == CR);
            }
        }
    }
    lemma_crlf_pos(u);
    match crlf_pos(u) {
        Some(q) => {
            assert(crlf_at(u, q as int));
            assert(false);
        },
        None => {},
    }
}


/// The bulk replies the interpreter produces are themselves valid wire
/// encodings, so a peer decoding them gets back exactly the payload.
pub proof fn lemma_bulk_reply_is_encoding(b: Seq<u8>)
    requires
        b.len() <= i64::MAX,
    ensures
        is_encoding(spec_bulk_reply(b), RespModel::BulkString(b)),
        spec_decode(spec_bulk_reply(b)) == SpecDecode::Value(
            RespModel::BulkString(b),
            spec_bulk_reply(b).len() as int,
        ),
{
    let line = dec_bytes(b.len() as int);
    lemma_dec_bytes_val(b.len() as int);
    assert(digits_of(line) =~= line);
    assert(spec_parse_i64(line) == Some(b.len() as i64));
    assert(spec_bulk_reply(b) =~= seq![MARK_BULK] + line + crlf() + b + crlf());
    lemma_decode_encoding(spec_bulk_reply(b), RespModel::BulkString(b));
}

} // verus!
