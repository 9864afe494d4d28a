//! RESP decoding. The decoder consumes a prefix of the buffer and
//! reports how many bytes it took, so a caller can advance a cursor;
//! a buffer that ends inside a value yields `NeedMore`, anything that
//! can never extend to a value yields `Malformed`.

use vstd::prelude::*;
use crate::ascii::{find_crlf, parse_i32_spec, parse_i32_range, all_digits, find_crlf_at};
use crate::resp::types::{RESPDatatypes, SpecResp, view_of, view_items, is_double_text, dot_split_ok};
use crate::resp::serialize::bool_text;
use crate::errors::RespError;

verus! {

broadcast use vstd::seq::axiom_seq_index_decreases, vstd::std_specs::vec::axiom_vec_index_decreases;

/// Ghost outcome of decoding one value.
pub enum SpecDecode {
    Val(SpecResp, int),
    More,
    Bad,
}

/// Ghost outcome of decoding a run of values.
pub enum SpecItems {
    Vals(Seq<SpecResp>, int),
    More,
    Bad,
}

/// What a byte string decodes to: the first value it holds and the
/// bytes consumed, or the need for more input, or a malformed frame.
pub open spec fn spec_decode(s: Seq<u8>) -> SpecDecode
    decreases s.len(), 0nat,
    via spec_decode_decreases
{
    if s.len() == 0 {
        SpecDecode::More
    } else {
        let tag = s[0];
        let rest = s.skip(1);
        match find_crlf(rest) {
            None => if tag == 43 || tag == 45 || tag == 95 || tag == 58 || tag == 44 || tag == 35
                || tag == 36 || tag == 42 {
                SpecDecode::More
            } else {
                SpecDecode::Bad
            },
            Some(i) => {
                let line = rest.take(i);
                if tag == 43 {
                    SpecDecode::Val(SpecResp::SimpleString(line), 3 + i)
                } else if tag == 45 {
                    SpecDecode::Val(SpecResp::SimpleError(line), 3 + i)
                } else if tag == 95 {
                    if i == 0 {
                        SpecDecode::Val(SpecResp::Null, 3)
                    } else {
                        SpecDecode::Bad
                    }
                } else if tag == 58 {
                    match parse_i32_spec(line) {
                        Some(n) => SpecDecode::Val(SpecResp::Integer(n), 3 + i),
                        None => SpecDecode::Bad,
                    }
                } else if tag == 44 {
                    if is_double_text(line) {
                        SpecDecode::Val(SpecResp::Double(line), 3 + i)
                    } else {
                        SpecDecode::Bad
                    }
                } else if tag == 35 {
                    if line == bool_text(true) {
                        SpecDecode::Val(SpecResp::Boolean(true), 3 + i)
                    } else if line == bool_text(false) {
                        SpecDecode::Val(SpecResp::Boolean(false), 3 + i)
                    } else {
                        SpecDecode::Bad
                    }
                } else if tag == 36 {
                    match parse_i32_spec(line) {
                        None => SpecDecode::Bad,
                        Some(n) => if n == -1 {
                            SpecDecode::Val(SpecResp::NullString, 3 + i)
                        } else if n < -1 {
                            SpecDecode::Bad
                        } else {
                            let hdr = 3 + i;
                            if s.len() <= hdr + n {
                                SpecDecode::More
                            } else if s[hdr + n] != 13 {
                                SpecDecode::Bad
                            } else if s.len() == hdr + n + 1 {
                                SpecDecode::More
                            } else if s[hdr + n + 1] != 10 {
                                SpecDecode::Bad
                            } else {
                                SpecDecode::Val(
                                    SpecResp::BufBulk(s.subrange(hdr, hdr + n)),
                                    hdr + n + 2,
                                )
                            }
                        },
                    }
                } else if tag == 42 {
                    match parse_i32_spec(line) {
                        None => SpecDecode::Bad,
                        Some(n) => if n == -1 {
                            SpecDecode::Val(SpecResp::NullArray, 3 + i)
                        } else if n < -1 {
                            SpecDecode::Bad
                        } else {
                            let hdr = 3 + i;
                            match spec_decode_items(s.skip(hdr), n as int) {
                                SpecItems::More => SpecDecode::More,
                                SpecItems::Bad => SpecDecode::Bad,
                                SpecItems::Vals(elems, c) => SpecDecode::Val(
                                    SpecResp::Array(elems),
                                    hdr + c,
                                ),
                            }
                        },
                    }
                } else {
                    SpecDecode::Bad
                }
            },
        }
    }
}

#[via_fn]
proof fn spec_decode_decreases(s: Seq<u8>) {
    if s.len() != 0 {
        crate::ascii::lemma_find_crlf_char(s.skip(1));
    }
}

/// What a byte string decodes to as a run of `n` consecutive values.
pub open spec fn spec_decode_items(s: Seq<u8>, n: int) -> SpecItems
    decreases s.len(), n + 1,
{
    if n <= 0 {
        SpecItems::Vals(Seq::<SpecResp>::empty(), 0)
    } else {
        match spec_decode(s) {
            SpecDecode::More => SpecItems::More,
            SpecDecode::Bad => SpecItems::Bad,
            SpecDecode::Val(v, c) => if c < 1 || c > s.len() {
                SpecItems::Bad
            } else {
                match spec_decode_items(s.skip(c), n - 1) {
                    SpecItems::More => SpecItems::More,
                    SpecItems::Bad => SpecItems::Bad,
                    SpecItems::Vals(elems, c2) => SpecItems::Vals(seq![v] + elems, c + c2),
                }
            },
        }
    }
}

/// Outcome of decoding one value from a buffer.
pub enum DecodeResult {
    Value { value: RESPDatatypes, consumed: usize },
    NeedMore,
    Malformed,
}

/// Outcome of decoding a run of values from a buffer.
pub enum DecodeItems {
    Values { values: Vec<RESPDatatypes>, consumed: usize },
    NeedMore,
    Malformed,
}

/// The executable outcome agrees with the ghost one.
pub open spec fn decode_matches(r: DecodeResult, sd: SpecDecode) -> bool {
    match r {
        DecodeResult::Value { value, consumed } => sd matches SpecDecode::Val(v, c) && view_of(
            value,
        ) == v && consumed == c,
        DecodeResult::NeedMore => sd is More,
        DecodeResult::Malformed => sd is Bad,
    }
}

/// The executable run outcome agrees with the ghost one.
pub open spec fn decode_items_matches(r: DecodeItems, sd: SpecItems) -> bool {
    match r {
        DecodeItems::Values { values, consumed } => sd matches SpecItems::Vals(elems, c)
            && view_items(values, 0) == elems && consumed == c,
        DecodeItems::NeedMore => sd is More,
        DecodeItems::Malformed => sd is Bad,
    }
}

/// Compares `v[from..to]` against the wire text of `b`.
fn line_is_bool(v: &Vec<u8>, from: usize, to: usize, b: bool) -> (r: bool)
    requires
        from <= to <= v.len(),
    ensures
        r == (v@.subrange(from as int, to as int) == bool_text(b)),
{
    let ghost line = v@.subrange(from as int, to as int);
    if b {
        if to - from == 4 && v[from] == 116 && v[from + 1] == 114 && v[from + 2] == 117 && v[from
            + 3] == 101 {
            proof {
                assert(line =~= bool_text(true));
            }
            true
        } else {
            proof {
                if line == bool_text(true) {
                    assert(line.len() == 4);
                    assert(line[0] == 116 && line[1] == 114 && line[2] == 117 && line[3] == 101);
                    assert(line[0] == v@[from as int]);
                    assert(line[1] == v@[from + 1]);
                    assert(line[2] == v@[from + 2]);
                    assert(line[3] == v@[from + 3]);
                }
            }
            false
        }
    } else {
        if to - from == 5 && v[from] == 102 && v[from + 1] == 97 && v[from + 2] == 108 && v[from
            + 3] == 115 && v[from + 4] == 101 {
            proof {
                assert(line =~= bool_text(false));
            }
            true
        } else {
            proof {
                if line == bool_text(false) {
                    assert(line.len() == 5);
                    assert(line[0] == 102 && line[1] == 97 && line[2] == 108 && line[3] == 115
                        && line[4] == 101);
                    assert(line[0] == v@[from as int]);
                    assert(line[1] == v@[from + 1]);
                    assert(line[2] == v@[from + 2]);
                    assert(line[3] == v@[from + 3]);
                    assert(line[4] == v@[from + 4]);
                }
            }
            false
        }
    }
}

/// Decodes the first value of `input[start..]`.
#[verifier::loop_isolation(false)]
pub fn decode_at(input: &Vec<u8>, start: usize) -> (r: DecodeResult)
    requires
        start <= input.len(),
    ensures
        decode_matches(r, spec_decode(input@.skip(start as int))),
        r matches DecodeResult::Value { consumed, .. } ==> 1 <= consumed <= input.len() - start,
    decreases input.len() - start, 0nat,
{
    let ghost s = input@.skip(start as int);
    proof {
        assert(forall|k: int| 0 <= k < s.len() ==> s[k] == input@[start + k]);
    }
    if start == input.len() {
        return DecodeResult::NeedMore;
    }
    let tag = input[start];
    proof {
        assert(s[0] == tag);
        assert(s.skip(1) =~= input@.skip(start + 1));
    }
    let ghost rest = s.skip(1);
    let crlf = find_crlf_at(input, start + 1);
    match crlf {
        None => {
            if tag == 43 || tag == 45 || tag == 95 || tag == 58 || tag == 44 || tag == 35 || tag
                == 36 || tag == 42 {
                DecodeResult::NeedMore
            } else {
                DecodeResult::Malformed
            }
        },
        Some(p) => {
            let ghost i = p - (start + 1);
            let ghost line = rest.take(i);
            proof {
                assert(line =~= input@.subrange(start + 1, p as int));
            }
            if tag == 43 {
                let payload = crate::ascii::copy_range(input, start + 1, p);
                DecodeResult::Value {
                    value: RESPDatatypes::SimpleString(payload),
                    consumed: p + 2 - start,
                }
            } else if tag == 45 {
                let payload = crate::ascii::copy_range(input, start + 1, p);
                DecodeResult::Value {
                    value: RESPDatatypes::SimpleError(payload),
                    consumed: p + 2 - start,
                }
            } else if tag == 95 {
                if p == start + 1 {
                    DecodeResult::Value { value: RESPDatatypes::Null, consumed: 3 }
                } else {
                    DecodeResult::Malformed
                }
            } else if tag == 58 {
                match parse_i32_range(input, start + 1, p) {
                    Some(n) => DecodeResult::Value {
                        value: RESPDatatypes::Integer(n),
                        consumed: p + 2 - start,
                    },
                    None => DecodeResult::Malformed,
                }
            } else if tag == 44 {
                if crate::resp::types::check_double_text(input, start + 1, p) {
                    let payload = crate::ascii::copy_range(input, start + 1, p);
                    DecodeResult::Value {
                        value: RESPDatatypes::Double(payload),
                        consumed: p + 2 - start,
                    }
                } else {
                    DecodeResult::Malformed
                }
            } else if tag == 35 {
                if line_is_bool(input, start + 1, p, true) {
                    DecodeResult::Value {
                        value: RESPDatatypes::Boolean(true),
                        consumed: p + 2 - start,
                    }
                } else if line_is_bool(input, start + 1, p, false) {
                    DecodeResult::Value {
                        value: RESPDatatypes::Boolean(false),
                        consumed: p + 2 - start,
                    }
                } else {
                    DecodeResult::Malformed
                }
            } else if tag == 36 {
                match parse_i32_range(input, start + 1, p) {
                    None => DecodeResult::Malformed,
                    Some(n) => {
                        if n == -1 {
                            DecodeResult::Value {
                                value: RESPDatatypes::NullString,
                                consumed: p + 2 - start,
                            }
                        } else if n < -1 {
                            DecodeResult::Malformed
                        } else {
                            let hdr_abs = p + 2;
                            let ghost hdr = 3 + i;
                            proof {
                                assert(hdr_abs - start == hdr);
                            }
                            let n_us = n as usize;
                            let avail = input.len() - hdr_abs;
                            if avail <= n_us {
                                proof {
                                    assert(s.len() <= hdr + n);
                                }
                                DecodeResult::NeedMore
                            } else {
                                proof {
                                    assert(s.len() > hdr + n);
                                    assert(s[hdr + n] == input@[hdr_abs + n_us]);
                                }
                                if input[hdr_abs + n_us] != 13 {
                                    DecodeResult::Malformed
                                } else if avail == n_us + 1 {
                                    proof {
                                        assert(s.len() == hdr + n + 1);
                                    }
                                    DecodeResult::NeedMore
                                } else {
                                    proof {
                                        assert(s.len() > hdr + n + 1);
                                        assert(s[hdr + n + 1] == input@[hdr_abs + n_us + 1]);
                                    }
                                    if input[hdr_abs + n_us + 1] != 10 {
                                        DecodeResult::Malformed
                                    } else {
                                        let payload = crate::ascii::copy_range(
                                            input,
                                            hdr_abs,
                                            hdr_abs + n_us,
                                        );
                                        proof {
                                            assert(payload@ =~= s.subrange(hdr, hdr + n));
                                        }
                                        DecodeResult::Value {
                                            value: RESPDatatypes::BufBulk(payload),
                                            consumed: hdr_abs + n_us + 2 - start,
                                        }
                                    }
                                }
                            }
                        }
                    },
                }
            } else if tag == 42 {
                match parse_i32_range(input, start + 1, p) {
                    None => DecodeResult::Malformed,
                    Some(n) => {
                        if n == -1 {
                            DecodeResult::Value {
                                value: RESPDatatypes::NullArray,
                                consumed: p + 2 - start,
                            }
                        } else if n < -1 {
                            DecodeResult::Malformed
                        } else {
                            let hdr_abs = p + 2;
                            let ghost hdr = 3 + i;
                            proof {
                                assert(s.skip(hdr) =~= input@.skip(hdr_abs as int));
                            }
                            match decode_items_at(input, hdr_abs, n as usize) {
                                DecodeItems::NeedMore => DecodeResult::NeedMore,
                                DecodeItems::Malformed => DecodeResult::Malformed,
                                DecodeItems::Values { values, consumed } => DecodeResult::Value {
                                    value: RESPDatatypes::Array(values),
                                    consumed: hdr_abs + consumed - start,
                                },
                            }
                        }
                    },
                }
            } else {
                DecodeResult::Malformed
            }
        },
    }
}

/// Decodes `n` consecutive values from `input[start..]`.
#[verifier::loop_isolation(false)]
pub fn decode_items_at(input: &Vec<u8>, start: usize, n: usize) -> (r: DecodeItems)
    requires
        start <= input.len(),
    ensures
        decode_items_matches(r, spec_decode_items(input@.skip(start as int), n as int)),
        r matches DecodeItems::Values { consumed, .. } ==> consumed <= input.len() - start,
    decreases input.len() - start, n + 1,
{
    let ghost s0 = input@.skip(start as int);
    let mut values: Vec<RESPDatatypes> = Vec::new();
    let mut pos: usize = start;
    let mut i: usize = 0;
    proof {
        assert(input@.skip(pos as int) =~= s0);
        assert(view_items(values, 0) =~= Seq::<SpecResp>::empty());
    }
    while i < n
        invariant
            start <= pos <= input.len(),
            i <= n,
            match spec_decode_items(input@.skip(pos as int), n - i) {
                SpecItems::Vals(elems, c2) => spec_decode_items(s0, n as int) == SpecItems::Vals(
                    view_items(values, 0) + elems,
                    pos - start + c2,
                ),
                SpecItems::More => spec_decode_items(s0, n as int) is More,
                SpecItems::Bad => spec_decode_items(s0, n as int) is Bad,
            },
        decreases n - i,
    {
        let ghost s_cur = input@.skip(pos as int);
        let d = decode_at(input, pos);
        match d {
            DecodeResult::NeedMore => {
                return DecodeItems::NeedMore;
            },
            DecodeResult::Malformed => {
                return DecodeItems::Malformed;
            },
            DecodeResult::Value { value, consumed } => {
                if consumed < 1 || consumed > input.len() - pos {
                    return DecodeItems::Malformed;
                }
                proof {
                    let ghost old_views = view_items(values, 0);
                    assert(s_cur.skip(consumed as int) =~= input@.skip(pos + consumed));
                    match spec_decode_items(s_cur.skip(consumed as int), n - i - 1) {
                        SpecItems::Vals(elems2, c3) => {
                            assert(spec_decode_items(s_cur, n - i) == SpecItems::Vals(
                                seq![view_of(value)] + elems2,
                                consumed + c3,
                            ));
                            assert(old_views + (seq![view_of(value)] + elems2) =~= old_views.push(
                                view_of(value),
                            ) + elems2);
                        },
                        SpecItems::More => {},
                        SpecItems::Bad => {},
                    }
                }
                let ghost values_before = values;
                values.push(value);
                proof {
                    crate::resp::types::lemma_view_items_push(values_before, values, value);
                }
                pos = pos + consumed;
                i = i + 1;
            },
        }
    }
    proof {
        assert(spec_decode_items(input@.skip(pos as int), 0) == SpecItems::Vals(
            Seq::<SpecResp>::empty(),
            0,
        ));
        assert(view_items(values, 0) + Seq::<SpecResp>::empty() =~= view_items(values, 0));
    }
    DecodeItems::Values { values, consumed: pos - start }
}

/// Decodes the first value of `input`, reporting how many bytes it
/// spans.
pub fn decode(input: &Vec<u8>) -> (r: DecodeResult)
    ensures
        decode_matches(r, spec_decode(input@)),
        r matches DecodeResult::Value { consumed, .. } ==> 1 <= consumed <= input.len(),
{
    let r = decode_at(input, 0);
    proof {
        assert(input@.skip(0) =~= input@);
    }
    r
}

/// Relies on `String::from_utf8` (std): it returns `Ok` exactly on
/// valid UTF-8, and the string's characters are those bytes decoded.
/// Any failure is reported as invalid input.
#[verifier::external_body]
pub fn bytes_to_string(vec: &[u8]) -> (r: Result<String, RespError>)
    ensures
        r is Ok <==> vstd::utf8::valid_utf8(vec@),
        r matches Ok(s) ==> s@ == vstd::utf8::decode_utf8(vec@),
        r matches Err(e) ==> e == RespError::InvalidInput,
{
    match String::from_utf8(vec.to_vec()) {
        Ok(s) => Ok(s),
        Err(_) => Err(RespError::InvalidInput),
    }
}

/// Reads a byte string as a signed 32-bit decimal integer.
pub fn bytes_to_type(vec: &[u8]) -> (r: Result<i32, RespError>)
    ensures
        match parse_i32_spec(vec@) {
            Some(n) => r == Result::<i32, RespError>::Ok(n),
            None => r == Result::<i32, RespError>::Err(RespError::InvalidInput),
        },
{
    let v = vstd::slice::slice_to_vec(vec);
    let len = v.len();
    proof {
        assert(v@.subrange(0, v@.len() as int) =~= vec@);
    }
    match parse_i32_range(&v, 0, len) {
        Some(n) => Ok(n),
        None => Err(RespError::InvalidInput),
    }
}

/// The index of the first CRLF pair, or the last index of the buffer
/// when it holds none (zero for a buffer shorter than a pair).
pub fn index_till_first_clrf(vec: &mut Vec<u8>) -> (r: usize)
    ensures
        final(vec)@ == old(vec)@,
        match find_crlf(old(vec)@) {
            Some(i) => r == i,
            None => r == if old(vec)@.len() < 2 {
                0int
            } else {
                old(vec)@.len() - 1
            },
        },
{
    match find_crlf_at(vec, 0) {
        Some(i) => {
            proof {
                assert(vec@.skip(0) =~= vec@);
            }
            i
        },
        None => {
            proof {
                assert(vec@.skip(0) =~= vec@);
            }
            if vec.len() < 2 {
                0
            } else {
                vec.len() - 1
            }
        },
    }
}

/// Drops everything through the first CRLF pair; without one, drops
/// one byte past the last full pair position, capped at the buffer.
pub fn drain_till_index_till_first_clrf(vec: &mut Vec<u8>)
    ensures
        final(vec)@ == old(vec)@.skip(
            match find_crlf(old(vec)@) {
                Some(i) => i + 2,
                None => old(vec)@.len() as int,
            },
        ),
{
    let idx = index_till_first_clrf(vec);
    let n = if vec.len() >= 2 && idx <= vec.len() - 2 {
        idx + 2
    } else {
        vec.len()
    };
    crate::ascii::drain_front(vec, n);
    proof {
        crate::ascii::lemma_find_crlf_char(old(vec)@);
    }
}

/// The streaming RESP reader: it takes one value off the front of a
/// byte buffer.
pub struct Deseralize;

impl Deseralize {
    /// Decodes the first value of `input` and drains the bytes it
    /// spans. An empty buffer reports `UnexpectedEof`; one that stops
    /// inside a value reports `NeedMore`; a malformed one reports
    /// `InvalidInput`; all three leave the buffer unchanged.
    pub fn deseralize(&self, input: &mut Vec<u8>) -> (r: Result<RESPDatatypes, RespError>)
        ensures
            match spec_decode(old(input)@) {
                SpecDecode::Val(v, c) => r matches Ok(val) && val@ == v && final(input)@ == old(
                    input,
                )@.skip(c),
                SpecDecode::More => final(input)@ == old(input)@ && (if old(input)@.len() == 0 {
                    r == Result::<RESPDatatypes, RespError>::Err(RespError::UnexpectedEof)
                } else {
                    r == Result::<RESPDatatypes, RespError>::Err(RespError::NeedMore)
                }),
                SpecDecode::Bad => final(input)@ == old(input)@ && r == Result::<
                    RESPDatatypes,
                    RespError,
                >::Err(RespError::InvalidInput),
            },
    {
        match decode(input) {
            DecodeResult::Value { value, consumed } => {
                crate::ascii::drain_front(input, consumed);
                Ok(value)
            },
            DecodeResult::NeedMore => {
                if input.len() == 0 {
                    Err(RespError::UnexpectedEof)
                } else {
                    Err(RespError::NeedMore)
                }
            },
            DecodeResult::Malformed => Err(RespError::InvalidInput),
        }
    }
}

} // verus!
