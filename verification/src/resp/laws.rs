//! The codec's laws. Decoding inverts encoding for every value in
//! the decoder's range, whatever follows the frame in the buffer; and
//! no strict prefix of an encoding is ever taken for a whole value or
//! rejected — the decoder always asks for more input.

use vstd::prelude::*;
use crate::ascii::{
    all_digits, crlf_free, dec_val, find_crlf, int_repr, is_digit, lemma_dec_val_udec,
    lemma_find_crlf_exact, lemma_find_crlf_none, lemma_udec_repr_digits, parse_i32_spec,
    parse_int_spec, udec_repr,
};
use crate::resp::types::{wire_canonical, SpecResp};
use crate::resp::serialize::{bool_text, spec_encode, spec_encode_items};
use crate::resp::deserialize::{spec_decode, spec_decode_items, SpecDecode, SpecItems};

verus! {

broadcast use vstd::seq::axiom_seq_index_decreases;

/// A byte string without carriage returns holds no CRLF pair.
proof fn lemma_no_cr_crlf_free(s: Seq<u8>)
    requires
        forall|i: int| 0 <= i < s.len() ==> s[i] != 13,
    ensures
        crlf_free(s),
{
}

/// Digit strings hold no carriage return.
proof fn lemma_digits_crlf_free(s: Seq<u8>)
    requires
        all_digits(s),
    ensures
        crlf_free(s),
{
    assert forall|i: int| 0 <= i < s.len() implies s[i] != 13 by {
        assert(is_digit(s[i]));
    }
    lemma_no_cr_crlf_free(s);
}

/// The first CRLF of a framed line comes right after the line.
proof fn lemma_line_find(line: Seq<u8>, tail: Seq<u8>)
    requires
        crlf_free(line),
    ensures
        find_crlf(line + seq![13u8, 10u8] + tail) == Some(line.len() as int),
{
    let s = line + seq![13u8, 10u8] + tail;
    let n = line.len() as int;
    assert(s[n] == 13);
    assert(s[n + 1] == 10);
    assert forall|j: int| 0 <= j < n implies !(#[trigger] s[j] == 13 && s[j + 1] == 10) by {
        assert(s[j] == line[j]);
        if j + 1 < n {
            assert(s[j + 1] == line[j + 1]);
        } else {
            assert(s[j + 1] == 13);
        }
    }
    lemma_find_crlf_exact(s, n);
}

/// No prefix that stops inside the line or its terminator holds a
/// CRLF pair.
proof fn lemma_line_prefix_none(line: Seq<u8>, full: Seq<u8>, len: int)
    requires
        crlf_free(line),
        0 <= len <= line.len() + 1,
        len <= full.len(),
        forall|j: int| 0 <= j < len ==> full[j] == (line + seq![13u8, 10u8])[j],
    ensures
        find_crlf(full.take(len)) is None,
{
    let p = full.take(len);
    assert forall|j: int| 0 <= j < p.len() - 1 implies !(#[trigger] p[j] == 13 && p[j + 1]
        == 10) by {
        assert(p[j] == full[j]);
        assert(p[j + 1] == full[j + 1]);
        if j + 1 < line.len() {
            assert(full[j] == line[j]);
            assert(full[j + 1] == line[j + 1]);
        } else {
            assert(j + 1 == line.len());
            assert(full[j + 1] == 13);
        }
    }
    lemma_find_crlf_none(p);
}

/// Reading back the decimal form of a 32-bit integer returns it.
proof fn lemma_parse_int_repr(n: int)
    requires
        i32::MIN <= n <= i32::MAX,
    ensures
        parse_i32_spec(int_repr(n)) == Some(n as i32),
{
    if n >= 0 {
        lemma_udec_repr_digits(n);
        lemma_dec_val_udec(n);
        let s = udec_repr(n);
        assert(is_digit(s[0]));
        assert(s[0] != 45);
        assert(parse_int_spec(s) == Some(n));
    } else {
        lemma_udec_repr_digits(-n);
        lemma_dec_val_udec(-n);
        let s = int_repr(n);
        assert(s[0] == 45);
        assert(s.skip(1) =~= udec_repr(-n));
        assert(s.len() >= 2);
        assert(parse_int_spec(s) == Some(n));
    }
}

/// Every encoding is at least three bytes.
proof fn lemma_encode_min_len(v: SpecResp)
    ensures
        spec_encode(v).len() >= 3,
{
    match v {
        SpecResp::Integer(n) => {
            if n as int >= 0 {
                lemma_udec_repr_digits(n as int);
            } else {
                lemma_udec_repr_digits(-(n as int));
            }
        },
        SpecResp::BulkString(p) => {
            lemma_udec_repr_digits(p.len() as int);
        },
        SpecResp::BufBulk(p) => {
            lemma_udec_repr_digits(p.len() as int);
        },
        SpecResp::RDBFile(p) => {
            lemma_udec_repr_digits(p.len() as int);
        },
        SpecResp::Array(items) => {
            lemma_udec_repr_digits(items.len() as int);
        },
        _ => {},
    }
}

/// Decoding inverts encoding, whatever bytes follow the frame.
#[verifier::rlimit(100)]
pub proof fn lemma_decode_encode(v: SpecResp, rest: Seq<u8>)
    requires
        wire_canonical(v),
    ensures
        spec_decode(spec_encode(v) + rest) == SpecDecode::Val(v, spec_encode(v).len() as int),
    decreases v, 0nat, 0nat,
{
    let enc = spec_encode(v);
    let s = enc + rest;
    let r = s.skip(1);
    match v {
        SpecResp::Null => {
            assert(s[0] == 95);
            assert(r =~= Seq::<u8>::empty() + seq![13u8, 10u8] + rest);
            lemma_line_find(Seq::<u8>::empty(), rest);
        },
        SpecResp::NullString => {
            assert(s[0] == 36);
            let line = seq![45u8, 49u8];
            assert(r =~= line + seq![13u8, 10u8] + rest);
            lemma_no_cr_crlf_free(line);
            lemma_line_find(line, rest);
            assert(r.take(2) =~= line);
            assert(line.skip(1) =~= seq![49u8]);
            assert(all_digits(line.skip(1)));
            assert(seq![49u8].drop_last() =~= Seq::<u8>::empty());
            assert(dec_val(seq![49u8]) == dec_val(Seq::<u8>::empty()) * 10 + 1);
            assert(parse_int_spec(line) == Some(-1));
            assert(parse_i32_spec(line) == Some(-1i32));
        },
        SpecResp::NullArray => {
            assert(s[0] == 42);
            let line = seq![45u8, 49u8];
            assert(r =~= line + seq![13u8, 10u8] + rest);
            lemma_no_cr_crlf_free(line);
            lemma_line_find(line, rest);
            assert(r.take(2) =~= line);
            assert(line.skip(1) =~= seq![49u8]);
            assert(all_digits(line.skip(1)));
            assert(seq![49u8].drop_last() =~= Seq::<u8>::empty());
            assert(dec_val(seq![49u8]) == dec_val(Seq::<u8>::empty()) * 10 + 1);
            assert(parse_int_spec(line) == Some(-1));
            assert(parse_i32_spec(line) == Some(-1i32));
        },
        SpecResp::Integer(n) => {
            assert(s[0] == 58);
            let line = int_repr(n as int);
            if n as int >= 0 {
                lemma_udec_repr_digits(n as int);
                lemma_digits_crlf_free(line);
            } else {
                lemma_udec_repr_digits(-(n as int));
                assert forall|i: int| 0 <= i < line.len() implies line[i] != 13 by {
                    if i == 0 {
                    } else {
                        assert(line[i] == udec_repr(-(n as int))[i - 1]);
                        assert(is_digit(line[i]));
                    }
                }
                lemma_no_cr_crlf_free(line);
            }
            assert(r =~= line + seq![13u8, 10u8] + rest);
            lemma_line_find(line, rest);
            assert(r.take(line.len() as int) =~= line);
            lemma_parse_int_repr(n as int);
        },
        SpecResp::Double(p) => {
            assert(s[0] == 44);
            assert(r =~= p + seq![13u8, 10u8] + rest);
            lemma_line_find(p, rest);
            assert(r.take(p.len() as int) =~= p);
        },
        SpecResp::SimpleString(p) => {
            assert(s[0] == 43);
            assert(r =~= p + seq![13u8, 10u8] + rest);
            lemma_line_find(p, rest);
            assert(r.take(p.len() as int) =~= p);
        },
        SpecResp::SimpleError(p) => {
            assert(s[0] == 45);
            assert(r =~= p + seq![13u8, 10u8] + rest);
            lemma_line_find(p, rest);
            assert(r.take(p.len() as int) =~= p);
        },
        SpecResp::Boolean(b) => {
            assert(s[0] == 35);
            let line = bool_text(b);
            lemma_no_cr_crlf_free(line);
            assert(r =~= line + seq![13u8, 10u8] + rest);
            lemma_line_find(line, rest);
            assert(r.take(line.len() as int) =~= line);
            if b {
                assert(bool_text(true) != bool_text(false)) by {
                    assert(bool_text(true).len() == 4);
                }
            } else {
                assert(bool_text(false) != bool_text(true)) by {
                    assert(bool_text(false).len() == 5);
                }
            }
        },
        SpecResp::BufBulk(p) => {
            assert(s[0] == 36);
            let line = udec_repr(p.len() as int);
            lemma_udec_repr_digits(p.len() as int);
            lemma_digits_crlf_free(line);
            assert(enc =~= seq![36u8] + line + seq![13u8, 10u8] + p + seq![13u8, 10u8]);
            assert(r =~= line + seq![13u8, 10u8] + (p + seq![13u8, 10u8] + rest));
            lemma_line_find(line, p + seq![13u8, 10u8] + rest);
            let i = line.len() as int;
            assert(r.take(i) =~= line);
            lemma_dec_val_udec(p.len() as int);
            assert(parse_int_spec(line) == Some(p.len() as int)) by {
                assert(is_digit(line[0]));
                assert(line[0] != 45);
            }
            let n = p.len() as int;
            let hdr = 3 + i;
            assert(s.len() == hdr + n + 2 + rest.len());
            assert(s[hdr + n] == 13);
            assert(s[hdr + n + 1] == 10);
            assert(s.subrange(hdr, hdr + n) =~= p);
        },
        SpecResp::Array(items) => {
            assert(s[0] == 42);
            let line = udec_repr(items.len() as int);
            lemma_udec_repr_digits(items.len() as int);
            lemma_digits_crlf_free(line);
            let body = spec_encode_items(items, 0);
            assert(enc =~= seq![42u8] + line + seq![13u8, 10u8] + body);
            assert(r =~= line + seq![13u8, 10u8] + (body + rest));
            lemma_line_find(line, body + rest);
            let i = line.len() as int;
            assert(r.take(i) =~= line);
            lemma_dec_val_udec(items.len() as int);
            assert(parse_int_spec(line) == Some(items.len() as int)) by {
                assert(is_digit(line[0]));
                assert(line[0] != 45);
            }
            let hdr = 3 + i;
            assert(s.skip(hdr) =~= body + rest);
            lemma_decode_encode_items(items, 0, rest);
            assert(items.skip(0) =~= items);
        },
        SpecResp::BulkString(_) => {
            assert(false);
        },
        SpecResp::RDBFile(_) => {
            assert(false);
        },
    }
}

/// Decoding a run of encoded values yields them back in order.
proof fn lemma_decode_encode_items(items: Seq<SpecResp>, from: int, rest: Seq<u8>)
    requires
        0 <= from <= items.len(),
        forall|j: int| 0 <= j < items.len() ==> wire_canonical(#[trigger] items[j]),
    ensures
        spec_decode_items(spec_encode_items(items, from) + rest, items.len() - from)
            == SpecItems::Vals(items.skip(from), spec_encode_items(items, from).len() as int),
    decreases items, items.len() - from, 1nat,
{
    let body = spec_encode_items(items, from);
    let s = body + rest;
    if from == items.len() {
        assert(body =~= Seq::<u8>::empty());
        assert(items.skip(from) =~= Seq::<SpecResp>::empty());
    } else {
        let head = spec_encode(items[from]);
        let tail = spec_encode_items(items, from + 1);
        assert(body =~= head + tail);
        assert(s =~= head + (tail + rest));
        lemma_decode_encode(items[from], tail + rest);
        lemma_encode_min_len(items[from]);
        let c = head.len() as int;
        assert(spec_decode(s) == SpecDecode::Val(items[from], c));
        assert(c <= s.len());
        assert(s.skip(c) =~= tail + rest);
        lemma_decode_encode_items(items, from + 1, rest);
        assert(seq![items[from]] + items.skip(from + 1) =~= items.skip(from));
    }
}

/// A prefix that ends inside the tag, the first line or its
/// terminator leaves the decoder asking for more.
proof fn lemma_hdr_prefix_more(tag: u8, line: Seq<u8>, after: Seq<u8>, k: int)
    requires
        crlf_free(line),
        1 <= k <= 2 + line.len(),
        tag == 43 || tag == 45 || tag == 95 || tag == 58 || tag == 44 || tag == 35 || tag == 36
            || tag == 42,
    ensures
        spec_decode((seq![tag] + line + seq![13u8, 10u8] + after).take(k)) == SpecDecode::More,
{
    let full = seq![tag] + line + seq![13u8, 10u8] + after;
    let s = full.take(k);
    assert(s[0] == tag);
    let r = s.skip(1);
    let lf = line + seq![13u8, 10u8] + after;
    assert(r =~= lf.take(k - 1));
    assert(forall|j: int| 0 <= j < k - 1 ==> lf[j] == (line + seq![13u8, 10u8])[j]);
    lemma_line_prefix_none(line, lf, k - 1);
    assert(lf.take(k - 1) == lf.take(k - 1).take(k - 1));
    assert(find_crlf(r) is None) by {
        assert(r.take(k - 1) =~= r);
    }
}

/// No strict prefix of an encoding is decoded or rejected: the
/// decoder asks for more input.
#[verifier::rlimit(100)]
pub proof fn lemma_decode_encode_prefix(v: SpecResp, k: int)
    requires
        wire_canonical(v),
        0 <= k < spec_encode(v).len(),
    ensures
        spec_decode(spec_encode(v).take(k)) == SpecDecode::More,
    decreases v, 0nat, 0nat,
{
    let enc = spec_encode(v);
    let s = enc.take(k);
    if k == 0 {
        assert(s =~= Seq::<u8>::empty());
    } else {
        match v {
            SpecResp::Null => {
                assert(enc =~= seq![95u8] + Seq::<u8>::empty() + seq![13u8, 10u8]
                    + Seq::<u8>::empty());
                lemma_hdr_prefix_more(95, Seq::<u8>::empty(), Seq::<u8>::empty(), k);
            },
            SpecResp::NullString => {
                let line = seq![45u8, 49u8];
                lemma_no_cr_crlf_free(line);
                assert(enc =~= seq![36u8] + line + seq![13u8, 10u8] + Seq::<u8>::empty());
                lemma_hdr_prefix_more(36, line, Seq::<u8>::empty(), k);
            },
            SpecResp::NullArray => {
                let line = seq![45u8, 49u8];
                lemma_no_cr_crlf_free(line);
                assert(enc =~= seq![42u8] + line + seq![13u8, 10u8] + Seq::<u8>::empty());
                lemma_hdr_prefix_more(42, line, Seq::<u8>::empty(), k);
            },
            SpecResp::Integer(n) => {
                let line = int_repr(n as int);
                if n as int >= 0 {
                    lemma_udec_repr_digits(n as int);
                    lemma_digits_crlf_free(line);
                } else {
                    lemma_udec_repr_digits(-(n as int));
                    assert forall|i: int| 0 <= i < line.len() implies line[i] != 13 by {
                        if i > 0 {
                            assert(line[i] == udec_repr(-(n as int))[i - 1]);
                            assert(is_digit(line[i]));
                        }
                    }
                    lemma_no_cr_crlf_free(line);
                }
                assert(enc =~= seq![58u8] + line + seq![13u8, 10u8] + Seq::<u8>::empty());
                lemma_hdr_prefix_more(58, line, Seq::<u8>::empty(), k);
            },
            SpecResp::Double(p) => {
                assert(enc =~= seq![44u8] + p + seq![13u8, 10u8] + Seq::<u8>::empty());
                lemma_hdr_prefix_more(44, p, Seq::<u8>::empty(), k);
            },
            SpecResp::SimpleString(p) => {
                assert(enc =~= seq![43u8] + p + seq![13u8, 10u8] + Seq::<u8>::empty());
                lemma_hdr_prefix_more(43, p, Seq::<u8>::empty(), k);
            },
            SpecResp::SimpleError(p) => {
                assert(enc =~= seq![45u8] + p + seq![13u8, 10u8] + Seq::<u8>::empty());
                lemma_hdr_prefix_more(45, p, Seq::<u8>::empty(), k);
            },
            SpecResp::Boolean(b) => {
                let line = bool_text(b);
                lemma_no_cr_crlf_free(line);
                assert(enc =~= seq![35u8] + line + seq![13u8, 10u8] + Seq::<u8>::empty());
                lemma_hdr_prefix_more(35, line, Seq::<u8>::empty(), k);
            },
            SpecResp::BufBulk(p) => {
                let line = udec_repr(p.len() as int);
                lemma_udec_repr_digits(p.len() as int);
                lemma_digits_crlf_free(line);
                let after = p + seq![13u8, 10u8];
                assert(enc =~= seq![36u8] + line + seq![13u8, 10u8] + after);
                let i = line.len() as int;
                let hdr = 3 + i;
                if k <= hdr - 1 {
                    lemma_hdr_prefix_more(36, line, after, k);
                } else {
                    assert(s[0] == 36);
                    let r = s.skip(1);
                    let lf = line + seq![13u8, 10u8] + after;
                    assert(r =~= lf.take(k - 1));
                    assert(r[i] == 13);
                    assert(r[i + 1] == 10);
                    assert forall|j: int| 0 <= j < i implies !(#[trigger] r[j] == 13 && r[j + 1]
                        == 10) by {
                        assert(r[j] == line[j]);
                        if j + 1 < i {
                            assert(r[j + 1] == line[j + 1]);
                        } else {
                            assert(r[j + 1] == 13);
                        }
                    }
                    lemma_find_crlf_exact(r, i);
                    assert(r.take(i) =~= line);
                    lemma_dec_val_udec(p.len() as int);
                    assert(parse_int_spec(line) == Some(p.len() as int)) by {
                        assert(is_digit(line[0]));
                        assert(line[0] != 45);
                    }
                    let n = p.len() as int;
                    assert(s.len() == k);
                    if k <= hdr + n {
                    } else {
                        assert(k == hdr + n + 1);
                        assert(s[hdr + n] == enc[hdr + n]);
                        assert(enc[hdr + n] == 13);
                    }
                }
            },
            SpecResp::Array(items) => {
                let line = udec_repr(items.len() as int);
                lemma_udec_repr_digits(items.len() as int);
                lemma_digits_crlf_free(line);
                let body = spec_encode_items(items, 0);
                assert(enc =~= seq![42u8] + line + seq![13u8, 10u8] + body);
                let i = line.len() as int;
                let hdr = 3 + i;
                if k <= hdr - 1 {
                    lemma_hdr_prefix_more(42, line, body, k);
                } else {
                    assert(s[0] == 42);
                    let r = s.skip(1);
                    let lf = line + seq![13u8, 10u8] + body;
                    assert(r =~= lf.take(k - 1));
                    assert(r[i] == 13);
                    assert(r[i + 1] == 10);
                    assert forall|j: int| 0 <= j < i implies !(#[trigger] r[j] == 13 && r[j + 1]
                        == 10) by {
                        assert(r[j] == line[j]);
                        if j + 1 < i {
                            assert(r[j + 1] == line[j + 1]);
                        } else {
                            assert(r[j + 1] == 13);
                        }
                    }
                    lemma_find_crlf_exact(r, i);
                    assert(r.take(i) =~= line);
                    lemma_dec_val_udec(items.len() as int);
                    assert(parse_int_spec(line) == Some(items.len() as int)) by {
                        assert(is_digit(line[0]));
                        assert(line[0] != 45);
                    }
                    assert(s.skip(hdr) =~= body.take(k - hdr));
                    lemma_decode_items_prefix(items, 0, k - hdr);
                }
            },
            SpecResp::BulkString(_) => {
                assert(false);
            },
            SpecResp::RDBFile(_) => {
                assert(false);
            },
        }
    }
}

/// A prefix of a run of encoded values leaves the decoder asking for
/// more.
proof fn lemma_decode_items_prefix(items: Seq<SpecResp>, from: int, k: int)
    requires
        0 <= from <= items.len(),
        forall|j: int| 0 <= j < items.len() ==> wire_canonical(#[trigger] items[j]),
        0 <= k < spec_encode_items(items, from).len(),
    ensures
        spec_decode_items(spec_encode_items(items, from).take(k), items.len() - from)
            == SpecItems::More,
    decreases items, items.len() - from, 1nat,
{
    let body = spec_encode_items(items, from);
    assert(from < items.len()) by {
        if from == items.len() {
            assert(body =~= Seq::<u8>::empty());
        }
    }
    let head = spec_encode(items[from]);
    let tail = spec_encode_items(items, from + 1);
    assert(body =~= head + tail);
    let s = body.take(k);
    let c = head.len() as int;
    lemma_encode_min_len(items[from]);
    if k < c {
        assert(s =~= head.take(k));
        lemma_decode_encode_prefix(items[from], k);
    } else {
        assert(s =~= head + tail.take(k - c));
        lemma_decode_encode(items[from], tail.take(k - c));
        assert(spec_decode(s) == SpecDecode::Val(items[from], c));
        assert(s.skip(c) =~= tail.take(k - c));
        assert(k - c < tail.len());
        lemma_decode_items_prefix(items, from + 1, k - c);
    }
}

/// Decoding the encoding alone returns the value and consumes the
/// whole buffer.
pub proof fn theorem_round_trip(v: SpecResp)
    requires
        wire_canonical(v),
    ensures
        spec_decode(spec_encode(v)) == SpecDecode::Val(v, spec_encode(v).len() as int),
{
    lemma_decode_encode(v, Seq::<u8>::empty());
    assert(spec_encode(v) + Seq::<u8>::empty() =~= spec_encode(v));
}

} // verus!
