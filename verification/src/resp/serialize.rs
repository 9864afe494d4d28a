//! RESP encoding: every value becomes a one-byte tag, a payload and a
//! CRLF terminator; bulk payloads are length-prefixed, arrays are
//! count-prefixed and recursive.

use vstd::prelude::*;
use crate::ascii::{int_repr, udec_repr, push_int, push_udec};
use crate::resp::types::{RESPDatatypes, SpecResp};

verus! {

broadcast use vstd::seq::axiom_seq_index_decreases, vstd::std_specs::vec::axiom_vec_index_decreases;

/// The wire text of a boolean payload: `true` or `false`.
pub open spec fn bool_text(b: bool) -> Seq<u8> {
    if b {
        seq![116u8, 114u8, 117u8, 101u8]
    } else {
        seq![102u8, 97u8, 108u8, 115u8, 101u8]
    }
}

/// A length-prefixed bulk frame; `trail` adds the closing CRLF that
/// every bulk but an RDB payload carries.
pub open spec fn bulk_frame(p: Seq<u8>, trail: bool) -> Seq<u8> {
    seq![36u8] + udec_repr(p.len() as int) + seq![13u8, 10u8] + p + (if trail {
        seq![13u8, 10u8]
    } else {
        Seq::<u8>::empty()
    })
}

/// The bytes a RESP value encodes to.
pub open spec fn spec_encode(v: SpecResp) -> Seq<u8>
    decreases v, 0nat, 0nat,
{
    match v {
        SpecResp::Null => seq![95u8, 13u8, 10u8],
        SpecResp::NullString => seq![36u8, 45u8, 49u8, 13u8, 10u8],
        SpecResp::NullArray => seq![42u8, 45u8, 49u8, 13u8, 10u8],
        SpecResp::Integer(n) => seq![58u8] + int_repr(n as int) + seq![13u8, 10u8],
        SpecResp::Double(p) => seq![44u8] + p + seq![13u8, 10u8],
        SpecResp::SimpleString(p) => seq![43u8] + p + seq![13u8, 10u8],
        SpecResp::SimpleError(p) => seq![45u8] + p + seq![13u8, 10u8],
        SpecResp::BulkString(p) => bulk_frame(p, true),
        SpecResp::BufBulk(p) => bulk_frame(p, true),
        SpecResp::RDBFile(p) => bulk_frame(p, false),
        SpecResp::Boolean(b) => seq![35u8] + bool_text(b) + seq![13u8, 10u8],
        SpecResp::Array(items) => seq![42u8] + udec_repr(items.len() as int) + seq![13u8, 10u8]
            + spec_encode_items(items, 0),
    }
}

/// The concatenated encodings of `items[from..]`.
pub open spec fn spec_encode_items(items: Seq<SpecResp>, from: int) -> Seq<u8>
    recommends
        0 <= from <= items.len(),
    decreases items, items.len() - from, 1nat,
{
    if from < 0 || from >= items.len() {
        Seq::<u8>::empty()
    } else {
        spec_encode(items[from]) + spec_encode_items(items, from + 1)
    }
}

/// The RESP encoder. Each method appends one frame to `buf`.
pub struct SerializeRESP;

impl SerializeRESP {
    /// Appends the encoding of `value` to `buf`.
    pub fn encode(&self, value: &RESPDatatypes, buf: &mut Vec<u8>)
        ensures
            final(buf)@ == old(buf)@ + spec_encode(value@),
        decreases *value,
    {
        match value {
            RESPDatatypes::Null => self.encode_null(buf),
            RESPDatatypes::NullString => self.encode_null_string(buf),
            RESPDatatypes::NullArray => self.encode_null_array(buf),
            RESPDatatypes::Integer(data) => self.encode_integer(buf, data),
            RESPDatatypes::Double(data) => self.encode_double(buf, data),
            RESPDatatypes::SimpleString(data) => self.encode_simple_string(buf, data),
            RESPDatatypes::SimpleError(data) => self.encode_error_string(buf, data),
            RESPDatatypes::BulkString(data) => self.encode_bulk_string(buf, data),
            RESPDatatypes::BufBulk(data) => self.encode_buf_string(buf, data, true),
            RESPDatatypes::RDBFile(data) => self.encode_buf_string(buf, data, false),
            RESPDatatypes::Boolean(data) => self.encode_boolean(buf, data),
            RESPDatatypes::Array(data) => self.encode_array(buf, data),
        }
    }

    fn encode_null(&self, buf: &mut Vec<u8>)
        ensures
            final(buf)@ == old(buf)@ + spec_encode(SpecResp::Null),
    {
        buf.push(95);
        buf.push(13);
        buf.push(10);
        proof {
            assert(buf@ =~= old(buf)@ + spec_encode(SpecResp::Null));
        }
    }

    fn encode_null_string(&self, buf: &mut Vec<u8>)
        ensures
            final(buf)@ == old(buf)@ + spec_encode(SpecResp::NullString),
    {
        buf.push(36);
        buf.push(45);
        buf.push(49);
        buf.push(13);
        buf.push(10);
        proof {
            assert(buf@ =~= old(buf)@ + spec_encode(SpecResp::NullString));
        }
    }

    fn encode_null_array(&self, buf: &mut Vec<u8>)
        ensures
            final(buf)@ == old(buf)@ + spec_encode(SpecResp::NullArray),
    {
        buf.push(42);
        buf.push(45);
        buf.push(49);
        buf.push(13);
        buf.push(10);
        proof {
            assert(buf@ =~= old(buf)@ + spec_encode(SpecResp::NullArray));
        }
    }

    fn encode_integer(&self, buf: &mut Vec<u8>, data: &i32)
        ensures
            final(buf)@ == old(buf)@ + spec_encode(SpecResp::Integer(*data)),
    {
        buf.push(58);
        push_int(*data as i64, buf);
        buf.push(13);
        buf.push(10);
        proof {
            assert(buf@ =~= old(buf)@ + spec_encode(SpecResp::Integer(*data)));
        }
    }

    fn encode_double(&self, buf: &mut Vec<u8>, data: &Vec<u8>)
        ensures
            final(buf)@ == old(buf)@ + spec_encode(SpecResp::Double(data@)),
    {
        buf.push(44);
        self.push_payload(buf, data);
        buf.push(13);
        buf.push(10);
        proof {
            assert(buf@ =~= old(buf)@ + spec_encode(SpecResp::Double(data@)));
        }
    }

    fn encode_simple_string(&self, buf: &mut Vec<u8>, data: &Vec<u8>)
        ensures
            final(buf)@ == old(buf)@ + spec_encode(SpecResp::SimpleString(data@)),
    {
        buf.push(43);
        self.push_payload(buf, data);
        buf.push(13);
        buf.push(10);
        proof {
            assert(buf@ =~= old(buf)@ + spec_encode(SpecResp::SimpleString(data@)));
        }
    }

    fn encode_error_string(&self, buf: &mut Vec<u8>, data: &Vec<u8>)
        ensures
            final(buf)@ == old(buf)@ + spec_encode(SpecResp::SimpleError(data@)),
    {
        buf.push(45);
        self.push_payload(buf, data);
        buf.push(13);
        buf.push(10);
        proof {
            assert(buf@ =~= old(buf)@ + spec_encode(SpecResp::SimpleError(data@)));
        }
    }

    fn encode_bulk_string(&self, buf: &mut Vec<u8>, data: &Vec<u8>)
        ensures
            final(buf)@ == old(buf)@ + spec_encode(SpecResp::BulkString(data@)),
    {
        self.encode_buf_string(buf, data, true);
        proof {
            assert(spec_encode(SpecResp::BulkString(data@)) == bulk_frame(data@, true));
        }
    }

    fn encode_buf_string(&self, buf: &mut Vec<u8>, data: &Vec<u8>, add_clrf_to_end: bool)
        ensures
            final(buf)@ == old(buf)@ + bulk_frame(data@, add_clrf_to_end),
    {
        buf.push(36);
        push_udec(data.len() as u64, buf);
        buf.push(13);
        buf.push(10);
        self.push_payload(buf, data);
        if add_clrf_to_end {
            buf.push(13);
            buf.push(10);
        }
        proof {
            assert(buf@ =~= old(buf)@ + bulk_frame(data@, add_clrf_to_end));
        }
    }

    fn encode_boolean(&self, buf: &mut Vec<u8>, data: &bool)
        ensures
            final(buf)@ == old(buf)@ + spec_encode(SpecResp::Boolean(*data)),
    {
        buf.push(35);
        if *data {
            buf.push(116);
            buf.push(114);
            buf.push(117);
            buf.push(101);
        } else {
            buf.push(102);
            buf.push(97);
            buf.push(108);
            buf.push(115);
            buf.push(101);
        }
        buf.push(13);
        buf.push(10);
        proof {
            assert(buf@ =~= old(buf)@ + spec_encode(SpecResp::Boolean(*data)));
        }
    }

    fn encode_array(&self, buf: &mut Vec<u8>, data: &Vec<RESPDatatypes>)
        ensures
            final(buf)@ == old(buf)@ + spec_encode(SpecResp::Array(
                crate::resp::types::view_items(*data, 0),
            )),
        decreases *data,
    {
        let ghost items = crate::resp::types::view_items(*data, 0);
        proof {
            crate::resp::types::lemma_view_items_index(*data, 0);
        }
        buf.push(42);
        push_udec(data.len() as u64, buf);
        buf.push(13);
        buf.push(10);
        let ghost header_done = buf@;
        let mut idx: usize = 0;
        while idx < data.len()
            invariant
                idx <= data.len(),
                items == Seq::new(data@.len(), |i: int| data[i]@),
                buf@ == header_done + spec_encode_items_prefix(items, idx as int),
            decreases data.len() - idx,
        {
            self.encode(&data[idx], buf);
            proof {
                lemma_encode_items_prefix_step(items, idx as int);
            }
            idx = idx + 1;
        }
        proof {
            lemma_encode_items_prefix_all(items);
            assert(buf@ =~= old(buf)@ + spec_encode(SpecResp::Array(items)));
        }
    }

    fn push_payload(&self, buf: &mut Vec<u8>, data: &Vec<u8>)
        ensures
            final(buf)@ == old(buf)@ + data@,
    {
        let mut i: usize = 0;
        while i < data.len()
            invariant
                i <= data.len(),
                buf@ == old(buf)@ + data@.take(i as int),
            decreases data.len() - i,
        {
            let b = data[i];
            buf.push(b);
            proof {
                assert(old(buf)@ + data@.take(i + 1) =~= (old(buf)@ + data@.take(i as int)).push(
                    data@[i as int],
                ));
            }
            i = i + 1;
        }
        proof {
            assert(data@.take(data@.len() as int) =~= data@);
        }
    }
}

/// The concatenated encodings of `items[..to]`.
pub open spec fn spec_encode_items_prefix(items: Seq<SpecResp>, to: int) -> Seq<u8>
    recommends
        0 <= to <= items.len(),
    decreases to,
{
    if to <= 0 {
        Seq::<u8>::empty()
    } else {
        spec_encode_items_prefix(items, to - 1) + spec_encode(items[to - 1])
    }
}

proof fn lemma_encode_items_prefix_step(items: Seq<SpecResp>, i: int)
    requires
        0 <= i < items.len(),
    ensures
        spec_encode_items_prefix(items, i + 1) == spec_encode_items_prefix(items, i)
            + spec_encode(items[i]),
{
}

/// The prefix concatenation over the whole sequence equals the
/// suffix-recursive form used by `spec_encode`.
pub proof fn lemma_encode_items_prefix_all(items: Seq<SpecResp>)
    ensures
        spec_encode_items_prefix(items, items.len() as int) == spec_encode_items(items, 0),
{
    lemma_encode_items_split(items, 0);
}

proof fn lemma_encode_items_split(items: Seq<SpecResp>, from: int)
    requires
        0 <= from <= items.len(),
    ensures
        spec_encode_items_prefix(items, items.len() as int) == spec_encode_items_prefix(
            items,
            from,
        ) + spec_encode_items(items, from),
    decreases items.len() - from,
{
    if from == items.len() {
        assert(spec_encode_items_prefix(items, items.len() as int) + Seq::<u8>::empty()
            =~= spec_encode_items_prefix(items, items.len() as int));
    } else {
        lemma_encode_items_split(items, from + 1);
        assert(spec_encode_items_prefix(items, from) + (spec_encode(items[from])
            + spec_encode_items(items, from + 1)) =~= (spec_encode_items_prefix(items, from)
            + spec_encode(items[from])) + spec_encode_items(items, from + 1));
        lemma_encode_items_prefix_step(items, from);
    }
}

} // verus!
